use mandelbrot::engine::iterate;
use mandelbrot::frame::FrameBuffer;
use mandelbrot::lane::MAX_ITER;
use mandelbrot::render::{check_arguments, intensity, lanes_at, render, InvalidArgument, Viewport};

/// An orbit: the point `z` and the constant `c`.
type Orbit = ((f64, f64), (f64, f64));

fn positive(zoom: &f64) -> bool {
    *zoom > 0.0
}

fn seed(viewport: &Viewport<f64>, dx: i64, dy: i64) -> Orbit {
    (
        (0.0, 0.0),
        (dx as f64 * viewport.zoom + viewport.x_offset, dy as f64 * viewport.zoom + viewport.y_offset),
    )
}

fn quadratic(orbit: &Orbit) -> (Orbit, bool) {
    let ((re, im), (cre, cim)) = *orbit;
    let zr = re * re - im * im + cre;
    let zi = 2.0 * re * im + cim;
    (((zr, zi), (cre, cim)), zr * zr + zi * zi > 4.0)
}

fn viewport(x_offset: f64, y_offset: f64, zoom: f64, width: u32, height: u32) -> Viewport<f64> {
    Viewport { x_offset, y_offset, zoom, width, height }
}

fn draw(viewport: &Viewport<f64>, lanes: u32) -> FrameBuffer {
    match render(viewport, lanes, &positive, &seed, &quadratic) {
        Ok(frame) => frame,
        Err(reason) => panic!("refused: {:?}", reason),
    }
}

fn refusal(viewport: &Viewport<f64>, lanes: u32) -> Option<InvalidArgument> {
    render(viewport, lanes, &positive, &seed, &quadratic).err()
}

fn shades(frame: &FrameBuffer) -> Vec<Vec<u8>> {
    let mut rows = Vec::new();
    for y in 0..frame.height() {
        let mut row = Vec::new();
        for x in 0..frame.width() {
            let (red, green, blue) = frame.pixel(x, y).unwrap();
            assert_eq!(red, green);
            assert_eq!(green, blue);
            row.push(red);
        }
        rows.push(row);
    }
    rows
}

#[test]
fn intensity_is_the_count_modulo_the_ramp() {
    assert_eq!(intensity(0), 0);
    assert_eq!(intensity(1), 1);
    assert_eq!(intensity(254), 254);
    assert_eq!(intensity(255), 0);
    assert_eq!(intensity(256), 1);
    assert_eq!(intensity(312), 57);
    assert_eq!(intensity(509), 254);
    assert_eq!(intensity(510), 0);
    assert_eq!(intensity(764), 254);
    assert_eq!(intensity(MAX_ITER), 0);
    assert_eq!(intensity(u32::MAX), 0);
}

#[test]
fn groups_are_full_until_the_row_runs_out() {
    assert_eq!(lanes_at(10, 0, 4), 4);
    assert_eq!(lanes_at(10, 4, 4), 4);
    assert_eq!(lanes_at(10, 8, 4), 2);
    assert_eq!(lanes_at(10, 10, 4), 0);
    assert_eq!(lanes_at(3, 0, 8), 3);
    assert_eq!(lanes_at(8, 4, 4), 4);
    assert_eq!(lanes_at(u32::MAX, 0, u32::MAX), u32::MAX);
    assert_eq!(lanes_at(7, 6, 1), 1);
}

#[test]
fn arguments_are_checked_in_order() {
    assert_eq!(check_arguments(4, 1, true, 4), Ok(()));
    assert_eq!(check_arguments(0, 1, true, 4), Err(InvalidArgument::ZeroWidth));
    assert_eq!(check_arguments(4, 0, true, 4), Err(InvalidArgument::ZeroHeight));
    assert_eq!(check_arguments(4, 1, false, 4), Err(InvalidArgument::NonPositiveZoom));
    assert_eq!(check_arguments(4, 1, true, 0), Err(InvalidArgument::ZeroLanes));
    assert_eq!(check_arguments(0, 0, false, 0), Err(InvalidArgument::ZeroWidth));
    assert_eq!(check_arguments(4, 0, false, 0), Err(InvalidArgument::ZeroHeight));
    assert_eq!(check_arguments(4, 1, false, 0), Err(InvalidArgument::NonPositiveZoom));
    assert_eq!(check_arguments(u32::MAX, u32::MAX, true, 0), Err(InvalidArgument::ZeroLanes));
}

#[test]
fn frames_beyond_one_allocation_are_refused() {
    assert_eq!(check_arguments(u32::MAX, u32::MAX, true, 4), Err(InvalidArgument::FrameTooLarge));
    assert_eq!(check_arguments(2560, 1440, true, 4), Ok(()));
}

#[test]
fn render_refuses_an_empty_frame() {
    assert_eq!(refusal(&viewport(0.0, 0.0, 0.003, 0, 1), 4), Some(InvalidArgument::ZeroWidth));
    assert_eq!(refusal(&viewport(0.0, 0.0, 0.003, 4, 0), 4), Some(InvalidArgument::ZeroHeight));
    assert_eq!(refusal(&viewport(0.0, 0.0, 0.003, 0, 0), 4), Some(InvalidArgument::ZeroWidth));
}

#[test]
fn render_refuses_a_zoom_that_is_not_positive() {
    assert_eq!(refusal(&viewport(0.0, 0.0, 0.0, 4, 1), 4), Some(InvalidArgument::NonPositiveZoom));
    assert_eq!(refusal(&viewport(0.0, 0.0, -0.003, 4, 1), 4), Some(InvalidArgument::NonPositiveZoom));
    assert_eq!(refusal(&viewport(0.0, 0.0, f64::NAN, 4, 1), 4), Some(InvalidArgument::NonPositiveZoom));
}

#[test]
fn render_refuses_a_lane_width_of_zero() {
    assert_eq!(refusal(&viewport(0.0, 0.0, 0.003, 4, 1), 0), Some(InvalidArgument::ZeroLanes));
}

#[test]
fn render_refuses_a_frame_that_cannot_be_allocated() {
    assert_eq!(
        refusal(&viewport(0.0, 0.0, 0.003, u32::MAX, u32::MAX), 4),
        Some(InvalidArgument::FrameTooLarge)
    );
}

#[test]
fn centre_of_the_reference_viewport_is_in_the_set() {
    let reference = viewport(0.0, 0.0, 0.003, 4, 1);
    let centre = seed(&reference, 0, 0);
    assert_eq!(centre, ((0.0, 0.0), (0.0, 0.0)));
    assert_eq!(iterate(centre, &quadratic), MAX_ITER);
    let frame = draw(&reference, 4);
    assert_eq!(frame.width(), 4);
    assert_eq!(frame.height(), 1);
    assert_eq!(frame.pixel(2, 0), Some((0, 0, 0)));
    assert_eq!(shades(&frame), vec![vec![0, 0, 0, 0]]);
}

#[test]
fn frame_has_the_viewport_dimensions() {
    let frame = draw(&viewport(-0.25, 0.1, 0.75, 5, 3), 4);
    assert_eq!(frame.width(), 5);
    assert_eq!(frame.height(), 3);
    assert_eq!(frame.pixel(4, 2), Some((2, 2, 2)));
    assert_eq!(frame.pixel(5, 0), None);
    assert_eq!(frame.pixel(0, 3), None);
    assert_eq!(frame.pixel(5, 3), None);
    assert_eq!(frame.pixel(u32::MAX, u32::MAX), None);
}

#[test]
fn pixels_are_grey_escape_times() {
    let frame = draw(&viewport(-0.25, 0.1, 0.75, 5, 3), 4);
    assert_eq!(
        shades(&frame),
        vec![vec![3, 4, 199, 4, 2], vec![4, 0, 0, 5, 2], vec![2, 3, 41, 3, 2]]
    );
}

#[test]
fn every_pixel_is_evaluated_at_its_own_coordinate() {
    let area = viewport(-0.5, 0.0, 0.5, 7, 3);
    let frame = draw(&area, 4);
    for y in 0..3u32 {
        for x in 0..7u32 {
            let start = seed(&area, x as i64 - 3, y as i64 - 1);
            let shade = intensity(iterate(start, &quadratic));
            assert_eq!(frame.pixel(x, y), Some((shade, shade, shade)));
        }
    }
    assert_eq!(
        shades(&frame),
        vec![
            vec![1, 3, 5, 0, 0, 5, 2],
            vec![0, 0, 0, 0, 0, 5, 3],
            vec![1, 3, 5, 0, 0, 5, 2],
        ]
    );
}

#[test]
fn counts_above_the_ramp_wrap_around() {
    let frame = draw(&viewport(0.2501, 0.0, 1.0, 1, 1), 4);
    assert_eq!(frame.pixel(0, 0), Some((57, 57, 57)));
}

#[test]
fn rendering_twice_gives_the_same_frame() {
    let area = viewport(-0.25, 0.1, 0.75, 5, 3);
    let first = draw(&area, 4);
    let second = draw(&area, 4);
    assert_eq!(first.width(), second.width());
    assert_eq!(first.height(), second.height());
    assert_eq!(shades(&first), shades(&second));
}

#[test]
fn partial_groups_render_like_single_lanes() {
    let area = viewport(-0.5, 0.0, 0.5, 7, 3);
    let scalar = shades(&draw(&area, 1));
    for lanes in [2u32, 3, 4, 5, 6, 7, 8, 64, u32::MAX] {
        assert_eq!(shades(&draw(&area, lanes)), scalar);
    }
}

#[test]
fn lane_width_does_not_change_a_frame_it_divides() {
    let area = viewport(-0.7, 0.05, 0.11, 16, 9);
    let scalar = shades(&draw(&area, 1));
    for lanes in [2u32, 4, 8, 16] {
        assert_eq!(shades(&draw(&area, lanes)), scalar);
    }
}

#[test]
fn single_column_frame_is_one_partial_group() {
    let frame = draw(&viewport(0.0, 0.0, 1.0, 1, 3), 4);
    assert_eq!(shades(&frame), vec![vec![0], vec![0], vec![0]]);
    let frame = draw(&viewport(0.0, 0.0, 1.5, 1, 3), 4);
    assert_eq!(shades(&frame), vec![vec![2], vec![0], vec![2]]);
}
