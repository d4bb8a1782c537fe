use mandelbrot::mapper::{center_correction, centered, centered_lanes};

fn map(pixel_index: i64, offset: f64, zoom: f64, correction: i64) -> f64 {
    centered(pixel_index, correction) as f64 * zoom + offset
}

#[test]
fn correction_is_half_the_dimension() {
    assert_eq!(center_correction(0), 0);
    assert_eq!(center_correction(1), 0);
    assert_eq!(center_correction(4), 2);
    assert_eq!(center_correction(5), 2);
    assert_eq!(center_correction(2560), 1280);
    assert_eq!(center_correction(u32::MAX), 2147483647);
}

#[test]
fn centre_pixel_has_offset_zero() {
    for correction in [0i64, 1, 2, 720, 1280, 2147483647] {
        assert_eq!(centered(correction, correction), 0);
    }
}

#[test]
fn offsets_are_signed_distances_from_the_centre() {
    assert_eq!(centered(0, 2), -2);
    assert_eq!(centered(3, 2), 1);
    assert_eq!(centered(0, 1280), -1280);
    assert_eq!(centered(2559, 1280), 1279);
    assert_eq!(centered(4294967295, 2147483647), 2147483648);
}

#[test]
fn centre_pixel_maps_to_the_offset() {
    for (offset, zoom) in [(0.0, 0.003), (-0.355, 0.000002), (0.096, 1.0), (1.0e300, 1.0e-300), (-7.25, 123.5)] {
        for correction in [0i64, 2, 720, 1280] {
            assert_eq!(map(correction, offset, zoom, correction), offset);
        }
    }
}

#[test]
fn map_is_affine_in_the_pixel_index() {
    assert_eq!(map(0, 0.0, 0.003, 2), -0.006);
    assert_eq!(map(3, 0.0, 0.5, 2), 0.5);
    assert_eq!(map(4, -0.25, 0.75, 2), 1.25);
    assert_eq!(map(0, 0.1, 0.75, 1), -0.65);
}

#[test]
fn lanes_are_mapped_like_single_pixels() {
    assert_eq!(centered_lanes(0, 4, 4), vec![-2, -1, 0, 1]);
    assert_eq!(centered_lanes(4, 3, 7), vec![1, 2, 3]);
    assert_eq!(centered_lanes(5, 0, 7), Vec::<i64>::new());
    let correction = center_correction(2560);
    let lanes = centered_lanes(1276, 8, 2560);
    for k in 0..8 {
        assert_eq!(lanes[k as usize], centered(1276 + k, correction));
    }
}

#[test]
fn lanes_reach_the_last_pixel_index() {
    assert_eq!(centered_lanes(u32::MAX - 1, 1, u32::MAX), vec![2147483647]);
}
