//! The frame renderer: maps every pixel of a frame to the plane, evaluates
//! it in column groups of a configurable number of lanes, and writes the
//! escape times to the frame as greyscale intensities.

use vstd::prelude::*;
use crate::engine::{deterministic, escapes_after, evaluate, lemma_escape_time_unique, total};
use crate::frame::{coordinates, frame_blank, frame_put, sample_count, FrameBuffer, FrameView};
use crate::lane::RAMP;
use crate::mapper::{center_correction, centered, centered_lanes, pixel_offset};

verus! {

/// The region of the plane that a frame depicts, in a scalar type `T` of
/// the caller's choice, and the dimensions of the frame in pixels.
#[derive(Debug)]
pub struct Viewport<T> {
    pub x_offset: T,
    pub y_offset: T,
    pub zoom: T,
    pub width: u32,
    pub height: u32,
}

/// Why a render was refused.
#[derive(Clone, Copy, Debug, PartialEq, Eq, Structural)]
pub enum InvalidArgument {
    /// The frame has no columns.
    ZeroWidth,
    /// The frame has no rows.
    ZeroHeight,
    /// The zoom is not a positive number.
    NonPositiveZoom,
    /// The lane width is zero.
    ZeroLanes,
    /// The frame's samples would not fit in one allocation.
    FrameTooLarge,
}

/// The first reason, if any, to refuse a frame of the given dimensions
/// rendered in groups of `lanes` columns, at a zoom whose sign test gave
/// `zoom_positive`.
pub open spec fn rejection(
    width: u32,
    height: u32,
    zoom_positive: bool,
    lanes: u32,
) -> Option<InvalidArgument> {
    if width == 0 {
        Some(InvalidArgument::ZeroWidth)
    } else if height == 0 {
        Some(InvalidArgument::ZeroHeight)
    } else if !zoom_positive {
        Some(InvalidArgument::NonPositiveZoom)
    } else if lanes == 0 {
        Some(InvalidArgument::ZeroLanes)
    } else if sample_count(width, height) > isize::MAX {
        Some(InvalidArgument::FrameTooLarge)
    } else {
        None
    }
}

/// Checks the arguments of a render: fails with the first reason to refuse
/// them, in the order in which `rejection` lists the reasons, and succeeds
/// where there is none.
pub fn check_arguments(
    width: u32,
    height: u32,
    zoom_positive: bool,
    lanes: u32,
) -> (checked: Result<(), InvalidArgument>)
    ensures
        rejection(width, height, zoom_positive, lanes) is None ==> checked is Ok,
        rejection(width, height, zoom_positive, lanes) matches Some(reason) ==> checked == Err::<(), InvalidArgument>(reason),
{
    if width == 0 {
        return Err(InvalidArgument::ZeroWidth);
    }
    if height == 0 {
        return Err(InvalidArgument::ZeroHeight);
    }
    if !zoom_positive {
        return Err(InvalidArgument::NonPositiveZoom);
    }
    if lanes == 0 {
        return Err(InvalidArgument::ZeroLanes);
    }
    assert(width * height <= 0xffff_ffff * 0xffff_ffff) by (nonlinear_arith)
        requires
            width <= 0xffff_ffff,
            height <= 0xffff_ffff,
    ;
    let area: u64 = (width as u64) * (height as u64);
    let samples: u128 = 3 * (area as u128);
    if samples > isize::MAX as u128 {
        return Err(InvalidArgument::FrameTooLarge);
    }
    Ok(())
}

/// The intensity that stands for an iteration count: its position on the
/// ramp.
pub open spec fn shade_of(count: u32) -> u8 {
    (count % RAMP) as u8
}

/// Folds an iteration count onto the ramp.
pub fn intensity(count: u32) -> (shade: u8)
    ensures
        shade == shade_of(count),
{
    (count % RAMP) as u8
}

/// The grey pixel of the given intensity: equal red, green and blue.
pub open spec fn grey(shade: u8) -> (u8, u8, u8) {
    (shade, shade, shade)
}

/// The number of columns in the group that starts at column `x` of a row
/// `width` pixels wide: `lanes`, or what is left of the row where that is
/// less.
pub open spec fn group_width(width: u32, x: u32, lanes: u32) -> u32 {
    if lanes <= width - x {
        lanes
    } else {
        (width - x) as u32
    }
}

/// The width of the group that starts at column `x`: a full group of
/// `lanes` columns, or the narrower group that ends the row.
pub fn lanes_at(width: u32, x: u32, lanes: u32) -> (len: u32)
    requires
        x <= width,
    ensures
        len == group_width(width, x, lanes),
{
    if lanes <= width - x {
        lanes
    } else {
        width - x
    }
}

/// `seed` accepts every pixel offset under `viewport`.
pub open spec fn seeds_everywhere<T, S, Seed: Fn(&Viewport<T>, i64, i64) -> S>(
    seed: Seed,
    viewport: Viewport<T>,
) -> bool {
    forall|dx: i64, dy: i64| #[trigger] call_requires(seed, (&viewport, dx, dy))
}

/// `seed` has one result for each pixel offset under `viewport`.
pub open spec fn seeds_one<T, S, Seed: Fn(&Viewport<T>, i64, i64) -> S>(
    seed: Seed,
    viewport: Viewport<T>,
) -> bool {
    forall|dx: i64, dy: i64, a: S, b: S|
        #![trigger call_ensures(seed, (&viewport, dx, dy), a), call_ensures(seed, (&viewport, dx, dy), b)]
        call_ensures(seed, (&viewport, dx, dy), a) && call_ensures(seed, (&viewport, dx, dy), b)
            ==> a == b
}

/// `start` is an orbit that `seed` gives for the pixel `(x, y)`: the one
/// for the pixel's offsets from the middle of the frame on both axes.
pub open spec fn seeded_at<T, S, Seed: Fn(&Viewport<T>, i64, i64) -> S>(
    viewport: Viewport<T>,
    seed: Seed,
    x: u32,
    y: u32,
    start: S,
) -> bool {
    call_ensures(
        seed,
        (&viewport, pixel_offset(x, viewport.width), pixel_offset(y, viewport.height)),
        start,
    )
}

/// `pixel` is the grey of an escape time of `start`.
pub open spec fn shows<S, Step: Fn(&S) -> (S, bool)>(
    step: Step,
    start: S,
    pixel: (u8, u8, u8),
) -> bool {
    exists|count: u32| #[trigger]
        escapes_after(step, start, count) && pixel == grey(shade_of(count))
}

/// `pixel` is what a render shows at `(x, y)`: the grey of an escape time
/// of an orbit seeded for `(x, y)`.
pub open spec fn pixel_rendered<
    T,
    S,
    Seed: Fn(&Viewport<T>, i64, i64) -> S,
    Step: Fn(&S) -> (S, bool),
>(viewport: Viewport<T>, seed: Seed, step: Step, x: u32, y: u32, pixel: (u8, u8, u8)) -> bool {
    exists|start: S| #[trigger]
        seeded_at(viewport, seed, x, y, start) && shows(step, start, pixel)
}

/// `frame` is a render of `viewport`: it has the viewport's dimensions, and
/// each of its pixels is what a render shows there.
pub open spec fn rendered<
    T,
    S,
    Seed: Fn(&Viewport<T>, i64, i64) -> S,
    Step: Fn(&S) -> (S, bool),
>(viewport: Viewport<T>, seed: Seed, step: Step, frame: FrameView) -> bool {
    &&& frame.width == viewport.width
    &&& frame.height == viewport.height
    &&& frame.pixels.dom() == coordinates(viewport.width, viewport.height)
    &&& forall|x: u32, y: u32|
        x < viewport.width && y < viewport.height ==> #[trigger] pixel_rendered(
            viewport,
            seed,
            step,
            x,
            y,
            frame.pixels[(x, y)],
        )
}

/// A render is determined by the viewport and the two functions: where
/// `seed` and `step` each have one result on each input, two renders of one
/// viewport are equal in dimensions and in every pixel.
pub proof fn lemma_render_determined<
    T,
    S,
    Seed: Fn(&Viewport<T>, i64, i64) -> S,
    Step: Fn(&S) -> (S, bool),
>(viewport: Viewport<T>, seed: Seed, step: Step, first: FrameView, second: FrameView)
    requires
        seeds_one(seed, viewport),
        deterministic(step),
        rendered(viewport, seed, step, first),
        rendered(viewport, seed, step, second),
    ensures
        first == second,
{
    assert forall|at: (u32, u32)| first.pixels.dom().contains(at) implies first.pixels[at]
        == second.pixels[at] by {
        let (x, y) = at;
        assert(pixel_rendered(viewport, seed, step, x, y, first.pixels[(x, y)]));
        assert(pixel_rendered(viewport, seed, step, x, y, second.pixels[(x, y)]));
        let start_a = choose|start: S| #[trigger]
            seeded_at(viewport, seed, x, y, start) && shows(step, start, first.pixels[(x, y)]);
        let start_b = choose|start: S| #[trigger]
            seeded_at(viewport, seed, x, y, start) && shows(step, start, second.pixels[(x, y)]);
        assert(start_a == start_b);
        let count_a = choose|count: u32| #[trigger]
            escapes_after(step, start_a, count) && first.pixels[(x, y)] == grey(shade_of(count));
        let count_b = choose|count: u32| #[trigger]
            escapes_after(step, start_a, count) && second.pixels[(x, y)] == grey(shade_of(count));
        lemma_escape_time_unique(step, start_a, count_a, count_b);
    }
    assert(first.pixels =~= second.pixels);
}

/// Seeds one lane for each of the `len` columns that start at column `x`
/// of row `y`: the columns are mapped lane by lane, the row is shared.
fn seed_group<T, S, Seed>(
    viewport: &Viewport<T>,
    seed: &Seed,
    x: u32,
    y: u32,
    len: u32,
) -> (starts: Vec<S>) where Seed: Fn(&Viewport<T>, i64, i64) -> S
    requires
        y < viewport.height,
        x + len <= viewport.width,
        seeds_everywhere(*seed, *viewport),
    ensures
        starts.len() == len,
        forall|k: int|
            0 <= k < len ==> seeded_at(*viewport, *seed, (x + k) as u32, y, #[trigger] starts[k]),
{
    let offsets = centered_lanes(x, len, viewport.width);
    let dy = centered(y as i64, center_correction(viewport.height));
    let mut starts: Vec<S> = Vec::new();
    let mut k: u32 = 0;
    while k < len
        invariant
            k <= len,
            x + len <= viewport.width,
            starts.len() == k,
            offsets.len() == len,
            dy == pixel_offset(y, viewport.height),
            seeds_everywhere(*seed, *viewport),
            forall|j: int|
                0 <= j < len ==> #[trigger] offsets[j] == pixel_offset(
                    (x + j) as u32,
                    viewport.width,
                ),
            forall|j: int|
                0 <= j < k ==> seeded_at(*viewport, *seed, (x + j) as u32, y, #[trigger] starts[j]),
        decreases len - k,
    {
        let start = seed(viewport, offsets[k as usize], dy);
        starts.push(start);
        k = k + 1;
    }
    starts
}

/// Writes the intensity of each count to its own pixel: lane `k` goes to
/// column `x + k` of row `y`, as a grey, and no other pixel is touched.
fn write_group(frame: &mut FrameBuffer, x: u32, y: u32, counts: &Vec<u32>)
    requires
        y < old(frame)@.height,
        x + counts.len() <= old(frame)@.width,
        old(frame)@.pixels.dom() == coordinates(old(frame)@.width, old(frame)@.height),
    ensures
        final(frame)@.width == old(frame)@.width,
        final(frame)@.height == old(frame)@.height,
        final(frame)@.pixels.dom() == old(frame)@.pixels.dom(),
        forall|at: (u32, u32)|
            !(at.1 == y && x <= at.0 < x + counts.len()) ==> #[trigger] final(frame)@.pixels[at]
                == old(frame)@.pixels[at],
        forall|k: int|
            0 <= k < counts.len() ==> #[trigger] final(frame)@.pixels[((x + k) as u32, y)] == grey(
                shade_of(counts[k]),
            ),
{
    let len = counts.len();
    let mut k: usize = 0;
    while k < len
        invariant
            k <= len,
            len == counts.len(),
            y < frame@.height,
            x + len <= frame@.width,
            frame@.width == old(frame)@.width,
            frame@.height == old(frame)@.height,
            frame@.pixels.dom() == coordinates(frame@.width, frame@.height),
            frame@.pixels.dom() == old(frame)@.pixels.dom(),
            forall|at: (u32, u32)|
                !(at.1 == y && x <= at.0 < x + k) ==> #[trigger] frame@.pixels[at] == old(
                    frame,
                )@.pixels[at],
            forall|j: int|
                0 <= j < k ==> #[trigger] frame@.pixels[((x + j) as u32, y)] == grey(
                    shade_of(counts[j]),
                ),
        decreases len - k,
    {
        let shade = intensity(counts[k]);
        let column = x + k as u32;
        frame_put(frame, column, y, shade, shade, shade);
        assert(frame@.pixels.dom() =~= coordinates(frame@.width, frame@.height));
        k = k + 1;
    }
}

/// Renders the group of `len` columns that starts at column `x` of row
/// `y`: seeds one lane for each column, evaluates the lanes and writes each
/// lane's intensity to its own pixel.
fn render_group<T, S, Seed, Step>(
    frame: &mut FrameBuffer,
    viewport: &Viewport<T>,
    seed: &Seed,
    step: &Step,
    x: u32,
    y: u32,
    len: u32,
) where Seed: Fn(&Viewport<T>, i64, i64) -> S, Step: Fn(&S) -> (S, bool)
    requires
        old(frame)@.width == viewport.width,
        old(frame)@.height == viewport.height,
        old(frame)@.pixels.dom() == coordinates(viewport.width, viewport.height),
        y < viewport.height,
        x + len <= viewport.width,
        seeds_everywhere(*seed, *viewport),
        total(*step),
    ensures
        final(frame)@.width == viewport.width,
        final(frame)@.height == viewport.height,
        final(frame)@.pixels.dom() == coordinates(viewport.width, viewport.height),
        forall|at: (u32, u32)|
            !(at.1 == y && x <= at.0 < x + len) ==> #[trigger] final(frame)@.pixels[at] == old(
                frame,
            )@.pixels[at],
        forall|column: u32|
            x <= column < x + len ==> #[trigger] pixel_rendered(
                *viewport,
                *seed,
                *step,
                column,
                y,
                final(frame)@.pixels[(column, y)],
            ),
{
    let starts = seed_group(viewport, seed, x, y, len);
    let ghost origin = starts@;
    let counts = evaluate(starts, step);
    write_group(frame, x, y, &counts);
    proof {
        assert forall|column: u32| x <= column < x + len implies #[trigger] pixel_rendered(
            *viewport,
            *seed,
            *step,
            column,
            y,
            frame@.pixels[(column, y)],
        ) by {
            let k = column - x;
            assert(column == (x + k) as u32);
            assert(seeded_at(*viewport, *seed, column, y, origin[k]));
            assert(escapes_after(*step, origin[k], counts[k]));
            assert(frame@.pixels[((x + k) as u32, y)] == grey(shade_of(counts[k])));
            assert(shows(*step, origin[k], frame@.pixels[(column, y)]));
        }
    }
}

/// The first `upto` columns of row `y` of `pixels` are what a render shows
/// there.
spec fn row_rendered_upto<
    T,
    S,
    Seed: Fn(&Viewport<T>, i64, i64) -> S,
    Step: Fn(&S) -> (S, bool),
>(
    viewport: Viewport<T>,
    seed: Seed,
    step: Step,
    pixels: Map<(u32, u32), (u8, u8, u8)>,
    y: u32,
    upto: u32,
) -> bool {
    forall|x: u32|
        x < upto ==> #[trigger] pixel_rendered(viewport, seed, step, x, y, pixels[(x, y)])
}

/// Row `y` of `pixels` is what a render shows there.
spec fn row_rendered<
    T,
    S,
    Seed: Fn(&Viewport<T>, i64, i64) -> S,
    Step: Fn(&S) -> (S, bool),
>(
    viewport: Viewport<T>,
    seed: Seed,
    step: Step,
    pixels: Map<(u32, u32), (u8, u8, u8)>,
    y: u32,
) -> bool {
    row_rendered_upto(viewport, seed, step, pixels, y, viewport.width)
}

/// A rendered row stays rendered while its pixels are left alone.
proof fn lemma_row_kept<T, S, Seed: Fn(&Viewport<T>, i64, i64) -> S, Step: Fn(&S) -> (S, bool)>(
    viewport: Viewport<T>,
    seed: Seed,
    step: Step,
    before: Map<(u32, u32), (u8, u8, u8)>,
    after: Map<(u32, u32), (u8, u8, u8)>,
    y: u32,
)
    requires
        row_rendered(viewport, seed, step, before, y),
        forall|at: (u32, u32)| at.1 == y ==> #[trigger] after[at] == before[at],
    ensures
        row_rendered(viewport, seed, step, after, y),
{
    assert forall|x: u32| x < viewport.width implies #[trigger] pixel_rendered(
        viewport,
        seed,
        step,
        x,
        y,
        after[(x, y)],
    ) by {
        assert(after[(x, y)] == before[(x, y)]);
        assert(pixel_rendered(viewport, seed, step, x, y, before[(x, y)]));
    }
}

/// Renders row `y` group by group, from the left: full groups of `lanes`
/// columns, and a narrower group at the end of the row where `lanes` does
/// not divide the width.  No other row is touched.
fn render_row<T, S, Seed, Step>(
    frame: &mut FrameBuffer,
    viewport: &Viewport<T>,
    lanes: u32,
    seed: &Seed,
    step: &Step,
    y: u32,
) where Seed: Fn(&Viewport<T>, i64, i64) -> S, Step: Fn(&S) -> (S, bool)
    requires
        old(frame)@.width == viewport.width,
        old(frame)@.height == viewport.height,
        old(frame)@.pixels.dom() == coordinates(viewport.width, viewport.height),
        y < viewport.height,
        lanes > 0,
        seeds_everywhere(*seed, *viewport),
        total(*step),
    ensures
        final(frame)@.width == viewport.width,
        final(frame)@.height == viewport.height,
        final(frame)@.pixels.dom() == coordinates(viewport.width, viewport.height),
        forall|at: (u32, u32)|
            at.1 != y ==> #[trigger] final(frame)@.pixels[at] == old(frame)@.pixels[at],
        row_rendered(*viewport, *seed, *step, final(frame)@.pixels, y),
{
    let width = viewport.width;
    let mut x: u32 = 0;
    while x < width
        invariant
            x <= width,
            width == viewport.width,
            y < viewport.height,
            lanes > 0,
            seeds_everywhere(*seed, *viewport),
            total(*step),
            frame@.width == viewport.width,
            frame@.height == viewport.height,
            frame@.pixels.dom() == coordinates(viewport.width, viewport.height),
            forall|at: (u32, u32)|
                at.1 != y ==> #[trigger] frame@.pixels[at] == old(frame)@.pixels[at],
            row_rendered_upto(*viewport, *seed, *step, frame@.pixels, y, x),
        decreases width - x,
    {
        let ghost before = frame@.pixels;
        let len = lanes_at(width, x, lanes);
        render_group(frame, viewport, seed, step, x, y, len);
        proof {
            assert forall|column: u32| column < x + len implies #[trigger] pixel_rendered(
                *viewport,
                *seed,
                *step,
                column,
                y,
                frame@.pixels[(column, y)],
            ) by {
                if column < x {
                    assert(frame@.pixels[(column, y)] == before[(column, y)]);
                    assert(pixel_rendered(*viewport, *seed, *step, column, y, before[(column, y)]));
                }
            }
        }
        x = x + len;
    }
}

/// `out` is what a render of `viewport` in groups of `lanes` columns gives
/// when the sign test of the zoom gave `zoom_positive`: the first reason to
/// refuse the arguments, where there is one, and otherwise a render of the
/// viewport.
pub open spec fn render_outcome<
    T,
    S,
    Seed: Fn(&Viewport<T>, i64, i64) -> S,
    Step: Fn(&S) -> (S, bool),
>(
    viewport: Viewport<T>,
    zoom_positive: bool,
    lanes: u32,
    seed: Seed,
    step: Step,
    out: Result<FrameBuffer, InvalidArgument>,
) -> bool {
    match rejection(viewport.width, viewport.height, zoom_positive, lanes) {
        Some(reason) => out == Err::<FrameBuffer, InvalidArgument>(reason),
        None => out is Ok && rendered(viewport, seed, step, out->Ok_0@),
    }
}

/// Two outcomes of a render agree: both are the same refusal, or both are
/// frames that are equal in dimensions and in every pixel.
pub open spec fn same_outcome(
    first: Result<FrameBuffer, InvalidArgument>,
    second: Result<FrameBuffer, InvalidArgument>,
) -> bool {
    match (first, second) {
        (Ok(a), Ok(b)) => a@ == b@,
        (Err(a), Err(b)) => a == b,
        _ => false,
    }
}

/// Rendering is idempotent: where `seed` and `step` each have one result on
/// each input, two renders of one viewport with one lane width have the
/// same outcome.
pub proof fn lemma_render_idempotent<
    T,
    S,
    Seed: Fn(&Viewport<T>, i64, i64) -> S,
    Step: Fn(&S) -> (S, bool),
>(
    viewport: Viewport<T>,
    zoom_positive: bool,
    lanes: u32,
    seed: Seed,
    step: Step,
    first: Result<FrameBuffer, InvalidArgument>,
    second: Result<FrameBuffer, InvalidArgument>,
)
    requires
        seeds_one(seed, viewport),
        deterministic(step),
        render_outcome(viewport, zoom_positive, lanes, seed, step, first),
        render_outcome(viewport, zoom_positive, lanes, seed, step, second),
    ensures
        same_outcome(first, second),
{
    if rejection(viewport.width, viewport.height, zoom_positive, lanes) is None {
        lemma_render_determined(viewport, seed, step, first->Ok_0@, second->Ok_0@);
    }
}

/// The lane width is immaterial: where `seed` and `step` each have one
/// result on each input, a render in groups of `lanes` columns, whether
/// `lanes` divides the width or leaves a narrower group at the end of each
/// row, has the same outcome as the render that takes the columns one by
/// one.
pub proof fn lemma_lane_width_immaterial<
    T,
    S,
    Seed: Fn(&Viewport<T>, i64, i64) -> S,
    Step: Fn(&S) -> (S, bool),
>(
    viewport: Viewport<T>,
    zoom_positive: bool,
    lanes: u32,
    seed: Seed,
    step: Step,
    grouped: Result<FrameBuffer, InvalidArgument>,
    single: Result<FrameBuffer, InvalidArgument>,
)
    requires
        lanes >= 1,
        seeds_one(seed, viewport),
        deterministic(step),
        render_outcome(viewport, zoom_positive, lanes, seed, step, grouped),
        render_outcome(viewport, zoom_positive, 1, seed, step, single),
    ensures
        same_outcome(grouped, single),
{
    if rejection(viewport.width, viewport.height, zoom_positive, lanes) is None {
        lemma_render_determined(viewport, seed, step, grouped->Ok_0@, single->Ok_0@);
    }
}

/// Renders `viewport` in column groups of `lanes` lanes.
///
/// The arithmetic is the caller's: `positive` tests the sign of the zoom,
/// `seed` gives the orbit of a pixel from its offsets from the middle of the
/// frame, and `step` applies the map to an orbit once and reports the escape
/// test.
///
/// The arguments are refused, with the first reason that applies, when the
/// frame has no columns or no rows, when the zoom is not positive, when
/// `lanes` is zero, or when the frame would not fit in memory.  Otherwise the
/// result is a fresh frame of the viewport's dimensions in which every pixel
/// is the grey whose intensity is the position on the ramp of the pixel's
/// escape time, as `iterate` gives it.  The last group of a row is narrower
/// where `lanes` does not divide the width; what a pixel shows does not
/// depend on `lanes`.
pub fn render<T, S, Positive, Seed, Step>(
    viewport: &Viewport<T>,
    lanes: u32,
    positive: &Positive,
    seed: &Seed,
    step: &Step,
) -> (out: Result<FrameBuffer, InvalidArgument>) where
    Positive: Fn(&T) -> bool,
    Seed: Fn(&Viewport<T>, i64, i64) -> S,
    Step: Fn(&S) -> (S, bool),

    requires
        call_requires(*positive, (&viewport.zoom,)),
        seeds_everywhere(*seed, *viewport),
        total(*step),
    ensures
        exists|zoom_positive: bool|
            #![trigger call_ensures(*positive, (&viewport.zoom,), zoom_positive)]
            call_ensures(*positive, (&viewport.zoom,), zoom_positive) && render_outcome(
                *viewport,
                zoom_positive,
                lanes,
                *seed,
                *step,
                out,
            ),
{
    let zoom_positive = positive(&viewport.zoom);
    match check_arguments(viewport.width, viewport.height, zoom_positive, lanes) {
        Err(reason) => {
            return Err(reason);
        },
        Ok(()) => {},
    }
    let width = viewport.width;
    let height = viewport.height;
    let mut frame = frame_blank(width, height);
    assert(frame@.pixels.dom() =~= coordinates(width, height));
    let mut y: u32 = 0;
    while y < height
        invariant
            y <= height,
            lanes > 0,
            width == viewport.width,
            height == viewport.height,
            seeds_everywhere(*seed, *viewport),
            total(*step),
            frame@.width == width,
            frame@.height == height,
            frame@.pixels.dom() == coordinates(width, height),
            forall|row: u32| row < y ==> #[trigger] row_rendered(*viewport, *seed, *step, frame@.pixels, row),
        decreases height - y,
    {
        let ghost before = frame@.pixels;
        render_row(&mut frame, viewport, lanes, seed, step, y);
        proof {
            assert forall|row: u32| row < y + 1 implies #[trigger] row_rendered(
                *viewport,
                *seed,
                *step,
                frame@.pixels,
                row,
            ) by {
                if row < y {
                    assert(row_rendered(*viewport, *seed, *step, before, row));
                    lemma_row_kept(*viewport, *seed, *step, before, frame@.pixels, row);
                }
            }
        }
        y = y + 1;
    }
    proof {
        assert forall|x: u32, y: u32| x < width && y < height implies #[trigger] pixel_rendered(
            *viewport,
            *seed,
            *step,
            x,
            y,
            frame@.pixels[(x, y)],
        ) by {
            assert(row_rendered(*viewport, *seed, *step, frame@.pixels, y));
        }
    }
    Ok(frame)
}

} // verus!
