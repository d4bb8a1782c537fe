//! The integer half of the coordinate mapper.
//!
//! A pixel index is mapped to a coordinate of the plane in two steps: the
//! index is first taken relative to the middle of its axis, so that zooming
//! is centred on the middle of the frame, and the offset so obtained is then
//! scaled and shifted in the caller's arithmetic.  This module holds the
//! first step.

use vstd::prelude::*;

verus! {

/// The correction that centres an axis of `dimension` pixels: half of it,
/// rounded down.
pub open spec fn center_correction_of(dimension: u32) -> int {
    dimension as int / 2
}

/// The offset of `pixel_index` from the middle of an axis of `dimension`
/// pixels.
pub open spec fn pixel_offset(pixel_index: u32, dimension: u32) -> i64 {
    (pixel_index as int - center_correction_of(dimension)) as i64
}

/// The pixel in the middle of an axis has offset zero, whatever the
/// dimension.
pub proof fn lemma_centre_has_no_offset(dimension: u32)
    ensures
        pixel_offset((dimension / 2) as u32, dimension) == 0,
{
}

/// Half of `dimension`, rounded down: the index of the pixel that is mapped
/// to the offset of the viewport.
pub fn center_correction(dimension: u32) -> (correction: i64)
    ensures
        correction == center_correction_of(dimension),
{
    (dimension / 2) as i64
}

/// Takes `pixel_index` relative to `center_correction`.  The centre pixel
/// itself is mapped to zero.
pub fn centered(pixel_index: i64, center_correction: i64) -> (offset: i64)
    requires
        i64::MIN <= pixel_index - center_correction <= i64::MAX,
    ensures
        offset == pixel_index - center_correction,
        pixel_index == center_correction ==> offset == 0,
{
    pixel_index - center_correction
}

/// The same map applied lane by lane to `lanes` consecutive pixel indices
/// that start at `first`.
pub fn centered_lanes(first: u32, lanes: u32, dimension: u32) -> (offsets: Vec<i64>)
    requires
        first + lanes <= u32::MAX,
    ensures
        offsets.len() == lanes,
        forall|k: int|
            0 <= k < lanes ==> #[trigger] offsets[k] == pixel_offset((first + k) as u32, dimension),
{
    let correction = center_correction(dimension);
    let mut offsets: Vec<i64> = Vec::new();
    let mut k: u32 = 0;
    while k < lanes
        invariant
            k <= lanes,
            first + lanes <= u32::MAX,
            correction == center_correction_of(dimension),
            offsets.len() == k,
            forall|j: int|
                0 <= j < k ==> #[trigger] offsets[j] == pixel_offset((first + j) as u32, dimension),
        decreases lanes - k,
    {
        offsets.push(centered((first + k) as i64, correction));
        k = k + 1;
    }
    offsets
}

} // verus!
