use vstd::prelude::*;

use vstd::arithmetic::power2::{pow2, lemma_pow2_unfold, lemma2_to64};

use crate::geometry::{clamp_int, max_int, min_int};
use crate::report::{Bounds, ImageDimensions, Offset};

verus! {

/// Downsampling factor of pyramid level `index`: `2^index`, saturated at `u32::MAX`.
pub fn level_scale(index: usize) -> (result: u32)
    ensures
        result == if index < 32 { pow2(index as nat) as int } else { u32::MAX as int },
{
    if index >= 32 {
        return u32::MAX;
    }
    proof {
        lemma2_to64();
    }
    let mut scale: u32 = 1;
    let mut step: usize = 0;
    while step < index
        invariant
            step <= index < 32,
            scale == pow2(step as nat),
        decreases index - step,
    {
        proof {
            lemma2_to64();
            lemma_pow2_unfold((step + 1) as nat);
            vstd::arithmetic::power2::lemma_pow2_strictly_increases((step + 1) as nat, 32);
        }
        scale = scale * 2;
        step += 1;
    }
    scale
}

pub open spec fn abs_int(value: int) -> int {
    if value < 0 { -value } else { value }
}

/// Manhattan length of an offset.
pub fn offset_magnitude(offset: Offset) -> (result: u64)
    ensures
        result == abs_int(offset.x as int) + abs_int(offset.y as int),
{
    let x: i64 = offset.x as i64;
    let y: i64 = offset.y as i64;
    (if x < 0 { -x } else { x }) as u64 + (if y < 0 { -y } else { y }) as u64
}

/// Manhattan distance between two offsets.
pub fn offset_distance(left: Offset, right: Offset) -> (result: u64)
    ensures
        result == abs_int(left.x - right.x) + abs_int(left.y - right.y),
{
    let x: i64 = left.x as i64 - right.x as i64;
    let y: i64 = left.y as i64 - right.y as i64;
    (if x < 0 { -x } else { x }) as u64 + (if y < 0 { -y } else { y }) as u64
}

/// Offset distance is symmetric and obeys the triangle inequality.
pub proof fn lemma_offset_distance_metric(a: Offset, b: Offset, c: Offset)
    ensures
        abs_int(a.x - b.x) + abs_int(a.y - b.y) == abs_int(b.x - a.x) + abs_int(b.y - a.y),
        abs_int(a.x - c.x) + abs_int(a.y - c.y) <= abs_int(a.x - b.x) + abs_int(a.y - b.y) + abs_int(b.x - c.x)
            + abs_int(b.y - c.y),
        (abs_int(a.x - b.x) + abs_int(a.y - b.y) == 0) == (a == b),
{
}

/// Per-axis search limits: the requested limit, bounded by the larger canvas extent minus one,
/// saturated at `i32::MAX`.
pub fn offset_limits(expected: ImageDimensions, actual: ImageDimensions, requested: u32) -> (result: (i32, i32))
    ensures
        result.0 == clamp_int(min_int(requested as int, max_int(max_int(expected.width as int, actual.width as int) - 1, 0)), 0, i32::MAX as int),
        result.1 == clamp_int(min_int(requested as int, max_int(max_int(expected.height as int, actual.height as int) - 1, 0)), 0, i32::MAX as int),
{
    let widest = if expected.width >= actual.width { expected.width } else { actual.width };
    let tallest = if expected.height >= actual.height { expected.height } else { actual.height };
    let x_extent = widest.saturating_sub(1);
    let y_extent = tallest.saturating_sub(1);
    let x = if requested <= x_extent { requested } else { x_extent };
    let y = if requested <= y_extent { requested } else { y_extent };
    (
        if x > i32::MAX as u32 { i32::MAX } else { x as i32 },
        if y > i32::MAX as u32 { i32::MAX } else { y as i32 },
    )
}

/// Expected-space rectangle whose pixels, displaced by `offset`, land on the actual canvas.
pub open spec fn spec_overlap_bounds(expected: ImageDimensions, actual: ImageDimensions, offset: Offset) -> Option<Bounds> {
    let left = max_int(-offset.x, 0);
    let top = max_int(-offset.y, 0);
    let right = min_int(expected.width as int, actual.width - offset.x);
    let bottom = min_int(expected.height as int, actual.height - offset.y);
    if right <= left || bottom <= top {
        None
    } else {
        Some(Bounds { x: left as u32, y: top as u32, width: (right - left) as u32, height: (bottom - top) as u32 })
    }
}

/// The expected-space overlap of two canvases under `offset`, or `None` when they do not
/// overlap.
pub fn overlap_bounds(expected: ImageDimensions, actual: ImageDimensions, offset: Offset) -> (result: Option<Bounds>)
    ensures
        result == spec_overlap_bounds(expected, actual, offset),
{
    let negated_x: i64 = -(offset.x as i64);
    let negated_y: i64 = -(offset.y as i64);
    let left: i64 = if negated_x > 0 { negated_x } else { 0 };
    let top: i64 = if negated_y > 0 { negated_y } else { 0 };
    let actual_right: i64 = actual.width as i64 - offset.x as i64;
    let actual_bottom: i64 = actual.height as i64 - offset.y as i64;
    let right: i64 = if (expected.width as i64) <= actual_right { expected.width as i64 } else { actual_right };
    let bottom: i64 = if (expected.height as i64) <= actual_bottom { expected.height as i64 } else { actual_bottom };
    if right <= left || bottom <= top {
        return None;
    }
    Some(Bounds { x: left as u32, y: top as u32, width: (right - left) as u32, height: (bottom - top) as u32 })
}

/// Every pixel of the overlap rectangle maps onto the actual canvas, and every expected pixel
/// that maps onto the actual canvas lies in it.
pub proof fn lemma_overlap_bounds_exact(expected: ImageDimensions, actual: ImageDimensions, offset: Offset, p: (int, int))
    ensures
        (0 <= p.0 < expected.width && 0 <= p.1 < expected.height && 0 <= p.0 + offset.x < actual.width && 0
            <= p.1 + offset.y < actual.height) <==> match spec_overlap_bounds(expected, actual, offset) {
            Some(b) => b.contains_point(p),
            None => false,
        },
{
}

} // verus!
