use vstd::prelude::*;

verus! {

/// Side length of the square SSIM window.
pub const SSIM_WINDOW_SIZE: u32 = 11;

/// Distance from an SSIM window's center to its edge.
pub const SSIM_RADIUS: u32 = 5;

/// Spacing between consecutive SSIM window centers.
pub const SSIM_STRIDE: u32 = 8;

/// SSIM window centers along an axis of `length` pixels: the middle pixel when one window covers
/// the axis; otherwise every eighth position from the first full window, plus the last full
/// window.
pub open spec fn spec_window_centers(length: int) -> Seq<u32> {
    if length <= SSIM_WINDOW_SIZE {
        seq![(length / 2) as u32]
    } else {
        let last = length - 1 - SSIM_RADIUS;
        let count = (last - SSIM_RADIUS) / SSIM_STRIDE as int + 1;
        let strided = Seq::new(count as nat, |k: int| (SSIM_RADIUS + SSIM_STRIDE * k) as u32);
        if (last - SSIM_RADIUS) % SSIM_STRIDE as int == 0 { strided } else { strided.push(last as u32) }
    }
}

/// Centers of the SSIM windows sampled along an axis of `length` pixels.
pub fn window_centers(length: u32) -> (result: Vec<u32>)
    ensures
        result@ == spec_window_centers(length as int),
{
    if length <= SSIM_WINDOW_SIZE {
        let mut single: Vec<u32> = Vec::new();
        single.push(length / 2);
        return single;
    }
    let last = length - 1 - SSIM_RADIUS;
    let ghost count = (last - SSIM_RADIUS) as int / SSIM_STRIDE as int + 1;
    let mut centers: Vec<u32> = Vec::new();
    let mut center: u32 = SSIM_RADIUS;
    while center <= last
        invariant
            SSIM_RADIUS <= center <= last + SSIM_STRIDE,
            last == length - 1 - SSIM_RADIUS,
            (center - SSIM_RADIUS) % SSIM_STRIDE as int == 0,
            centers@.len() == (center - SSIM_RADIUS) / SSIM_STRIDE as int,
            forall|k: int| 0 <= k < centers@.len() ==> #[trigger] centers@[k] == SSIM_RADIUS + SSIM_STRIDE * k,
        decreases last + SSIM_STRIDE - center,
    {
        centers.push(center);
        center = center + SSIM_STRIDE;
    }
    let ghost strided = Seq::new(count as nat, |k: int| (SSIM_RADIUS + SSIM_STRIDE * k) as u32);
    assert(centers@ =~= strided);
    let length_now = centers.len();
    if centers[length_now - 1] != last {
        centers.push(last);
    }
    centers
}

/// The window centers span the axis with full windows: the first window starts at the axis's
/// start, the last ends at its end, consecutive centers are increasing and at most a stride
/// apart, and every window lies on the axis.
pub proof fn lemma_window_centers_cover(length: int)
    requires
        length > SSIM_WINDOW_SIZE,
        length <= u32::MAX,
    ensures
        spec_window_centers(length)[0] == SSIM_RADIUS,
        spec_window_centers(length).last() == length - 1 - SSIM_RADIUS,
        forall|k: int|
            0 <= k < spec_window_centers(length).len() ==> SSIM_RADIUS <= #[trigger] spec_window_centers(length)[k]
                && spec_window_centers(length)[k] + SSIM_RADIUS < length,
        forall|k: int|
            0 < k < spec_window_centers(length).len() ==> spec_window_centers(length)[k - 1] < #[trigger] spec_window_centers(
                length,
            )[k] <= spec_window_centers(length)[k - 1] + SSIM_STRIDE,
{
    let last = length - 1 - SSIM_RADIUS;
    let count = (last - SSIM_RADIUS) / SSIM_STRIDE as int + 1;
    assert(SSIM_STRIDE * (count - 1) <= last - SSIM_RADIUS);
}

/// Position of the Gaussian weight for window offset `(delta_x, delta_y)` in a row-major
/// 11x11 table.
pub fn gaussian_index(delta_x: i32, delta_y: i32) -> (result: usize)
    requires
        -5 <= delta_x <= 5,
        -5 <= delta_y <= 5,
    ensures
        result == (delta_y + 5) * 11 + (delta_x + 5),
        result < 121,
{
    ((delta_y + 5) as usize) * 11 + ((delta_x + 5) as usize)
}

} // verus!
