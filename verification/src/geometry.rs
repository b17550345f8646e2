use vstd::prelude::*;

use crate::report::{Bounds, Offset};

verus! {

/// Saturates a non-negative integer at `u32::MAX`.
pub open spec fn saturate(value: int) -> int {
    if value > u32::MAX { u32::MAX as int } else { value }
}

/// `value` clamped to `[low, high]` (`low <= high`).
pub open spec fn clamp_int(value: int, low: int, high: int) -> int {
    if value < low { low } else if value > high { high } else { value }
}

pub open spec fn min_int(a: int, b: int) -> int {
    if a <= b { a } else { b }
}

pub open spec fn max_int(a: int, b: int) -> int {
    if a >= b { a } else { b }
}

impl Bounds {
    /// The exclusive right edge as a mathematical integer.
    pub open spec fn spec_right(self) -> int {
        self.x + self.width
    }

    /// The exclusive bottom edge as a mathematical integer.
    pub open spec fn spec_bottom(self) -> int {
        self.y + self.height
    }

    /// Point `p` lies inside the half-open rectangle.
    pub open spec fn contains_point(self, p: (int, int)) -> bool {
        self.x <= p.0 < self.spec_right() && self.y <= p.1 < self.spec_bottom()
    }

    /// The rectangle's edges fit the `u32` coordinate domain.
    pub open spec fn fits(self) -> bool {
        self.spec_right() <= u32::MAX && self.spec_bottom() <= u32::MAX
    }

    /// The intersection computed with saturated edges.
    pub open spec fn spec_intersection(self, other: Bounds) -> Option<Bounds> {
        let x = max_int(self.x as int, other.x as int);
        let y = max_int(self.y as int, other.y as int);
        let right = min_int(saturate(self.spec_right()), saturate(other.spec_right()));
        let bottom = min_int(saturate(self.spec_bottom()), saturate(other.spec_bottom()));
        if right > x && bottom > y {
            Some(Bounds { x: x as u32, y: y as u32, width: (right - x) as u32, height: (bottom - y) as u32 })
        } else {
            None
        }
    }

    /// Returns the exclusive right edge, saturated at `u32::MAX` for bounds that do not fit the
    /// coordinate domain.
    pub fn right(self) -> (result: u32)
        ensures
            result == saturate(self.spec_right()),
    {
        self.x.saturating_add(self.width)
    }

    /// Returns the exclusive bottom edge, saturated at `u32::MAX` for bounds that do not fit the
    /// coordinate domain.
    pub fn bottom(self) -> (result: u32)
        ensures
            result == saturate(self.spec_bottom()),
    {
        self.y.saturating_add(self.height)
    }

    /// Returns the rectangle area in pixels.
    pub fn area(self) -> (result: u64)
        ensures
            result == self.width * self.height,
    {
        proof {
            crate::mask::lemma_u32_product_fits(self.width, self.height);
        }
        (self.width as u64) * (self.height as u64)
    }

    /// Returns the intersection of two half-open rectangles, or `None` when they share no pixel.
    pub fn intersection(self, other: Self) -> (result: Option<Self>)
        ensures
            result == self.spec_intersection(other),
    {
        let x = if self.x >= other.x { self.x } else { other.x };
        let y = if self.y >= other.y { self.y } else { other.y };
        let self_right = self.right();
        let other_right = other.right();
        let self_bottom = self.bottom();
        let other_bottom = other.bottom();
        let right = if self_right <= other_right { self_right } else { other_right };
        let bottom = if self_bottom <= other_bottom { self_bottom } else { other_bottom };
        if right > x && bottom > y {
            Some(Bounds { x, y, width: right - x, height: bottom - y })
        } else {
            None
        }
    }

    /// The translated rectangle clipped to a `canvas_width` by `canvas_height` canvas.
    pub open spec fn spec_translated_clipped(self, offset: Offset, canvas_width: u32, canvas_height: u32) -> Option<Bounds> {
        let left = self.x + offset.x;
        let top = self.y + offset.y;
        let right = left + self.width;
        let bottom = top + self.height;
        let clipped_left = clamp_int(left, 0, canvas_width as int);
        let clipped_top = clamp_int(top, 0, canvas_height as int);
        let clipped_right = clamp_int(right, 0, canvas_width as int);
        let clipped_bottom = clamp_int(bottom, 0, canvas_height as int);
        if clipped_right > clipped_left && clipped_bottom > clipped_top {
            Some(Bounds {
                x: clipped_left as u32,
                y: clipped_top as u32,
                width: (clipped_right - clipped_left) as u32,
                height: (clipped_bottom - clipped_top) as u32,
            })
        } else {
            None
        }
    }

    /// Translates the bounds by `offset` and clips them to a canvas; `None` when nothing of the
    /// translated rectangle lies on the canvas.
    pub fn translated_clipped(self, offset: Offset, canvas_width: u32, canvas_height: u32) -> (result: Option<Self>)
        ensures
            result == self.spec_translated_clipped(offset, canvas_width, canvas_height),
    {
        let left: i64 = self.x as i64 + offset.x as i64;
        let top: i64 = self.y as i64 + offset.y as i64;
        let right: i64 = left + self.width as i64;
        let bottom: i64 = top + self.height as i64;
        let clipped_left = clamp_i64(left, 0, canvas_width as i64);
        let clipped_top = clamp_i64(top, 0, canvas_height as i64);
        let clipped_right = clamp_i64(right, 0, canvas_width as i64);
        let clipped_bottom = clamp_i64(bottom, 0, canvas_height as i64);
        if clipped_right > clipped_left && clipped_bottom > clipped_top {
            Some(Bounds {
                x: clamped_u32(clipped_left),
                y: clamped_u32(clipped_top),
                width: clamped_u32(clipped_right - clipped_left),
                height: clamped_u32(clipped_bottom - clipped_top),
            })
        } else {
            None
        }
    }

    /// Returns an integer center suitable for annotation placement, saturated at `u32::MAX`.
    pub fn center(self) -> (result: (u32, u32))
        ensures
            result == (saturate(self.x + self.width / 2) as u32, saturate(self.y + self.height / 2) as u32),
    {
        let center_x: u64 = self.x as u64 + (self.width / 2) as u64;
        let center_y: u64 = self.y as u64 + (self.height / 2) as u64;
        (
            if center_x > u32::MAX as u64 { u32::MAX } else { center_x as u32 },
            if center_y > u32::MAX as u64 { u32::MAX } else { center_y as u32 },
        )
    }
}

/// `value` clamped to `[low, high]`.
pub fn clamp_i64(value: i64, low: i64, high: i64) -> (result: i64)
    requires
        low <= high,
    ensures
        result == clamp_int(value as int, low as int, high as int),
{
    if value < low {
        low
    } else if value > high {
        high
    } else {
        value
    }
}

/// Converts to `u32`, saturating at `0` and `u32::MAX`.
pub fn clamped_u32(value: i64) -> (result: u32)
    ensures
        result == clamp_int(value as int, 0, u32::MAX as int),
{
    if value < 0 {
        0
    } else if value > u32::MAX as i64 {
        u32::MAX
    } else {
        value as u32
    }
}


/// The two rectangles are within `gap` pixels of each other on both axes (edges saturated).
pub open spec fn spec_nearby(left: Bounds, right: Bounds, gap: u32) -> bool {
    &&& left.x <= saturate(saturate(right.spec_right()) + gap)
    &&& right.x <= saturate(saturate(left.spec_right()) + gap)
    &&& left.y <= saturate(saturate(right.spec_bottom()) + gap)
    &&& right.y <= saturate(saturate(left.spec_bottom()) + gap)
}

/// Whether two rectangles lie within `gap` pixels of each other on both axes.
pub fn nearby(left: Bounds, right: Bounds, gap: u32) -> (result: bool)
    ensures
        result == spec_nearby(left, right, gap),
{
    left.x <= right.right().saturating_add(gap) && right.x <= left.right().saturating_add(gap)
        && left.y <= right.bottom().saturating_add(gap) && right.y <= left.bottom().saturating_add(gap)
}

/// The vertical extents of two rectangles overlap (edges saturated).
pub open spec fn spec_vertical_overlap(left: Bounds, right: Bounds) -> bool {
    left.y < saturate(right.spec_bottom()) && right.y < saturate(left.spec_bottom())
}

/// Whether the vertical extents of two rectangles overlap.
pub fn vertical_overlap(left: Bounds, right: Bounds) -> (result: bool)
    ensures
        result == spec_vertical_overlap(left, right),
{
    left.y < right.bottom() && right.y < left.bottom()
}

/// Horizontal distance between two rectangles (edges saturated), zero when their horizontal
/// extents touch or overlap.
pub open spec fn spec_horizontal_gap(left: Bounds, right: Bounds) -> int {
    if saturate(left.spec_right()) < right.x {
        right.x - saturate(left.spec_right())
    } else if saturate(right.spec_right()) < left.x {
        left.x - saturate(right.spec_right())
    } else {
        0
    }
}

/// Horizontal distance between two rectangles, zero when their horizontal extents touch or
/// overlap.
pub fn horizontal_gap(left: Bounds, right: Bounds) -> (result: u32)
    ensures
        result == spec_horizontal_gap(left, right),
{
    let left_right = left.right();
    let right_right = right.right();
    if left_right < right.x {
        right.x - left_right
    } else if right_right < left.x {
        left.x - right_right
    } else {
        0
    }
}

/// The rectangle grown by `padding` on every side and clipped to `[0, width) x [0, height)`.
pub open spec fn spec_padded(bounds: Bounds, padding: u32, width: u32, height: u32) -> Bounds {
    let x = if bounds.x >= padding { bounds.x - padding } else { 0 };
    let y = if bounds.y >= padding { bounds.y - padding } else { 0 };
    Bounds {
        x: x as u32,
        y: y as u32,
        width: (min_int(saturate(saturate(bounds.spec_right()) + padding), width as int) - x) as u32,
        height: (min_int(saturate(saturate(bounds.spec_bottom()) + padding), height as int) - y) as u32,
    }
}

/// Grown by `padding`, the rectangle's top-left corner still lies on a `width` by `height`
/// canvas.
pub open spec fn padding_fits(bounds: Bounds, padding: u32, width: u32, height: u32) -> bool {
    bounds.x - padding <= width && bounds.y - padding <= height
}

/// Grows a rectangle by `padding` on every side, clipped to a canvas.
pub fn padded(bounds: Bounds, padding: u32, width: u32, height: u32) -> (result: Bounds)
    requires
        padding_fits(bounds, padding, width, height),
    ensures
        result == spec_padded(bounds, padding, width, height),
{
    let x = bounds.x.saturating_sub(padding);
    let y = bounds.y.saturating_sub(padding);
    let grown_right = bounds.right().saturating_add(padding);
    let grown_bottom = bounds.bottom().saturating_add(padding);
    let right = if grown_right <= width { grown_right } else { width };
    let bottom = if grown_bottom <= height { grown_bottom } else { height };
    Bounds { x, y, width: right - x, height: bottom - y }
}

/// The smallest rectangle covering both rectangles (edges saturated).
pub open spec fn spec_union(left: Bounds, right: Bounds) -> Bounds {
    let x = min_int(left.x as int, right.x as int);
    let y = min_int(left.y as int, right.y as int);
    Bounds {
        x: x as u32,
        y: y as u32,
        width: (max_int(saturate(left.spec_right()), saturate(right.spec_right())) - x) as u32,
        height: (max_int(saturate(left.spec_bottom()), saturate(right.spec_bottom())) - y) as u32,
    }
}

/// Returns the smallest rectangle covering both rectangles.
pub fn union(left: Bounds, right: Bounds) -> (result: Bounds)
    ensures
        result == spec_union(left, right),
{
    let x = if left.x <= right.x { left.x } else { right.x };
    let y = if left.y <= right.y { left.y } else { right.y };
    let left_right = left.right();
    let right_right = right.right();
    let left_bottom = left.bottom();
    let right_bottom = right.bottom();
    let edge = if left_right >= right_right { left_right } else { right_right };
    let floor = if left_bottom >= right_bottom { left_bottom } else { right_bottom };
    Bounds { x, y, width: edge - x, height: floor - y }
}

/// Left fold of `spec_union` over the first `n` rectangles.
pub open spec fn spec_union_all(bounds: Seq<Bounds>, n: int) -> Bounds
    decreases n,
{
    if n <= 1 {
        bounds[0]
    } else {
        spec_union(spec_union_all(bounds, n - 1), bounds[n - 1])
    }
}

/// The smallest rectangle covering every rectangle, or `None` for an empty list.
pub fn union_bounds(bounds: &[Bounds]) -> (result: Option<Bounds>)
    ensures
        bounds@.len() == 0 ==> result is None,
        bounds@.len() > 0 ==> result == Some(spec_union_all(bounds@, bounds@.len() as int)),
{
    if bounds.len() == 0 {
        return None;
    }
    let mut combined = bounds[0];
    let mut index: usize = 1;
    while index < bounds.len()
        invariant
            1 <= index <= bounds@.len(),
            combined == spec_union_all(bounds@, index as int),
        decreases bounds@.len() - index,
    {
        combined = union(combined, bounds[index]);
        index += 1;
    }
    Some(combined)
}

/// `inner` lies within `outer` (edges saturated).
pub open spec fn spec_contains(outer: Bounds, inner: Bounds) -> bool {
    &&& inner.x >= outer.x
    &&& inner.y >= outer.y
    &&& saturate(inner.spec_right()) <= saturate(outer.spec_right())
    &&& saturate(inner.spec_bottom()) <= saturate(outer.spec_bottom())
}

/// Whether `inner` lies within `outer`.
pub fn contains(outer: Bounds, inner: Bounds) -> (result: bool)
    ensures
        result == spec_contains(outer, inner),
{
    inner.x >= outer.x && inner.y >= outer.y && inner.right() <= outer.right() && inner.bottom() <= outer.bottom()
}

/// The positive-area rectangle `(x, y, width, height)`, or `None` when it is empty.
pub fn nonzero_bounds(x: u32, y: u32, width: u32, height: u32) -> (result: Option<Bounds>)
    ensures
        result == if width > 0 && height > 0 { Some(Bounds { x, y, width, height }) } else { None },
{
    if width > 0 && height > 0 {
        Some(Bounds { x, y, width, height })
    } else {
        None
    }
}

/// Translates a rectangle without a canvas limit, keeping it unchanged when the shift
/// leaves nothing at non-negative coordinates.
pub fn translated(bounds: Bounds, offset: Offset) -> (result: Bounds)
    ensures
        result == match bounds.spec_translated_clipped(offset, u32::MAX, u32::MAX) {
            Some(moved) => moved,
            None => bounds,
        },
{
    match bounds.translated_clipped(offset, u32::MAX, u32::MAX) {
        Some(moved) => moved,
        None => bounds,
    }
}


/// Intersection does not depend on the order of its arguments.
pub proof fn lemma_intersection_commutative(a: Bounds, b: Bounds)
    ensures
        a.spec_intersection(b) == b.spec_intersection(a),
{
}

/// For rectangles inside the coordinate domain, the intersection holds exactly the points the
/// two rectangles share, and is absent exactly when they share none (half-open edges).
pub proof fn lemma_intersection_points(a: Bounds, b: Bounds, p: (int, int))
    requires
        a.fits(),
        b.fits(),
    ensures
        match a.spec_intersection(b) {
            Some(r) => r.contains_point(p) <==> (a.contains_point(p) && b.contains_point(p)),
            None => !(a.contains_point(p) && b.contains_point(p)),
        },
{
}

/// Translating and clipping keeps exactly the translated points that land on the canvas.
pub proof fn lemma_translated_clipped_points(
    b: Bounds,
    offset: Offset,
    canvas_width: u32,
    canvas_height: u32,
    p: (int, int),
)
    ensures
        match b.spec_translated_clipped(offset, canvas_width, canvas_height) {
            Some(r) => r.contains_point(p) <==> (0 <= p.0 < canvas_width && 0 <= p.1 < canvas_height
                && b.contains_point((p.0 - offset.x, p.1 - offset.y))),
            None => !(0 <= p.0 < canvas_width && 0 <= p.1 < canvas_height && b.contains_point(
                (p.0 - offset.x, p.1 - offset.y),
            )),
        },
{
}

/// The union of two rectangles inside the coordinate domain covers both of them, and every
/// point it covers lies within the extremes of the two rectangles.
pub proof fn lemma_union_covers(a: Bounds, b: Bounds, p: (int, int))
    requires
        a.fits(),
        b.fits(),
    ensures
        spec_contains(spec_union(a, b), a),
        spec_contains(spec_union(a, b), b),
        a.contains_point(p) || b.contains_point(p) ==> spec_union(a, b).contains_point(p),
        spec_union(a, b).fits(),
{
}

/// Padding a rectangle that lies on its canvas covers the rectangle and stays on the canvas.
pub proof fn lemma_padded_covers(bounds: Bounds, padding: u32, width: u32, height: u32)
    requires
        bounds.fits(),
        bounds.spec_right() <= width,
        bounds.spec_bottom() <= height,
    ensures
        spec_contains(spec_padded(bounds, padding, width, height), bounds),
        spec_padded(bounds, padding, width, height).spec_right() <= width,
        spec_padded(bounds, padding, width, height).spec_bottom() <= height,
{
}

} // verus!
