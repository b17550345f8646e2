use vstd::prelude::*;

use crate::geometry::{clamp_i64, clamp_int, contains, nonzero_bounds, padded, padding_fits, spec_contains, spec_padded};
use crate::mapping::MovementMapping;
use crate::mask::{Component, Mask, MaskModel, lemma_index_in_grid, lemma_index_injective, lemma_point_of_index};
use crate::report::{Bounds, ImageDimensions, Offset, SizeError, SuppressionSummary, suppression_message};
use crate::geometry::saturate;

verus! {

/// Width of the border halo around a movement of `area` pixels: the smallest `k` with
/// `16384 * k * k >= area` (that is, `ceil(sqrt(area) / 128)`), clamped to `1..=8`.
pub open spec fn spec_suppression_radius(area: int) -> int {
    if area <= 16384 {
        1
    } else if area <= 4 * 16384 {
        2
    } else if area <= 9 * 16384 {
        3
    } else if area <= 16 * 16384 {
        4
    } else if area <= 25 * 16384 {
        5
    } else if area <= 36 * 16384 {
        6
    } else if area <= 49 * 16384 {
        7
    } else {
        8
    }
}

/// Halo width used when deciding whether a residual borders a movement of the given bounds:
/// `ceil(sqrt(width * height) / 128)` clamped to `1..=8`.
pub fn suppression_radius(bounds: Bounds) -> (result: u32)
    ensures
        result == spec_suppression_radius(bounds.width * bounds.height),
        1 <= result <= 8,
        result == 8 || 16384 * result * result >= bounds.width * bounds.height,
        result == 1 || 16384 * (result - 1) * (result - 1) < bounds.width * bounds.height,
{
    let area = bounds.area();
    let mut k: u64 = 1;
    loop
        invariant
            1 <= k <= 8,
            area == bounds.width * bounds.height,
            k == 1 || 16384 * (k - 1) * (k - 1) < area,
            forall|j: int| 1 <= j < k ==> #[trigger] (16384 * j * j) < area,
        ensures
            1 <= k <= 8,
            k == 8 || 16384 * k * k >= area,
            forall|j: int| 1 <= j < k ==> #[trigger] (16384 * j * j) < area,
        decreases 8 - k,
    {
        if k >= 8 {
            break;
        }
        assert(16384 * k * k <= 16384 * 8 * 8) by (nonlinear_arith)
            requires 1 <= k <= 8;
        let threshold: u64 = 16384 * k * k;
        if threshold >= area {
            break;
        }
        k += 1;
    }
    assert(k == spec_suppression_radius(area as int)) by {
        assert(forall|j: int| 1 <= j < k ==> #[trigger] (16384 * j * j) < area);
        if k >= 2 { assert(16384 * 1 * 1 < area); }
        if k >= 3 { assert(16384 * 2 * 2 < area); }
        if k >= 4 { assert(16384 * 3 * 3 < area); }
        if k >= 5 { assert(16384 * 4 * 4 < area); }
        if k >= 6 { assert(16384 * 5 * 5 < area); }
        if k >= 7 { assert(16384 * 6 * 6 < area); }
        if k >= 8 { assert(16384 * 7 * 7 < area); }
    }
    k as u32
}

/// Largest residual area suppressed beside a movement: `area / 512` clamped to `16..=1024`.
pub fn suppression_area(bounds: Bounds) -> (result: u32)
    ensures
        result == clamp_int(bounds.width * bounds.height / 512, 16, 1024),
{
    let limit = bounds.area() / 512;
    let clamped = if limit < 16 { 16 } else if limit > 1024 { 1024 } else { limit };
    clamped as u32
}

/// `component` lies in the halo of `movement` without touching the movement itself.
pub open spec fn spec_borders(component: Bounds, movement: Bounds, radius: u32, width: u32, height: u32) -> bool {
    movement.spec_intersection(component) is None && spec_contains(spec_padded(movement, radius, width, height), component)
}

/// Whether `component` lies in the `radius` halo of `movement` without touching the movement.
pub fn borders(component: Bounds, movement: Bounds, radius: u32, width: u32, height: u32) -> (result: bool)
    requires
        padding_fits(movement, radius, width, height),
    ensures
        result == spec_borders(component, movement, radius, width, height),
{
    movement.intersection(component).is_none() && contains(padded(movement, radius, width, height), component)
}

/// The reverse of a displacement, with `i32::MIN` saturating to `i32::MAX`.
pub open spec fn spec_reversed(offset: Offset) -> Offset {
    Offset {
        x: if offset.x == i32::MIN { i32::MAX } else { -offset.x as i32 },
        y: if offset.y == i32::MIN { i32::MAX } else { -offset.y as i32 },
    }
}

/// The displacement that undoes `offset` (saturating).
pub fn reversed(offset: Offset) -> (result: Offset)
    ensures
        result == spec_reversed(offset),
{
    Offset {
        x: if offset.x == i32::MIN { i32::MAX } else { -offset.x },
        y: if offset.y == i32::MIN { i32::MAX } else { -offset.y },
    }
}

/// The halo width around a movement of the given bounds.
pub open spec fn movement_radius(bounds: Bounds) -> u32 {
    spec_suppression_radius(bounds.width * bounds.height) as u32
}

/// The largest residual area suppressed beside a movement of the given bounds.
pub open spec fn movement_area_limit(bounds: Bounds) -> int {
    clamp_int(bounds.width * bounds.height / 512, 16, 1024)
}

/// A residual component lies in the halo of a movement, on either side of the comparison: an
/// expected component borders the movement's source or its destination mapped back through the
/// global alignment; an actual component borders the destination or the source mapped forward.
#[verifier::opaque]
pub open spec fn spec_component_borders_movement(
    component: Bounds,
    component_is_expected: bool,
    movement: MovementMapping,
    alignment: Offset,
    expected: ImageDimensions,
    actual: ImageDimensions,
) -> bool {
    let radius = movement_radius(movement.bounds);
    let destination = movement.bounds.spec_translated_clipped(movement.offset, actual.width, actual.height);
    if component_is_expected {
        ||| spec_borders(component, movement.bounds, radius, expected.width, expected.height)
        ||| (destination matches Some(d) && d.spec_translated_clipped(
            spec_reversed(alignment),
            expected.width,
            expected.height,
        ) matches Some(back) && spec_borders(component, back, radius, expected.width, expected.height))
    } else {
        ||| (destination matches Some(d) && spec_borders(component, d, radius, actual.width, actual.height))
        ||| (movement.bounds.spec_translated_clipped(alignment, actual.width, actual.height) matches Some(
            forward,
        ) && spec_borders(component, forward, radius, actual.width, actual.height))
    }
}

/// Whether a residual component lies in the halo of a validated movement.
pub fn component_borders_movement(
    component: Bounds,
    component_is_expected: bool,
    movement: MovementMapping,
    alignment: Offset,
    expected: ImageDimensions,
    actual: ImageDimensions,
) -> (result: bool)
    requires
        component_is_expected ==> padding_fits(
            movement.bounds,
            movement_radius(movement.bounds),
            expected.width,
            expected.height,
        ),
    ensures
        result == spec_component_borders_movement(component, component_is_expected, movement, alignment, expected, actual),
{
    reveal(spec_component_borders_movement);
    let radius = suppression_radius(movement.bounds);
    let destination = movement.bounds.translated_clipped(movement.offset, actual.width, actual.height);
    let reverse_alignment = reversed(alignment);
    if component_is_expected {
        if borders(component, movement.bounds, radius, expected.width, expected.height) {
            return true;
        }
        match destination {
            Some(d) => match d.translated_clipped(reverse_alignment, expected.width, expected.height) {
                Some(back) => borders(component, back, radius, expected.width, expected.height),
                None => false,
            },
            None => false,
        }
    } else {
        let near_destination = match destination {
            Some(d) => borders(component, d, radius, actual.width, actual.height),
            None => false,
        };
        if near_destination {
            return true;
        }
        match movement.bounds.translated_clipped(alignment, actual.width, actual.height) {
            Some(forward) => borders(component, forward, radius, actual.width, actual.height),
            None => false,
        }
    }
}

/// Every movement's halo can be drawn on the expected canvas.
pub open spec fn movements_fit(movements: Seq<MovementMapping>, expected: ImageDimensions) -> bool {
    forall|i: int|
        0 <= i < movements.len() ==> padding_fits(
            (#[trigger] movements[i]).bounds,
            movement_radius(movements[i].bounds),
            expected.width,
            expected.height,
        )
}

/// Movement `i` has the component in its halo.
pub open spec fn bordering(
    component: Bounds,
    component_is_expected: bool,
    movements: Seq<MovementMapping>,
    alignment: Offset,
    expected: ImageDimensions,
    actual: ImageDimensions,
    i: int,
) -> bool {
    spec_component_borders_movement(component, component_is_expected, movements[i], alignment, expected, actual)
}

/// A residual component is deferred: exactly one movement has it in its halo, and it is no
/// larger than that movement's area limit.
pub open spec fn spec_movement_border_suppression(
    component: Component,
    component_is_expected: bool,
    movements: Seq<MovementMapping>,
    alignment: Offset,
    expected: ImageDimensions,
    actual: ImageDimensions,
) -> bool {
    exists|i: int|
        0 <= i < movements.len() && #[trigger] bordering(
            component.bounds,
            component_is_expected,
            movements,
            alignment,
            expected,
            actual,
            i,
        ) && (forall|j: int|
            0 <= j < movements.len() && j != i ==> !#[trigger] bordering(
                component.bounds,
                component_is_expected,
                movements,
                alignment,
                expected,
                actual,
                j,
            )) && component.area <= movement_area_limit(movements[i].bounds)
}

/// Whether a residual component is a small fringe of exactly one validated movement and should
/// be deferred rather than reported.
pub fn movement_border_suppression(
    component: &Component,
    component_is_expected: bool,
    movements: &[MovementMapping],
    alignment: Offset,
    expected: ImageDimensions,
    actual: ImageDimensions,
) -> (result: bool)
    requires
        component_is_expected ==> movements_fit(movements@, expected),
    ensures
        result == spec_movement_border_suppression(
            *component,
            component_is_expected,
            movements@,
            alignment,
            expected,
            actual,
        ),
{
    let ghost c = component.bounds;
    let mut matched: Option<usize> = None;
    let mut index: usize = 0;
    while index < movements.len()
        invariant
            index <= movements@.len(),
            c == component.bounds,
            component_is_expected ==> movements_fit(movements@, expected),
            match matched {
                None => forall|j: int|
                    0 <= j < index ==> !#[trigger] bordering(c, component_is_expected, movements@, alignment, expected, actual, j),
                Some(k) => k < index && bordering(c, component_is_expected, movements@, alignment, expected, actual, k as int)
                    && forall|j: int|
                    0 <= j < index && j != k ==> !#[trigger] bordering(
                        c,
                        component_is_expected,
                        movements@,
                        alignment,
                        expected,
                        actual,
                        j,
                    ),
            },
        decreases movements@.len() - index,
    {
        proof {
            if component_is_expected {
                assert(padding_fits(
                    movements@[index as int].bounds,
                    movement_radius(movements@[index as int].bounds),
                    expected.width,
                    expected.height,
                ));
            }
        }
        let movement = movements[index];
        let touches = component_borders_movement(
            component.bounds,
            component_is_expected,
            movement,
            alignment,
            expected,
            actual,
        );
        assert(movement == movements@[index as int]);
        assert(touches == bordering(c, component_is_expected, movements@, alignment, expected, actual, index as int));
        if touches {
            if matched.is_some() {
                proof {
                    let k = matched.unwrap();
                    assert forall|i: int|
                        0 <= i < movements@.len() && #[trigger] bordering(
                            c,
                            component_is_expected,
                            movements@,
                            alignment,
                            expected,
                            actual,
                            i,
                        ) implies !((forall|j: int|
                        0 <= j < movements@.len() && j != i ==> !#[trigger] bordering(
                            c,
                            component_is_expected,
                            movements@,
                            alignment,
                            expected,
                            actual,
                            j,
                        )) && component.area <= movement_area_limit(movements@[i].bounds)) by {
                        if i != k as int {
                            assert(bordering(c, component_is_expected, movements@, alignment, expected, actual, k as int));
                        } else {
                            assert(bordering(c, component_is_expected, movements@, alignment, expected, actual, index as int));
                        }
                    }
                }
                return false;
            }
            matched = Some(index);
        }
        index += 1;
    }
    match matched {
        None => false,
        Some(k) => {
            let limit = suppression_area(movements[k].bounds);
            proof {
                if component.area <= limit {
                    assert(bordering(c, component_is_expected, movements@, alignment, expected, actual, k as int));
                } else {
                    assert forall|i: int|
                        0 <= i < movements@.len() && #[trigger] bordering(
                            c,
                            component_is_expected,
                            movements@,
                            alignment,
                            expected,
                            actual,
                            i,
                        ) implies !(component.area <= movement_area_limit(movements@[i].bounds)) by {
                    }
                }
            }
            component.area <= limit
        },
    }
}

/// Cells of `m` with the points of `[x0, x1) x [y0, y)` and of `[x0, x) x {y}` cleared.
pub open spec fn partially_cleared(m: MaskModel, x0: int, x1: int, y0: int, y: int, x: int) -> Seq<bool> {
    Seq::new(
        m.cells.len(),
        |i: int|
            m.cells[i] && !({
                let p = m.point_at(i);
                &&& x0 <= p.0 < x1
                &&& ((y0 <= p.1 < y) || (p.1 == y && p.0 < x))
            }),
    )
}

/// Clears every cell of the mask that lies inside `bounds`.
pub fn clear_one_bounds(mask: &mut Mask, bounds: Bounds)
    requires
        old(mask).wf(),
    ensures
        final(mask).wf(),
        final(mask).model() == old(mask).model().without(bounds),
{
    let ghost m = mask.model();
    proof {
        mask.lemma_wf();
    }
    let width = mask.width();
    let height = mask.height();
    let right = if bounds.right() < width { bounds.right() } else { width };
    let bottom = if bounds.bottom() < height { bounds.bottom() } else { height };
    if bounds.x >= right || bounds.y >= bottom {
        proof {
            assert forall|i: int| 0 <= i < m.cells.len() implies !bounds.contains_point(m.point_at(i)) by {
                lemma_point_of_index(m.width, m.height, i);
            }
            assert(m.without(bounds).cells =~= m.cells);
        }
        return;
    }
    let mut y = bounds.y;
    proof {
        assert(partially_cleared(m, bounds.x as int, right as int, bounds.y as int, y as int, bounds.x as int) =~= m.cells);
    }
    while y < bottom
        invariant
            mask.wf(),
            mask.model().width == m.width,
            mask.model().height == m.height,
            m.cells.len() == m.width * m.height,
            m.width == width,
            m.height == height,
            bounds.x < right <= width,
            bounds.y <= y <= bottom <= height,
            mask.model().cells == partially_cleared(m, bounds.x as int, right as int, bounds.y as int, y as int, bounds.x as int),
        decreases bottom - y,
    {
        let mut x = bounds.x;
        while x < right
            invariant
                mask.wf(),
                mask.model().width == m.width,
                mask.model().height == m.height,
                m.cells.len() == m.width * m.height,
                m.width == width,
                m.height == height,
                bounds.x <= x <= right <= width,
                bounds.y <= y < bottom <= height,
                mask.model().cells == partially_cleared(m, bounds.x as int, right as int, bounds.y as int, y as int, x as int),
            decreases right - x,
        {
            let ghost before = mask.model().cells;
            mask.set(x, y, false);
            proof {
                let target = (x as int, y as int);
                let index = m.index_of(target);
                let after = partially_cleared(m, bounds.x as int, right as int, bounds.y as int, y as int, x as int + 1);
                mask.lemma_wf();
                lemma_index_in_grid(m.width, m.height, x as int, y as int);
                assert(mask.model().cells == before.update(index, false));
                assert forall|i: int| 0 <= i < m.cells.len() implies mask.model().cells[i] == after[i] by {
                    lemma_point_of_index(m.width, m.height, i);
                    if i == index {
                        lemma_index_injective(m.width, m.point_at(i), target);
                        assert(m.point_at(i) == target);
                    } else {
                        assert(m.point_at(i) != target);
                    }
                }
                assert(mask.model().cells =~= after);
            }
            x += 1;
        }
        proof {
            assert(partially_cleared(m, bounds.x as int, right as int, bounds.y as int, y as int, right as int)
                =~= partially_cleared(m, bounds.x as int, right as int, bounds.y as int, y as int + 1, bounds.x as int));
        }
        y += 1;
    }
    proof {
        assert forall|i: int| 0 <= i < m.cells.len() implies mask.model().cells[i] == m.without(bounds).cells[i] by {
            lemma_point_of_index(m.width, m.height, i);
        }
        assert(mask.model().cells =~= m.without(bounds).cells);
    }
}

impl MaskModel {
    /// The grid with the cells of every rectangle in `bounds` cleared.
    pub open spec fn without_all(self, bounds: Seq<Bounds>) -> MaskModel
        decreases bounds.len(),
    {
        if bounds.len() == 0 {
            self
        } else {
            self.without_all(bounds.drop_last()).without(bounds.last())
        }
    }

    /// The grid with the cells of every rectangle of `bounds`, translated by `offset` and
    /// clipped to the grid, cleared.
    pub open spec fn without_translated_all(self, bounds: Seq<Bounds>, offset: Offset) -> MaskModel
        decreases bounds.len(),
    {
        if bounds.len() == 0 {
            self
        } else {
            let previous = self.without_translated_all(bounds.drop_last(), offset);
            match bounds.last().spec_translated_clipped(offset, self.width as u32, self.height as u32) {
                Some(moved) => previous.without(moved),
                None => previous,
            }
        }
    }
}

proof fn lemma_without_all_shape(m: MaskModel, bounds: Seq<Bounds>, offset: Offset)
    ensures
        m.without_all(bounds).width == m.width,
        m.without_all(bounds).height == m.height,
        m.without_all(bounds).cells.len() == m.cells.len(),
        m.without_translated_all(bounds, offset).width == m.width,
        m.without_translated_all(bounds, offset).height == m.height,
        m.without_translated_all(bounds, offset).cells.len() == m.cells.len(),
    decreases bounds.len(),
{
    if bounds.len() > 0 {
        lemma_without_all_shape(m, bounds.drop_last(), offset);
    }
}

/// Clears every cell of the mask inside any of the rectangles.
pub fn clear_bounds(mask: &mut Mask, bounds: &[Bounds])
    requires
        old(mask).wf(),
    ensures
        final(mask).wf(),
        final(mask).model() == old(mask).model().without_all(bounds@),
{
    let ghost m = mask.model();
    let mut index: usize = 0;
    assert(bounds@.take(0) =~= Seq::<Bounds>::empty());
    while index < bounds.len()
        invariant
            index <= bounds@.len(),
            mask.wf(),
            mask.model() == m.without_all(bounds@.take(index as int)),
        decreases bounds@.len() - index,
    {
        clear_one_bounds(mask, bounds[index]);
        proof {
            assert(bounds@.take(index as int + 1).drop_last() =~= bounds@.take(index as int));
        }
        index += 1;
    }
    assert(bounds@.take(bounds@.len() as int) =~= bounds@);
}

/// Clears every cell of the mask inside any of the rectangles after translating each by
/// `offset` and clipping it to the mask.
pub fn clear_translated_bounds(mask: &mut Mask, bounds: &[Bounds], offset: Offset)
    requires
        old(mask).wf(),
    ensures
        final(mask).wf(),
        final(mask).model() == old(mask).model().without_translated_all(bounds@, offset),
{
    let ghost m = mask.model();
    let width = mask.width();
    let height = mask.height();
    let mut index: usize = 0;
    assert(bounds@.take(0) =~= Seq::<Bounds>::empty());
    while index < bounds.len()
        invariant
            index <= bounds@.len(),
            mask.wf(),
            width == m.width,
            height == m.height,
            mask.model() == m.without_translated_all(bounds@.take(index as int), offset),
        decreases bounds@.len() - index,
    {
        proof {
            assert(bounds@.take(index as int + 1).drop_last() =~= bounds@.take(index as int));
        }
        match bounds[index].translated_clipped(offset, width, height) {
            Some(moved) => clear_one_bounds(mask, moved),
            None => {},
        }
        index += 1;
    }
    assert(bounds@.take(bounds@.len() as int) =~= bounds@);
}

/// The rectangle `(x, y, width, height)` as a list of at most one positive-area rectangle.
pub open spec fn nonzero_list(x: int, y: int, width: int, height: int) -> Seq<Bounds> {
    if width > 0 && height > 0 {
        seq![Bounds { x: x as u32, y: y as u32, width: width as u32, height: height as u32 }]
    } else {
        seq![]
    }
}

/// The parts of the `source` canvas that `offset` maps outside the `target` canvas: the band
/// above and below the valid rows, then the bands left and right of the valid columns; the
/// whole canvas when no pixel maps onto the target.
pub open spec fn spec_unmatched_canvas_bounds(source: ImageDimensions, target: ImageDimensions, offset: Offset) -> Seq<Bounds> {
    let sw = source.width as int;
    let sh = source.height as int;
    let left = clamp_int(-offset.x, 0, sw);
    let top = clamp_int(-offset.y, 0, sh);
    let right = clamp_int(target.width - offset.x, 0, sw);
    let bottom = clamp_int(target.height - offset.y, 0, sh);
    if left >= right || top >= bottom {
        nonzero_list(0, 0, sw, sh)
    } else {
        nonzero_list(0, 0, sw, top) + nonzero_list(0, bottom, sw, sh - bottom) + nonzero_list(0, top, left, bottom - top)
            + nonzero_list(right, top, sw - right, bottom - top)
    }
}

fn push_nonzero(list: &mut Vec<Bounds>, x: u32, y: u32, width: u32, height: u32)
    ensures
        final(list)@ == old(list)@ + nonzero_list(x as int, y as int, width as int, height as int),
{
    match nonzero_bounds(x, y, width, height) {
        Some(bounds) => list.push(bounds),
        None => {},
    }
    assert(final(list)@ =~= old(list)@ + nonzero_list(x as int, y as int, width as int, height as int));
}

/// Regions of the source canvas that the offset maps outside the target canvas.
pub fn unmatched_canvas_bounds(source: ImageDimensions, target: ImageDimensions, offset: Offset) -> (result: Vec<Bounds>)
    ensures
        result@ == spec_unmatched_canvas_bounds(source, target, offset),
{
    let source_width = source.width as i64;
    let source_height = source.height as i64;
    let valid_left = clamp_i64(-(offset.x as i64), 0, source_width);
    let valid_top = clamp_i64(-(offset.y as i64), 0, source_height);
    let valid_right = clamp_i64(target.width as i64 - offset.x as i64, 0, source_width);
    let valid_bottom = clamp_i64(target.height as i64 - offset.y as i64, 0, source_height);
    let mut result: Vec<Bounds> = Vec::new();
    if valid_left >= valid_right || valid_top >= valid_bottom {
        push_nonzero(&mut result, 0, 0, source.width, source.height);
        return result;
    }
    let left = valid_left as u32;
    let top = valid_top as u32;
    let right = valid_right as u32;
    let bottom = valid_bottom as u32;
    push_nonzero(&mut result, 0, 0, source.width, top);
    push_nonzero(&mut result, 0, bottom, source.width, source.height - bottom);
    push_nonzero(&mut result, 0, top, left, bottom - top);
    push_nonzero(&mut result, right, top, source.width - right, bottom - top);
    result
}

/// Source point `p` lands on the target canvas under `offset`.
pub open spec fn maps_onto(target: ImageDimensions, offset: Offset, p: (int, int)) -> bool {
    0 <= p.0 + offset.x < target.width && 0 <= p.1 + offset.y < target.height
}

/// The unmatched regions partition the source pixels that the offset maps off the target
/// canvas: each such pixel lies in exactly one region, and no other pixel lies in any.
pub proof fn lemma_unmatched_canvas_partition(
    source: ImageDimensions,
    target: ImageDimensions,
    offset: Offset,
    p: (int, int),
)
    requires
        0 <= p.0 < source.width,
        0 <= p.1 < source.height,
    ensures
        (exists|i: int|
            0 <= i < spec_unmatched_canvas_bounds(source, target, offset).len()
                && #[trigger] spec_unmatched_canvas_bounds(source, target, offset)[i].contains_point(p))
            <==> !maps_onto(target, offset, p),
        forall|i: int, j: int|
            0 <= i < j < spec_unmatched_canvas_bounds(source, target, offset).len() ==> !(
            #[trigger] spec_unmatched_canvas_bounds(source, target, offset)[i].contains_point(p)
                && #[trigger] spec_unmatched_canvas_bounds(source, target, offset)[j].contains_point(p)),
{
    let list = spec_unmatched_canvas_bounds(source, target, offset);
    let sw = source.width as int;
    let sh = source.height as int;
    let left = clamp_int(-offset.x, 0, sw);
    let top = clamp_int(-offset.y, 0, sh);
    let right = clamp_int(target.width - offset.x, 0, sw);
    let bottom = clamp_int(target.height - offset.y, 0, sh);
    let a = nonzero_list(0, 0, sw, top);
    let b = nonzero_list(0, bottom, sw, sh - bottom);
    let c = nonzero_list(0, top, left, bottom - top);
    let d = nonzero_list(right, top, sw - right, bottom - top);
    if left >= right || top >= bottom {
        if !maps_onto(target, offset, p) {
            assert(list[0].contains_point(p));
        }
    } else {
        assert(list == a + b + c + d);
        if !maps_onto(target, offset, p) {
            if p.1 < top {
                assert(list[0].contains_point(p));
            } else if p.1 >= bottom {
                assert(list[a.len() as int].contains_point(p));
            } else if p.0 < left {
                assert(list[(a.len() + b.len()) as int].contains_point(p));
            } else {
                assert(list[(a.len() + b.len() + c.len()) as int].contains_point(p));
            }
        }
    }
}

/// A residual difference region: where it lies in each image, and how many changed pixels it
/// holds.
#[derive(Debug, Clone, Copy, PartialEq, Eq, Structural)]
pub struct ResidualRegion {
    /// The region in expected coordinates, where it maps there.
    pub expected_bounds: Option<Bounds>,
    /// The region in actual coordinates, where it maps there.
    pub actual_bounds: Option<Bounds>,
    /// Changed pixels in the region.
    pub area: u32,
}

/// The regions reported for the unmatched parts of the `source` canvas: every unmatched band of
/// at least `minimum_area` pixels (area saturated), placed on the source side.
pub open spec fn canvas_regions(
    source: ImageDimensions,
    target: ImageDimensions,
    offset: Offset,
    minimum_area: u32,
    source_is_expected: bool,
    n: int,
) -> Seq<ResidualRegion>
    decreases n,
{
    if n <= 0 {
        seq![]
    } else {
        let previous = canvas_regions(source, target, offset, minimum_area, source_is_expected, n - 1);
        let bounds = spec_unmatched_canvas_bounds(source, target, offset)[n - 1];
        let area = saturate(bounds.width * bounds.height);
        if area < minimum_area {
            previous
        } else if source_is_expected {
            previous.push(ResidualRegion { expected_bounds: Some(bounds), actual_bounds: None, area: area as u32 })
        } else {
            previous.push(ResidualRegion { expected_bounds: None, actual_bounds: Some(bounds), area: area as u32 })
        }
    }
}

/// All canvas regions of `source` that `offset` leaves unmatched.
pub open spec fn all_canvas_regions(
    source: ImageDimensions,
    target: ImageDimensions,
    offset: Offset,
    minimum_area: u32,
    source_is_expected: bool,
) -> Seq<ResidualRegion> {
    canvas_regions(
        source,
        target,
        offset,
        minimum_area,
        source_is_expected,
        spec_unmatched_canvas_bounds(source, target, offset).len() as int,
    )
}

/// Appends a region for every part of the source canvas that maps outside the target canvas
/// and holds at least `minimum_area` pixels.
pub fn append_unmatched_canvas_regions(
    source: ImageDimensions,
    target: ImageDimensions,
    offset: Offset,
    minimum_area: u32,
    source_is_expected: bool,
    regions: &mut Vec<ResidualRegion>,
)
    ensures
        final(regions)@ == old(regions)@ + all_canvas_regions(source, target, offset, minimum_area, source_is_expected),
{
    let unmatched = unmatched_canvas_bounds(source, target, offset);
    let ghost start = regions@;
    let mut index: usize = 0;
    while index < unmatched.len()
        invariant
            index <= unmatched@.len(),
            unmatched@ == spec_unmatched_canvas_bounds(source, target, offset),
            regions@ == start + canvas_regions(source, target, offset, minimum_area, source_is_expected, index as int),
        decreases unmatched@.len() - index,
    {
        let bounds = unmatched[index];
        proof {
            crate::mask::lemma_u32_product_fits(bounds.width, bounds.height);
        }
        let product: u64 = bounds.width as u64 * bounds.height as u64;
        let area: u32 = if product > u32::MAX as u64 { u32::MAX } else { product as u32 };
        if area >= minimum_area {
            let region = if source_is_expected {
                ResidualRegion { expected_bounds: Some(bounds), actual_bounds: None, area }
            } else {
                ResidualRegion { expected_bounds: None, actual_bounds: Some(bounds), area }
            };
            regions.push(region);
        }
        proof {
            assert(regions@ =~= start + canvas_regions(source, target, offset, minimum_area, source_is_expected, index as int + 1));
        }
        index += 1;
    }
}

/// What residual classification works on: both canvases, the global alignment, the validated
/// movements, and the connected components left in each residual mask.
pub struct ResidualScene {
    pub expected: ImageDimensions,
    pub actual: ImageDimensions,
    pub alignment: Offset,
    pub movements: Seq<MovementMapping>,
    pub expected_components: Seq<Component>,
    pub actual_components: Seq<Component>,
}

impl ResidualScene {
    /// The component is deferred as a movement fringe.
    pub open spec fn suppressed(self, component: Component, component_is_expected: bool) -> bool {
        spec_movement_border_suppression(
            component,
            component_is_expected,
            self.movements,
            self.alignment,
            self.expected,
            self.actual,
        )
    }

    /// Expected component `i`, mapped through the alignment, overlaps actual component `j`.
    pub open spec fn overlaps_mapped(self, i: int, j: int) -> bool {
        self.expected_components[i].bounds.spec_translated_clipped(
            self.alignment,
            self.actual.width,
            self.actual.height,
        ) matches Some(mapped) && mapped.spec_intersection(self.actual_components[j].bounds) is Some
    }

    /// Actual component `j` is accounted for by some expected component.
    pub open spec fn used(self, j: int) -> bool {
        exists|i: int| 0 <= i < self.expected_components.len() && #[trigger] self.overlaps_mapped(i, j)
    }

    /// Regions reported for the first `k` expected components.
    pub open spec fn expected_findings(self, k: int) -> Seq<ResidualRegion>
        decreases k,
    {
        if k <= 0 {
            seq![]
        } else {
            let previous = self.expected_findings(k - 1);
            let c = self.expected_components[k - 1];
            if self.suppressed(c, true) {
                previous
            } else {
                previous.push(
                    ResidualRegion {
                        expected_bounds: Some(c.bounds),
                        actual_bounds: c.bounds.spec_translated_clipped(self.alignment, self.actual.width, self.actual.height),
                        area: c.area,
                    },
                )
            }
        }
    }

    /// Areas of the deferred components among the first `k` expected components.
    pub open spec fn expected_suppressed(self, k: int) -> Seq<u32>
        decreases k,
    {
        if k <= 0 {
            seq![]
        } else {
            let previous = self.expected_suppressed(k - 1);
            let c = self.expected_components[k - 1];
            if self.suppressed(c, true) {
                previous.push(c.area)
            } else {
                previous
            }
        }
    }

    /// Regions reported for the first `k` actual components that no expected component
    /// accounts for.
    pub open spec fn actual_findings(self, k: int) -> Seq<ResidualRegion>
        decreases k,
    {
        if k <= 0 {
            seq![]
        } else {
            let previous = self.actual_findings(k - 1);
            let c = self.actual_components[k - 1];
            if self.used(k - 1) || self.suppressed(c, false) {
                previous
            } else {
                previous.push(
                    ResidualRegion {
                        expected_bounds: c.bounds.spec_translated_clipped(
                            spec_reversed(self.alignment),
                            self.expected.width,
                            self.expected.height,
                        ),
                        actual_bounds: Some(c.bounds),
                        area: c.area,
                    },
                )
            }
        }
    }

    /// Areas of the deferred components among the first `k` unaccounted actual components.
    pub open spec fn actual_suppressed(self, k: int) -> Seq<u32>
        decreases k,
    {
        if k <= 0 {
            seq![]
        } else {
            let previous = self.actual_suppressed(k - 1);
            let c = self.actual_components[k - 1];
            if !self.used(k - 1) && self.suppressed(c, false) {
                previous.push(c.area)
            } else {
                previous
            }
        }
    }

    /// Every reported residual region, in report order.
    pub open spec fn findings(self) -> Seq<ResidualRegion> {
        self.expected_findings(self.expected_components.len() as int) + self.actual_findings(
            self.actual_components.len() as int,
        )
    }

    /// Areas of every deferred component, in the order they were deferred.
    pub open spec fn suppressed_areas(self) -> Seq<u32> {
        self.expected_suppressed(self.expected_components.len() as int) + self.actual_suppressed(
            self.actual_components.len() as int,
        )
    }
}

/// The dimensions of a mask's grid.
pub open spec fn grid_dimensions(m: MaskModel) -> ImageDimensions {
    ImageDimensions { width: m.width as u32, height: m.height as u32 }
}

/// The scene residual classification sees: each mask with the handled regions of its own image
/// and the translated handled regions of the other image cleared, split into components of at
/// least `minimum_area` cells.
pub open spec fn residual_scene(
    expected_mask: MaskModel,
    actual_mask: MaskModel,
    alignment: Offset,
    minimum_area: u32,
    handled_expected: Seq<Bounds>,
    handled_actual: Seq<Bounds>,
    movements: Seq<MovementMapping>,
) -> ResidualScene {
    let remaining_expected = expected_mask.without_all(handled_expected).without_translated_all(
        handled_actual,
        spec_reversed(alignment),
    );
    let remaining_actual = actual_mask.without_all(handled_actual).without_translated_all(handled_expected, alignment);
    ResidualScene {
        expected: grid_dimensions(expected_mask),
        actual: grid_dimensions(actual_mask),
        alignment,
        movements,
        expected_components: remaining_expected.components(minimum_area),
        actual_components: remaining_actual.components(minimum_area),
    }
}

/// Sum of a list of areas.
pub open spec fn area_sum(areas: Seq<u32>) -> int
    decreases areas.len(),
{
    if areas.len() == 0 {
        0
    } else {
        area_sum(areas.drop_last()) + areas.last()
    }
}

/// The summary holds exactly the records of the deferred `areas`.
pub open spec fn summary_records(summary: SuppressionSummary, areas: Seq<u32>) -> bool {
    &&& summary.movement_border_regions == saturate(areas.len() as int)
    &&& summary.movement_border_pixels == if area_sum(areas) > u64::MAX { u64::MAX as int } else { area_sum(areas) }
    &&& (areas.len() == 0 ==> summary.message is None)
    &&& (areas.len() > 0 ==> (summary.message matches Some(text) && text@ == suppression_message(
        summary.movement_border_regions as nat,
        summary.movement_border_pixels as nat,
    )))
}

proof fn lemma_area_sum_nonnegative(areas: Seq<u32>)
    ensures
        area_sum(areas) >= 0,
    decreases areas.len(),
{
    if areas.len() > 0 {
        lemma_area_sum_nonnegative(areas.drop_last());
    }
}

/// Records one more deferred component.
fn record(summary: &mut SuppressionSummary, area: u32, Ghost(areas): Ghost<Seq<u32>>)
    requires
        summary_records(*old(summary), areas),
    ensures
        summary_records(*final(summary), areas.push(area)),
{
    proof {
        lemma_area_sum_nonnegative(areas);
        assert(areas.push(area).drop_last() =~= areas);
    }
    summary.record_movement_border(area);
}

/// Marks every actual component that the mapped rectangle overlaps.
fn mark_overlaps(mapped: Option<Bounds>, actual_components: &Vec<Component>, used: &mut Vec<bool>)
    requires
        old(used)@.len() == actual_components@.len(),
    ensures
        final(used)@.len() == actual_components@.len(),
        forall|j: int|
            0 <= j < actual_components@.len() ==> #[trigger] final(used)@[j] == (old(used)@[j] || (mapped is Some
                && mapped.unwrap().spec_intersection(actual_components@[j].bounds) is Some)),
{
    let ghost start = used@;
    if let Some(m) = mapped {
        let mut j: usize = 0;
        while j < actual_components.len()
            invariant
                j <= actual_components@.len(),
                used@.len() == actual_components@.len(),
                start.len() == actual_components@.len(),
                forall|k: int|
                    0 <= k < j ==> #[trigger] used@[k] == (start[k] || m.spec_intersection(actual_components@[k].bounds) is Some),
                forall|k: int| j <= k < actual_components@.len() ==> #[trigger] used@[k] == start[k],
            decreases actual_components@.len() - j,
        {
            if m.intersection(actual_components[j].bounds).is_some() {
                used.set(j, true);
            }
            j += 1;
        }
    }
}

/// The message reported for a residual region of `area` changed pixels.
pub open spec fn residual_message_text(area: u32) -> Seq<char> {
    "A "@ + crate::text::decimal(area as nat) + " px region contains otherwise unexplained visual differences."@
}

/// Describes a residual region of `area` changed pixels.
pub fn residual_message(area: u32) -> (result: String)
    ensures
        result@ == residual_message_text(area),
{
    let mut text = String::from_str("A ");
    crate::text::push_decimal(&mut text, area as u64);
    text.append(" px region contains otherwise unexplained visual differences.");
    proof {
        reveal_strlit("A ");
        reveal_strlit(" px region contains otherwise unexplained visual differences.");
    }
    assert(text@ =~= residual_message_text(area));
    text
}

/// Some of the first `k` expected components, mapped through the alignment, overlaps actual
/// component `j`.
pub open spec fn used_before(scene: ResidualScene, k: int, j: int) -> bool {
    exists|i: int| 0 <= i < k && #[trigger] scene.overlaps_mapped(i, j)
}

fn report_expected(
    expected_components: &Vec<Component>,
    actual_components: &Vec<Component>,
    movements: &[MovementMapping],
    alignment: Offset,
    expected: ImageDimensions,
    actual: ImageDimensions,
    used: &mut Vec<bool>,
    regions: &mut Vec<ResidualRegion>,
    summary: &mut SuppressionSummary,
    Ghost(scene): Ghost<ResidualScene>,
)
    requires
        expected_components@ == scene.expected_components,
        actual_components@ == scene.actual_components,
        movements@ == scene.movements,
        alignment == scene.alignment,
        expected == scene.expected,
        actual == scene.actual,
        movements_fit(movements@, scene.expected),
        old(used)@.len() == actual_components@.len(),
        forall|j: int| 0 <= j < old(used)@.len() ==> !#[trigger] old(used)@[j],
        summary_records(*old(summary), seq![]),
    ensures
        final(used)@.len() == actual_components@.len(),
        forall|j: int| 0 <= j < final(used)@.len() ==> #[trigger] final(used)@[j] == scene.used(j),
        final(regions)@ == old(regions)@ + scene.expected_findings(expected_components@.len() as int),
        summary_records(*final(summary), scene.expected_suppressed(expected_components@.len() as int)),
{
    let ghost start = regions@;
    let mut k: usize = 0;
    assert(scene.expected_suppressed(0) =~= seq![]);
    while k < expected_components.len()
        invariant
            k <= expected_components@.len(),
            expected_components@ == scene.expected_components,
            actual_components@ == scene.actual_components,
            movements@ == scene.movements,
            movements_fit(movements@, scene.expected),
            alignment == scene.alignment,
            expected == scene.expected,
            actual == scene.actual,
            used@.len() == actual_components@.len(),
            forall|j: int| 0 <= j < used@.len() ==> #[trigger] used@[j] == used_before(scene, k as int, j),
            regions@ == start + scene.expected_findings(k as int),
            summary_records(*summary, scene.expected_suppressed(k as int)),
        decreases expected_components@.len() - k,
    {
        let component = expected_components[k];
        let mapped = component.bounds.translated_clipped(alignment, actual.width, actual.height);
        let ghost before = used@;
        mark_overlaps(mapped, actual_components, used);
        proof {
            assert forall|j: int| 0 <= j < used@.len() implies #[trigger] used@[j] == used_before(scene, k as int + 1, j) by {
                if scene.overlaps_mapped(k as int, j) {
                    assert(used_before(scene, k as int + 1, j));
                }
                if used_before(scene, k as int + 1, j) && !scene.overlaps_mapped(k as int, j) {
                    let i = choose|i: int| 0 <= i < k + 1 && #[trigger] scene.overlaps_mapped(i, j);
                    assert(used_before(scene, k as int, j));
                }
            }
        }
        if movement_border_suppression(&component, true, movements, alignment, expected, actual) {
            record(summary, component.area, Ghost(scene.expected_suppressed(k as int)));
        } else {
            regions.push(ResidualRegion { expected_bounds: Some(component.bounds), actual_bounds: mapped, area: component.area });
        }
        proof {
            assert(regions@ =~= start + scene.expected_findings(k as int + 1));
        }
        k += 1;
    }
    proof {
        assert forall|j: int| 0 <= j < used@.len() implies #[trigger] used@[j] == scene.used(j) by {
            if used_before(scene, k as int, j) {
                let i = choose|i: int| 0 <= i < k && #[trigger] scene.overlaps_mapped(i, j);
                assert(scene.used(j));
            }
            if scene.used(j) {
                let i = choose|i: int| 0 <= i < scene.expected_components.len() && #[trigger] scene.overlaps_mapped(i, j);
                assert(used_before(scene, k as int, j));
            }
        }
    }
}

fn report_actual(
    actual_components: &Vec<Component>,
    movements: &[MovementMapping],
    alignment: Offset,
    expected: ImageDimensions,
    actual: ImageDimensions,
    used: &Vec<bool>,
    regions: &mut Vec<ResidualRegion>,
    summary: &mut SuppressionSummary,
    Ghost(scene): Ghost<ResidualScene>,
)
    requires
        actual_components@ == scene.actual_components,
        movements@ == scene.movements,
        alignment == scene.alignment,
        expected == scene.expected,
        actual == scene.actual,
        used@.len() == actual_components@.len(),
        forall|j: int| 0 <= j < used@.len() ==> #[trigger] used@[j] == scene.used(j),
        summary_records(*old(summary), scene.expected_suppressed(scene.expected_components.len() as int)),
    ensures
        final(regions)@ == old(regions)@ + scene.actual_findings(actual_components@.len() as int),
        summary_records(*final(summary), scene.suppressed_areas()),
{
    let ghost start = regions@;
    let ghost prefix = scene.expected_suppressed(scene.expected_components.len() as int);
    let reverse = reversed(alignment);
    let mut k: usize = 0;
    assert(prefix + scene.actual_suppressed(0) =~= prefix);
    while k < actual_components.len()
        invariant
            k <= actual_components@.len(),
            actual_components@ == scene.actual_components,
            movements@ == scene.movements,
            alignment == scene.alignment,
            reverse == spec_reversed(alignment),
            expected == scene.expected,
            actual == scene.actual,
            used@.len() == actual_components@.len(),
            forall|j: int| 0 <= j < used@.len() ==> #[trigger] used@[j] == scene.used(j),
            prefix == scene.expected_suppressed(scene.expected_components.len() as int),
            regions@ == start + scene.actual_findings(k as int),
            summary_records(*summary, prefix + scene.actual_suppressed(k as int)),
        decreases actual_components@.len() - k,
    {
        let component = actual_components[k];
        assert(used@[k as int] == scene.used(k as int));
        if !used[k] {
            if movement_border_suppression(&component, false, movements, alignment, expected, actual) {
                record(summary, component.area, Ghost(prefix + scene.actual_suppressed(k as int)));
                proof {
                    assert((prefix + scene.actual_suppressed(k as int)).push(component.area) =~= prefix
                        + scene.actual_suppressed(k as int + 1));
                }
            } else {
                regions.push(
                    ResidualRegion {
                        expected_bounds: component.bounds.translated_clipped(reverse, expected.width, expected.height),
                        actual_bounds: Some(component.bounds),
                        area: component.area,
                    },
                );
            }
        }
        proof {
            assert(regions@ =~= start + scene.actual_findings(k as int + 1));
            if used@[k as int] || !scene.suppressed(component, false) {
                assert(prefix + scene.actual_suppressed(k as int + 1) =~= prefix + scene.actual_suppressed(k as int));
            }
        }
        k += 1;
    }
}

/// Classifies what remains of two residual masks once the regions already explained by
/// structural findings are cleared: each remaining component of the expected mask is reported
/// with its aligned counterpart, each remaining actual component that no expected component
/// accounts for is reported, small fringes of exactly one movement are deferred into the
/// returned summary, and the canvas parts that the alignment leaves unmatched are reported last.
///
/// Fails only when working storage cannot be reserved, and then appends nothing.
pub fn append_unhandled(
    expected_mask: Mask,
    actual_mask: Mask,
    alignment: Offset,
    minimum_area: u32,
    handled_expected: &[Bounds],
    handled_actual: &[Bounds],
    movements: &[MovementMapping],
    regions: &mut Vec<ResidualRegion>,
) -> (result: Result<SuppressionSummary, SizeError>)
    requires
        expected_mask.wf(),
        actual_mask.wf(),
        movements_fit(movements@, grid_dimensions(expected_mask.model())),
    ensures
        result is Err ==> final(regions)@ == old(regions)@,
        result matches Ok(summary) ==> {
            let scene = residual_scene(
                expected_mask.model(),
                actual_mask.model(),
                alignment,
                minimum_area,
                handled_expected@,
                handled_actual@,
                movements@,
            );
            &&& final(regions)@ == old(regions)@ + scene.findings() + all_canvas_regions(
                scene.expected,
                scene.actual,
                alignment,
                minimum_area,
                true,
            ) + all_canvas_regions(scene.actual, scene.expected, spec_reversed(alignment), minimum_area, false)
            &&& summary_records(summary, scene.suppressed_areas())
        },
{
    let ghost scene = residual_scene(
        expected_mask.model(),
        actual_mask.model(),
        alignment,
        minimum_area,
        handled_expected@,
        handled_actual@,
        movements@,
    );
    proof {
        expected_mask.lemma_wf();
        actual_mask.lemma_wf();
    }
    let expected = ImageDimensions { width: expected_mask.width(), height: expected_mask.height() };
    let actual = ImageDimensions { width: actual_mask.width(), height: actual_mask.height() };
    let reverse = reversed(alignment);
    let mut expected_mask = expected_mask;
    let mut actual_mask = actual_mask;
    clear_bounds(&mut expected_mask, handled_expected);
    clear_translated_bounds(&mut expected_mask, handled_actual, reverse);
    clear_bounds(&mut actual_mask, handled_actual);
    clear_translated_bounds(&mut actual_mask, handled_expected, alignment);
    let expected_components = match expected_mask.components(minimum_area) {
        Ok(found) => found,
        Err(error) => return Err(error),
    };
    let actual_components = match actual_mask.components(minimum_area) {
        Ok(found) => found,
        Err(error) => return Err(error),
    };
    let mut used: Vec<bool> = Vec::new();
    let mut filled: usize = 0;
    while filled < actual_components.len()
        invariant
            filled <= actual_components@.len(),
            used@.len() == filled,
            forall|j: int| 0 <= j < filled ==> !#[trigger] used@[j],
        decreases actual_components@.len() - filled,
    {
        used.push(false);
        filled += 1;
    }
    let mut summary = SuppressionSummary::default();
    let ghost start = regions@;
    report_expected(
        &expected_components,
        &actual_components,
        movements,
        alignment,
        expected,
        actual,
        &mut used,
        regions,
        &mut summary,
        Ghost(scene),
    );
    report_actual(&actual_components, movements, alignment, expected, actual, &used, regions, &mut summary, Ghost(scene));
    append_unmatched_canvas_regions(expected, actual, alignment, minimum_area, true, regions);
    append_unmatched_canvas_regions(actual, expected, reverse, minimum_area, false, regions);
    proof {
        assert(regions@ =~= start + scene.findings() + all_canvas_regions(
            scene.expected,
            scene.actual,
            alignment,
            minimum_area,
            true,
        ) + all_canvas_regions(scene.actual, scene.expected, spec_reversed(alignment), minimum_area, false));
    }
    Ok(summary)
}

/// Whether the difference mask of a same-size pair holds a significant region: true unless its
/// components of at least `minimum_area` cells are known to be none.
pub fn significant_pair(mask: &Mask, minimum_area: u32) -> (result: bool)
    requires
        mask.wf(),
    ensures
        mask.model().components(minimum_area).len() > 0 ==> result,
        !result ==> mask.model().components(minimum_area).len() == 0,
{
    match mask.components(minimum_area) {
        Ok(found) => found.len() > 0,
        Err(_) => true,
    }
}

} // verus!
