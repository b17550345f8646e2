use vstd::prelude::*;

use crate::geometry::{
    horizontal_gap, nearby, padded, spec_horizontal_gap, spec_nearby, spec_padded, spec_union, spec_vertical_overlap,
    union, vertical_overlap,
};
use crate::mask::{Component, Mask, MaskModel};
use crate::ordering::{key_ints, keys_ints, sort_positions, stably_sorted};
use crate::report::{Bounds, ImageDimensions, Offset, SizeError};
use crate::geometry::saturate;

verus! {

/// Most residual proposals examined for local movements; more means the difference is not local.
pub const MAX_PROPOSALS: usize = 64;

/// Context in pixels added around each residual proposal.
pub const CONTEXT: u32 = 4;

/// Residual components closer than this are grouped into one proposal.
pub const GROUPING_GAP: u32 = 10;

/// Largest horizontal gap between two side-by-side proposals that are also offered combined.
pub const PAIRING_GAP: u32 = 64;

/// The rectangle lies inside a `width` by `height` grid.
pub open spec fn in_grid(b: Bounds, width: int, height: int) -> bool {
    b.x + b.width <= width && b.y + b.height <= height
}

/// Position of the first group at or after `i` that lies near `bounds`, or the number of
/// groups when none does.
pub open spec fn first_nearby(groups: Seq<Bounds>, bounds: Bounds, i: int) -> int
    decreases groups.len() - i,
{
    if i >= groups.len() || i < 0 {
        groups.len() as int
    } else if spec_nearby(bounds, groups[i], GROUPING_GAP) {
        i
    } else {
        first_nearby(groups, bounds, i + 1)
    }
}

proof fn lemma_first_nearby_range(groups: Seq<Bounds>, bounds: Bounds, i: int)
    requires
        0 <= i,
    ensures
        i <= first_nearby(groups, bounds, i) <= groups.len() || (i > groups.len() && first_nearby(groups, bounds, i)
            == groups.len()),
        first_nearby(groups, bounds, i) < groups.len() ==> spec_nearby(
            bounds,
            groups[first_nearby(groups, bounds, i)],
            GROUPING_GAP,
        ),
    decreases groups.len() - i,
{
    if i < groups.len() && !spec_nearby(bounds, groups[i], GROUPING_GAP) {
        lemma_first_nearby_range(groups, bounds, i + 1);
    }
}

proof fn lemma_first_nearby_skip(groups: Seq<Bounds>, bounds: Bounds, i: int)
    requires
        0 <= i <= groups.len(),
        forall|j: int| 0 <= j < i ==> !spec_nearby(bounds, #[trigger] groups[j], GROUPING_GAP),
    ensures
        first_nearby(groups, bounds, 0) == first_nearby(groups, bounds, i),
    decreases i,
{
    if i > 0 {
        lemma_first_nearby_skip(groups, bounds, i - 1);
    }
}

/// The groups after adding `bounds`: every group near it is merged into it, one at a time
/// (taking the first near group and moving the last group into its place), until no group is
/// near; then the merged rectangle is appended.
pub open spec fn absorb(groups: Seq<Bounds>, bounds: Bounds) -> Seq<Bounds>
    decreases groups.len(),
{
    let i = first_nearby(groups, bounds, 0);
    if 0 <= i < groups.len() {
        absorb(groups.update(i, groups.last()).drop_last(), spec_union(bounds, groups[i]))
    } else {
        groups.push(bounds)
    }
}

/// The groups formed from the first `n` components.
pub open spec fn grouped_components(components: Seq<Component>, n: int) -> Seq<Bounds>
    decreases n,
{
    if n <= 0 {
        seq![]
    } else {
        absorb(grouped_components(components, n - 1), components[n - 1].bounds)
    }
}

/// Two groups side by side that are also proposed combined.
pub open spec fn pairable(left: Bounds, right: Bounds) -> bool {
    spec_vertical_overlap(left, right) && spec_horizontal_gap(left, right) <= PAIRING_GAP
}

/// Combined proposals of group `left` with each later group before `right`.
pub open spec fn pair_row(groups: Seq<Bounds>, left: int, right: int) -> Seq<Bounds>
    decreases right - left,
{
    if right <= left + 1 {
        seq![]
    } else {
        let previous = pair_row(groups, left, right - 1);
        if pairable(groups[left], groups[right - 1]) {
            previous.push(spec_union(groups[left], groups[right - 1]))
        } else {
            previous
        }
    }
}

/// Combined proposals of each of the first `left` groups with every later group.
pub open spec fn pair_rows(groups: Seq<Bounds>, left: int) -> Seq<Bounds>
    decreases left,
{
    if left <= 0 {
        seq![]
    } else {
        pair_rows(groups, left - 1) + pair_row(groups, left - 1, groups.len() as int)
    }
}

/// The unsorted proposals of a residual mask: the groups of its components, then the combined
/// side-by-side pairs, each padded by the context margin and clipped to the mask.
pub open spec fn proposal_candidates(mask: MaskModel, minimum_area: u32) -> Seq<Bounds> {
    let components = mask.components(minimum_area);
    let groups = grouped_components(components, components.len() as int);
    (groups + pair_rows(groups, groups.len() as int)).map_values(
        |b: Bounds| spec_padded(b, CONTEXT, mask.width as u32, mask.height as u32),
    )
}

/// Proposals are ordered by decreasing area, then top, left, width and height.
pub open spec fn proposal_key(b: Bounds) -> Seq<int> {
    seq![-(b.width * b.height), b.y as int, b.x as int, b.width as int, b.height as int]
}

/// `order` is the stable sort of the candidates by `proposal_key`.
pub open spec fn sorts_proposals(candidates: Seq<Bounds>, order: Seq<usize>) -> bool {
    stably_sorted(candidates.map_values(|b: Bounds| proposal_key(b)), order)
}

/// The candidates listed in `order`.
pub open spec fn arranged(candidates: Seq<Bounds>, order: Seq<usize>) -> Seq<Bounds> {
    order.map_values(|o: usize| candidates[o as int])
}

/// Adds `bounds` to the groups, merging every near group into it.
fn absorb_into(groups: &mut Vec<Bounds>, bounds: Bounds, Ghost(width): Ghost<int>, Ghost(height): Ghost<int>)
    requires
        in_grid(bounds, width, height),
        forall|j: int| 0 <= j < old(groups)@.len() ==> in_grid(#[trigger] old(groups)@[j], width, height),
    ensures
        final(groups)@ == absorb(old(groups)@, bounds),
        forall|j: int| 0 <= j < final(groups)@.len() ==> in_grid(#[trigger] final(groups)@[j], width, height),
{
    let ghost target = absorb(groups@, bounds);
    let mut current = bounds;
    let mut index: usize = 0;
    while index < groups.len()
        invariant
            index <= groups@.len(),
            absorb(groups@, current) == target,
            forall|j: int| 0 <= j < index ==> !spec_nearby(current, #[trigger] groups@[j], GROUPING_GAP),
            in_grid(current, width, height),
            forall|j: int| 0 <= j < groups@.len() ==> in_grid(#[trigger] groups@[j], width, height),
        decreases groups@.len(), groups@.len() - index,
    {
        if nearby(current, groups[index], GROUPING_GAP) {
            proof {
                lemma_first_nearby_skip(groups@, current, index as int);
            }
            let ghost before = groups@;
            let other = groups.swap_remove(index);
            proof {
                assert(groups@ == before.update(index as int, before.last()).drop_last());
                assert forall|j: int| 0 <= j < groups@.len() implies in_grid(#[trigger] groups@[j], width, height) by {
                    if j == index as int {
                        assert(in_grid(before[before.len() - 1], width, height));
                    } else {
                        assert(in_grid(before[j], width, height));
                    }
                }
            }
            current = union(current, other);
            index = 0;
        } else {
            index += 1;
        }
    }
    proof {
        lemma_first_nearby_skip(groups@, current, index as int);
    }
    groups.push(current);
}

/// Groups the components' bounds in order.
fn group_components(components: &Vec<Component>, Ghost(width): Ghost<int>, Ghost(height): Ghost<int>) -> (result: Vec<Bounds>)
    requires
        forall|i: int| 0 <= i < components@.len() ==> in_grid((#[trigger] components@[i]).bounds, width, height),
    ensures
        result@ == grouped_components(components@, components@.len() as int),
        forall|j: int| 0 <= j < result@.len() ==> in_grid(#[trigger] result@[j], width, height),
{
    let mut groups: Vec<Bounds> = Vec::new();
    let mut k: usize = 0;
    while k < components.len()
        invariant
            k <= components@.len(),
            forall|i: int| 0 <= i < components@.len() ==> in_grid((#[trigger] components@[i]).bounds, width, height),
            groups@ == grouped_components(components@, k as int),
            forall|j: int| 0 <= j < groups@.len() ==> in_grid(#[trigger] groups@[j], width, height),
        decreases components@.len() - k,
    {
        absorb_into(&mut groups, components[k].bounds, Ghost(width), Ghost(height));
        k += 1;
    }
    groups
}

/// Appends the combined proposals of every side-by-side pair of the original groups.
fn append_pairs(groups: &mut Vec<Bounds>, Ghost(width): Ghost<int>, Ghost(height): Ghost<int>)
    requires
        forall|j: int| 0 <= j < old(groups)@.len() ==> in_grid(#[trigger] old(groups)@[j], width, height),
    ensures
        final(groups)@ == old(groups)@ + pair_rows(old(groups)@, old(groups)@.len() as int),
        forall|j: int| 0 <= j < final(groups)@.len() ==> in_grid(#[trigger] final(groups)@[j], width, height),
{
    let ghost original = groups@;
    let initial_count = groups.len();
    let mut left: usize = 0;
    while left < initial_count
        invariant
            initial_count == original.len(),
            left <= initial_count,
            groups@ == original + pair_rows(original, left as int),
            forall|j: int| 0 <= j < groups@.len() ==> in_grid(#[trigger] groups@[j], width, height),
        decreases initial_count - left,
    {
        let mut right: usize = left + 1;
        while right < initial_count
            invariant
                initial_count == original.len(),
                left < initial_count,
                left + 1 <= right <= initial_count,
                groups@ == original + pair_rows(original, left as int) + pair_row(original, left as int, right as int),
                forall|j: int| 0 <= j < groups@.len() ==> in_grid(#[trigger] groups@[j], width, height),
            decreases initial_count - right,
        {
            assert(groups@[left as int] == original[left as int]);
            assert(groups@[right as int] == original[right as int]);
            let first = groups[left];
            let second = groups[right];
            if vertical_overlap(first, second) && horizontal_gap(first, second) <= PAIRING_GAP {
                groups.push(union(first, second));
            }
            proof {
                assert(groups@ =~= original + pair_rows(original, left as int) + pair_row(
                    original,
                    left as int,
                    right as int + 1,
                ));
            }
            right += 1;
        }
        proof {
            assert(original + pair_rows(original, left as int) + pair_row(original, left as int, initial_count as int)
                =~= original + pair_rows(original, left as int + 1));
        }
        left += 1;
    }
}

/// Candidate regions for local movement search in a residual mask: nearby components are
/// grouped, side-by-side groups are also offered combined, every region gets a context margin,
/// and the list is ordered by decreasing area, then top, left, width and height.
///
/// Fails only when working storage cannot be reserved.
pub fn residual_proposals(mask: &Mask, minimum_area: u32) -> (result: Result<Vec<Bounds>, SizeError>)
    requires
        mask.wf(),
    ensures
        result matches Ok(found) ==> exists|order: Seq<usize>|
            #[trigger] sorts_proposals(proposal_candidates(mask.model(), minimum_area), order) && found@ == arranged(
                proposal_candidates(mask.model(), minimum_area),
                order,
            ),
{
    let ghost m = mask.model();
    let width = mask.width();
    let height = mask.height();
    let components = match mask.components(minimum_area) {
        Ok(found) => found,
        Err(error) => return Err(error),
    };
    let mut groups = group_components(&components, Ghost(m.width), Ghost(m.height));
    append_pairs(&mut groups, Ghost(m.width), Ghost(m.height));
    let ghost all = groups@;
    let mut candidates: Vec<Bounds> = Vec::new();
    let mut keys: Vec<Vec<i128>> = Vec::new();
    let mut index: usize = 0;
    while index < groups.len()
        invariant
            index <= groups@.len(),
            groups@ == all,
            width == m.width,
            height == m.height,
            forall|j: int| 0 <= j < all.len() ==> in_grid(#[trigger] all[j], m.width, m.height),
            candidates@.len() == index,
            keys@.len() == index,
            forall|j: int| 0 <= j < index ==> #[trigger] candidates@[j] == spec_padded(all[j], CONTEXT, width, height),
            forall|j: int| 0 <= j < index ==> key_ints((#[trigger] keys@[j])@) == proposal_key(candidates@[j]),
        decreases groups@.len() - index,
    {
        assert(in_grid(all[index as int], m.width, m.height));
        let candidate = padded(groups[index], CONTEXT, width, height);
        let area = candidate.area();
        let mut key: Vec<i128> = Vec::new();
        key.push(-(area as i128));
        key.push(candidate.y as i128);
        key.push(candidate.x as i128);
        key.push(candidate.width as i128);
        key.push(candidate.height as i128);
        proof {
            assert(key_ints(key@) =~= proposal_key(candidate));
        }
        candidates.push(candidate);
        keys.push(key);
        index += 1;
    }
    let ghost expected = proposal_candidates(m, minimum_area);
    proof {
        assert(candidates@ =~= expected);
        assert(keys_ints(keys@) =~= expected.map_values(|b: Bounds| proposal_key(b)));
        assert forall|i: int, j: int|
            0 <= i < keys_ints(keys@).len() && 0 <= j < keys_ints(keys@).len() implies (
            #[trigger] keys_ints(keys@)[i]).len() == (#[trigger] keys_ints(keys@)[j]).len() by {}
    }
    let order = sort_positions(&keys);
    let mut sorted: Vec<Bounds> = Vec::new();
    let mut position: usize = 0;
    while position < order.len()
        invariant
            position <= order@.len(),
            stably_sorted(keys_ints(keys@), order@),
            keys_ints(keys@).len() == expected.len(),
            candidates@ == expected,
            sorted@ == order@.take(position as int).map_values(|o: usize| expected[o as int]),
        decreases order@.len() - position,
    {
        let chosen = order[position];
        assert(order@[position as int] < keys_ints(keys@).len());
        sorted.push(candidates[chosen]);
        proof {
            assert(order@.take(position as int + 1) =~= order@.take(position as int).push(chosen));
            assert(sorted@ =~= order@.take(position as int + 1).map_values(|o: usize| expected[o as int]));
        }
        position += 1;
    }
    proof {
        assert(order@.take(order@.len() as int) =~= order@);
        assert(keys_ints(keys@) == expected.map_values(|b: Bounds| proposal_key(b)));
        assert(sorts_proposals(expected, order@));
        assert(sorted@ == arranged(expected, order@));
    }
    Ok(sorted)
}

/// The rectangle translated by `offset` when it lands entirely on the target canvas (edges
/// saturated).
pub open spec fn spec_translate_full(bounds: Bounds, offset: Offset, target: ImageDimensions) -> Option<Bounds> {
    let x = bounds.x + offset.x;
    let y = bounds.y + offset.y;
    if x < 0 || y < 0 || x > u32::MAX || y > u32::MAX {
        None
    } else {
        let moved = Bounds { x: x as u32, y: y as u32, width: bounds.width, height: bounds.height };
        if saturate(moved.spec_right()) <= target.width && saturate(moved.spec_bottom()) <= target.height {
            Some(moved)
        } else {
            None
        }
    }
}

/// Translates a rectangle by `offset`, keeping it only when it lies entirely on the target.
pub fn translate_full(bounds: Bounds, offset: Offset, target: ImageDimensions) -> (result: Option<Bounds>)
    ensures
        result == spec_translate_full(bounds, offset, target),
{
    let x: i64 = bounds.x as i64 + offset.x as i64;
    let y: i64 = bounds.y as i64 + offset.y as i64;
    if x < 0 || y < 0 || x > u32::MAX as i64 || y > u32::MAX as i64 {
        return None;
    }
    let moved = Bounds { x: x as u32, y: y as u32, width: bounds.width, height: bounds.height };
    if moved.right() <= target.width && moved.bottom() <= target.height {
        Some(moved)
    } else {
        None
    }
}

} // verus!
