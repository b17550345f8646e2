use vstd::prelude::*;

use std::collections::BTreeMap;

use crate::geometry::{contains, spec_contains};
use crate::mask::Mask;
use crate::matching::Proposal;
use crate::raster::{RasterImage, pixel_of, raster_samples, raster_size};
use crate::ordering::{key_ints, keys_ints, sort_positions, stably_sorted};
use crate::report::{Bounds, SizeError};

verus! {

broadcast use vstd::std_specs::btree::group_btree_axioms, vstd::laws_cmp::group_laws_cmp;

/// The `grid_position`-th of `grid` evenly spread sample coordinates along
/// `[origin, origin + length)`, from the first pixel to the last.
pub open spec fn spec_sample_coordinate(origin: u32, length: u32, grid_position: u32, grid: u32) -> int {
    if length <= 1 {
        origin as int
    } else {
        let divisor: int = if grid <= 1 { 1 } else { grid - 1 };
        let offset = (length - 1) * grid_position / divisor;
        origin + if offset > u32::MAX { u32::MAX as int } else { offset }
    }
}

/// Coordinate of one grid sample along an axis.
pub fn sample_coordinate(origin: u32, length: u32, grid_position: u32, grid: u32) -> (result: u32)
    requires
        spec_sample_coordinate(origin, length, grid_position, grid) <= u32::MAX,
    ensures
        result == spec_sample_coordinate(origin, length, grid_position, grid),
{
    if length <= 1 {
        return origin;
    }
    let divisor: u64 = if grid <= 1 { 1 } else { (grid - 1) as u64 };
    proof {
        crate::mask::lemma_u32_product_fits((length - 1) as u32, grid_position);
    }
    let offset: u64 = ((length - 1) as u64) * (grid_position as u64) / divisor;
    let clamped: u32 = if offset > u32::MAX as u64 { u32::MAX } else { offset as u32 };
    origin + clamped
}

/// Proposals are first ranked by decreasing area, then top, then left.
pub open spec fn containment_key(b: Bounds) -> Seq<int> {
    seq![-(b.width * b.height), b.y as int, b.x as int]
}

/// Proposals are finally listed by top, then left.
pub open spec fn position_key(b: Bounds) -> Seq<int> {
    seq![b.y as int, b.x as int]
}

/// The proposals listed in `order`.
pub open spec fn in_order(proposals: Seq<Proposal>, order: Seq<usize>) -> Seq<Proposal> {
    order.map_values(|o: usize| proposals[o as int])
}

/// `order` is the stable sort of the proposals by `containment_key`.
pub open spec fn ranks_by_size(proposals: Seq<Proposal>, order: Seq<usize>) -> bool {
    stably_sorted(proposals.map_values(|p: Proposal| containment_key(p.bounds)), order)
}

/// `order` is the stable sort of the proposals by `position_key`.
pub open spec fn ranks_by_position(proposals: Seq<Proposal>, order: Seq<usize>) -> bool {
    stably_sorted(proposals.map_values(|p: Proposal| position_key(p.bounds)), order)
}

/// Of the first `n` ranked proposals, those not contained in an earlier kept proposal.
pub open spec fn uncontained(ranked: Seq<Proposal>, n: int) -> Seq<Proposal>
    decreases n,
{
    if n <= 0 {
        seq![]
    } else {
        let kept = uncontained(ranked, n - 1);
        if exists|i: int| 0 <= i < kept.len() && #[trigger] spec_contains(kept[i].bounds, ranked[n - 1].bounds) {
            kept
        } else {
            kept.push(ranked[n - 1])
        }
    }
}

/// The proposals after removing contained ones: ranked by size, each dropped when an earlier
/// kept proposal contains it, and the rest listed by position.
pub open spec fn without_contained(proposals: Seq<Proposal>, result: Seq<Proposal>) -> bool {
    exists|by_size: Seq<usize>, by_position: Seq<usize>|
        #[trigger] ranks_by_size(proposals, by_size) && #[trigger] ranks_by_position(
            uncontained(in_order(proposals, by_size), proposals.len() as int),
            by_position,
        ) && result == in_order(
            uncontained(in_order(proposals, by_size), proposals.len() as int),
            by_position,
        )
}

fn sorted_by_keys(items: &Vec<Proposal>, keys: &Vec<Vec<i128>>) -> (result: (Vec<Proposal>, Ghost<Seq<usize>>))
    requires
        items@.len() == keys@.len(),
        forall|i: int, j: int|
            0 <= i < keys_ints(keys@).len() && 0 <= j < keys_ints(keys@).len() ==> (#[trigger] keys_ints(keys@)[i]).len()
                == (#[trigger] keys_ints(keys@)[j]).len(),
    ensures
        stably_sorted(keys_ints(keys@), result.1@),
        result.0@ == in_order(items@, result.1@),
{
    let order = sort_positions(keys);
    let mut sorted: Vec<Proposal> = Vec::new();
    let mut position: usize = 0;
    while position < order.len()
        invariant
            position <= order@.len(),
            stably_sorted(keys_ints(keys@), order@),
            keys_ints(keys@).len() == items@.len(),
            sorted@ == in_order(items@, order@.take(position as int)),
        decreases order@.len() - position,
    {
        let chosen = order[position];
        assert(order@[position as int] < keys_ints(keys@).len());
        sorted.push(items[chosen]);
        proof {
            assert(order@.take(position as int + 1) =~= order@.take(position as int).push(chosen));
            assert(sorted@ =~= in_order(items@, order@.take(position as int + 1)));
        }
        position += 1;
    }
    proof {
        assert(order@.take(order@.len() as int) =~= order@);
    }
    (sorted, Ghost(order@))
}

/// Drops every proposal contained in a larger (or earlier-ranked) one and lists the rest by
/// position.
pub fn remove_contained(proposals: &mut Vec<Proposal>)
    ensures
        without_contained(old(proposals)@, final(proposals)@),
{
    let ghost original = proposals@;
    let mut keys: Vec<Vec<i128>> = Vec::new();
    let mut index: usize = 0;
    while index < proposals.len()
        invariant
            index <= proposals@.len(),
            proposals@ == original,
            keys@.len() == index,
            forall|j: int| 0 <= j < index ==> key_ints((#[trigger] keys@[j])@) == containment_key(original[j].bounds),
        decreases proposals@.len() - index,
    {
        let bounds = proposals[index].bounds;
        let area = bounds.area();
        let mut key: Vec<i128> = Vec::new();
        key.push(-(area as i128));
        key.push(bounds.y as i128);
        key.push(bounds.x as i128);
        proof {
            assert(key_ints(key@) =~= containment_key(bounds));
        }
        keys.push(key);
        index += 1;
    }
    proof {
        assert(keys_ints(keys@) =~= original.map_values(|p: Proposal| containment_key(p.bounds)));
    }
    let (ranked, Ghost(by_size)) = sorted_by_keys(proposals, &keys);
    let mut kept: Vec<Proposal> = Vec::new();
    let mut k: usize = 0;
    while k < ranked.len()
        invariant
            k <= ranked@.len(),
            kept@ == uncontained(ranked@, k as int),
        decreases ranked@.len() - k,
    {
        let candidate = ranked[k];
        let mut covered = false;
        let mut i: usize = 0;
        while i < kept.len()
            invariant
                i <= kept@.len(),
                covered == exists|j: int| 0 <= j < i && #[trigger] spec_contains(kept@[j].bounds, candidate.bounds),
            decreases kept@.len() - i,
        {
            if contains(kept[i].bounds, candidate.bounds) {
                covered = true;
            }
            i += 1;
        }
        if !covered {
            kept.push(candidate);
        }
        k += 1;
    }
    let ghost survivors = kept@;
    let mut position_keys: Vec<Vec<i128>> = Vec::new();
    let mut index: usize = 0;
    while index < kept.len()
        invariant
            index <= kept@.len(),
            kept@ == survivors,
            position_keys@.len() == index,
            forall|j: int| 0 <= j < index ==> key_ints((#[trigger] position_keys@[j])@) == position_key(survivors[j].bounds),
        decreases kept@.len() - index,
    {
        let bounds = kept[index].bounds;
        let mut key: Vec<i128> = Vec::new();
        key.push(bounds.y as i128);
        key.push(bounds.x as i128);
        proof {
            assert(key_ints(key@) =~= position_key(bounds));
        }
        position_keys.push(key);
        index += 1;
    }
    proof {
        assert(keys_ints(position_keys@) =~= survivors.map_values(|p: Proposal| position_key(p.bounds)));
    }
    let (listed, Ghost(by_position)) = sorted_by_keys(&kept, &position_keys);
    proof {
        assert(ranks_by_size(original, by_size));
        assert(ranked@ == in_order(original, by_size));
        assert(ranked@.len() == original.len());
        assert(ranks_by_position(survivors, by_position));
    }
    *proposals = listed;
}

/// The proposals of a content mask: one per component of at least `minimum_area` cells, with
/// contained proposals removed.
///
/// Fails only when working storage cannot be reserved.
pub fn proposals_from_mask(mask: &Mask, minimum_area: u32) -> (result: Result<Vec<Proposal>, SizeError>)
    requires
        mask.wf(),
    ensures
        result matches Ok(found) ==> without_contained(
            mask.model().components(minimum_area).map_values(|c: crate::mask::Component| Proposal { bounds: c.bounds }),
            found@,
        ),
{
    let components = match mask.components(minimum_area) {
        Ok(found) => found,
        Err(error) => return Err(error),
    };
    let mut proposals: Vec<Proposal> = Vec::new();
    let mut index: usize = 0;
    while index < components.len()
        invariant
            index <= components@.len(),
            proposals@ == components@.take(index as int).map_values(
                |c: crate::mask::Component| Proposal { bounds: c.bounds },
            ),
        decreases components@.len() - index,
    {
        proposals.push(Proposal { bounds: components[index].bounds });
        proof {
            assert(components@.take(index as int + 1) =~= components@.take(index as int).push(components@[index as int]));
            assert(proposals@ =~= components@.take(index as int + 1).map_values(
                |c: crate::mask::Component| Proposal { bounds: c.bounds },
            ));
        }
        index += 1;
    }
    proof {
        assert(components@.take(components@.len() as int) =~= components@);
    }
    remove_contained(&mut proposals);
    Ok(proposals)
}

/// A pixel's channels packed into one integer, red most significant; packed colors order as
/// their channel arrays do.
pub open spec fn packed(pixel: Seq<u8>) -> u32 {
    (pixel[0] * 0x100_0000 + pixel[1] * 0x1_0000 + pixel[2] * 0x100 + pixel[3]) as u32
}

/// Distance between background samples: `max(width, height) / 256`, at least one pixel.
pub open spec fn sampling_step(width: u32, height: u32) -> int {
    let larger: int = if width >= height { width as int } else { height as int };
    if larger / 256 >= 1 { larger / 256 } else { 1 }
}

/// Packed colors sampled along row `y` from column `x` every `step` pixels.
pub open spec fn row_samples(samples: Seq<u8>, width: u32, y: int, step: int, x: int) -> Seq<u32>
    decreases (if x < width { width - x } else { 0 }),
{
    if x >= width || step <= 0 {
        seq![]
    } else {
        seq![packed(pixel_of(samples, width as int, x, y))] + row_samples(samples, width, y, step, x + step)
    }
}

/// Packed colors sampled from row `y` on, every `step` rows and columns, row by row.
pub open spec fn grid_samples(samples: Seq<u8>, width: u32, height: u32, step: int, y: int) -> Seq<u32>
    decreases (if y < height { height - y } else { 0 }),
{
    if y >= height || step <= 0 {
        seq![]
    } else {
        row_samples(samples, width, y, step, 0) + grid_samples(samples, width, height, step, y + step)
    }
}

/// The colors sampled from a raster to find its background.
pub open spec fn background_samples(image: RasterImage) -> Seq<u32> {
    let (width, height) = raster_size(image);
    grid_samples(raster_samples(image), width, height, sampling_step(width, height), 0)
}

/// How many samples have color `color`.
pub open spec fn count_of(samples: Seq<u32>, color: u32) -> nat
    decreases samples.len(),
{
    if samples.len() == 0 {
        0
    } else {
        count_of(samples.drop_last(), color) + if samples.last() == color { 1nat } else { 0nat }
    }
}

/// `color` is the most frequent sample, the smallest such color on ties.
pub open spec fn is_dominant(samples: Seq<u32>, color: u32) -> bool {
    &&& count_of(samples, color) > 0
    &&& forall|other: u32|
        #[trigger] count_of(samples, other) < count_of(samples, color) || (count_of(samples, other) == count_of(
            samples,
            color,
        ) && color <= other)
}

fn pack(pixel: [u8; 4]) -> (result: u32)
    ensures
        result == packed(pixel@),
{
    (pixel[0] as u32) * 0x100_0000 + (pixel[1] as u32) * 0x1_0000 + (pixel[2] as u32) * 0x100 + (pixel[3] as u32)
}

proof fn lemma_count_push(samples: Seq<u32>, sample: u32, color: u32)
    ensures
        count_of(samples.push(sample), color) == count_of(samples, color) + if sample == color { 1nat } else { 0nat },
{
    assert(samples.push(sample).drop_last() =~= samples);
}

proof fn lemma_count_bounded(samples: Seq<u32>, color: u32)
    ensures
        count_of(samples, color) <= samples.len(),
    decreases samples.len(),
{
    if samples.len() > 0 {
        lemma_count_bounded(samples.drop_last(), color);
    }
}

proof fn lemma_dominant_push(seen: Seq<u32>, best: u32, key: u32)
    requires
        seen.len() > 0 ==> is_dominant(seen, best),
    ensures
        ({
            let next = seen.push(key);
            let count = count_of(next, key);
            let keep = seen.len() > 0 && (count < count_of(seen, best) || (count == count_of(seen, best) && best <= key));
            &&& keep ==> is_dominant(next, best) && count_of(next, best) == count_of(seen, best)
            &&& !keep ==> is_dominant(next, key)
        }),
{
    let next = seen.push(key);
    assert forall|other: u32| #[trigger] count_of(next, other) == count_of(seen, other) + if key == other { 1nat } else { 0nat } by {
        lemma_count_push(seen, key, other);
    }
    if seen.len() > 0 {
        assert(count_of(next, best) == count_of(seen, best) + if key == best { 1nat } else { 0nat });
    }
    let count = count_of(next, key);
    assert(count == count_of(seen, key) + 1);
    if seen.len() == 0 {
        assert forall|other: u32| #[trigger] count_of(next, other) < count || (count_of(next, other) == count && key <= other) by {
            assert(count_of(seen, other) == 0);
        }
    } else if count < count_of(seen, best) || (count == count_of(seen, best) && best <= key) {
        assert(key != best);
        assert forall|other: u32|
            #[trigger] count_of(next, other) < count_of(next, best) || (count_of(next, other) == count_of(next, best)
                && best <= other) by {
            assert(count_of(seen, other) < count_of(seen, best) || (count_of(seen, other) == count_of(seen, best) && best
                <= other));
        }
    } else {
        assert forall|other: u32| #[trigger] count_of(next, other) < count || (count_of(next, other) == count && key <= other) by {
            assert(count_of(seen, other) < count_of(seen, best) || (count_of(seen, other) == count_of(seen, best) && best
                <= other));
            if other != key {
                assert(count_of(next, other) == count_of(seen, other));
            }
        }
    }
}

/// The most frequent color among background samples taken every `max(width, height) / 256`
/// pixels (at least every pixel), the smallest such color on ties, with its sample count and
/// the number of samples; transparent black with no samples.
pub fn dominant_color(image: &RasterImage) -> (result: ([u8; 4], u64, u64))
    ensures
        ({
            let samples = background_samples(*image);
            &&& result.2 == samples.len()
            &&& samples.len() == 0 ==> result.0@ == seq![0u8, 0, 0, 0] && result.1 == 0
            &&& samples.len() > 0 ==> is_dominant(samples, packed(result.0@)) && result.1 == count_of(
                samples,
                packed(result.0@),
            )
        }),
{
    let width = image.width();
    let height = image.height();
    let larger = if width >= height { width } else { height };
    let step: u64 = if larger / 256 >= 1 { (larger / 256) as u64 } else { 1 };
    let ghost bytes = raster_samples(*image);
    let ghost full = background_samples(*image);
    let mut counts: BTreeMap<u32, u64> = BTreeMap::new();
    let mut total: u64 = 0;
    let mut best_color: [u8; 4] = [0, 0, 0, 0];
    let mut best_key: u32 = 0;
    let mut best_count: u64 = 0;
    let ghost mut seen: Seq<u32> = seq![];
    let ghost mut rows: int = 0;
    let mut y: u64 = 0;
    assert(seen + grid_samples(bytes, width, height, step as int, 0) == full);
    while y < height as u64
        invariant
            width == raster_size(*image).0,
            height == raster_size(*image).1,
            bytes == raster_samples(*image),
            step == sampling_step(width, height),
            step >= 1,
            full == background_samples(*image),
            seen + grid_samples(bytes, width, height, step as int, y as int) == full,
            0 <= rows <= y,
            y <= height + step,
            seen.len() <= rows * width,
            total == seen.len(),
            forall|c: u32| #[trigger] counts@.contains_key(c) <==> count_of(seen, c) > 0,
            forall|c: u32| counts@.contains_key(c) ==> #[trigger] counts@[c] == count_of(seen, c),
            best_key == packed(best_color@),
            seen.len() == 0 ==> best_color@ == seq![0u8, 0, 0, 0] && best_count == 0,
            seen.len() > 0 ==> is_dominant(seen, best_key) && best_count == count_of(seen, best_key),
        decreases height + step - y,
    {
        let ghost row_start = seen;
        let ghost mut in_row: int = 0;
        let mut x: u64 = 0;
        while x < width as u64
            invariant
                width == raster_size(*image).0,
                height == raster_size(*image).1,
                bytes == raster_samples(*image),
                step == sampling_step(width, height),
                step >= 1,
                y < height,
                seen + row_samples(bytes, width, y as int, step as int, x as int) + grid_samples(
                    bytes,
                    width,
                    height,
                    step as int,
                    y + step,
                ) == full,
                0 <= rows <= y,
                0 <= in_row <= x,
                in_row <= width,
                x <= width + step,
                seen.len() <= rows * width + in_row,
                total == seen.len(),
                forall|c: u32| #[trigger] counts@.contains_key(c) <==> count_of(seen, c) > 0,
                forall|c: u32| counts@.contains_key(c) ==> #[trigger] counts@[c] == count_of(seen, c),
                best_key == packed(best_color@),
                seen.len() == 0 ==> best_color@ == seq![0u8, 0, 0, 0] && best_count == 0,
                seen.len() > 0 ==> is_dominant(seen, best_key) && best_count == count_of(seen, best_key),
            decreases width + step - x,
        {
            let pixel = image.pixel(x as u32, y as u32);
            let key = pack(pixel);
            proof {
                lemma_count_bounded(seen, key);
                assert(rows * width + in_row + 1 <= height * width) by (nonlinear_arith)
                    requires
                        rows <= height - 1,
                        in_row + 1 <= width,
                        0 <= rows,
                ;
                crate::mask::lemma_u32_product_fits(height, width);
            }
            let count: u64 = match counts.get(&key) {
                Some(existing) => *existing + 1,
                None => 1,
            };
            counts.insert(key, count);
            let first_sample = total == 0;
            total += 1;
            proof {
                lemma_dominant_push(seen, best_key, key);
                lemma_count_push(seen, key, key);
                assert forall|c: u32| #[trigger] count_of(seen.push(key), c) == count_of(seen, c) + if key == c { 1nat } else { 0nat } by {
                    lemma_count_push(seen, key, c);
                }
            }
            if first_sample || count > best_count || (count == best_count && key < best_key) {
                best_color = pixel;
                best_key = key;
                best_count = count;
            }
            proof {
                assert(row_samples(bytes, width, y as int, step as int, x as int) == seq![key] + row_samples(
                    bytes,
                    width,
                    y as int,
                    step as int,
                    x + step,
                ));
                assert(seen + row_samples(bytes, width, y as int, step as int, x as int) =~= seen.push(key) + row_samples(
                    bytes,
                    width,
                    y as int,
                    step as int,
                    x + step,
                ));
                seen = seen.push(key);
                in_row = in_row + 1;
            }
            x += step;
        }
        proof {
            assert(row_samples(bytes, width, y as int, step as int, x as int) =~= Seq::<u32>::empty());
            assert(grid_samples(bytes, width, height, step as int, y as int) == row_samples(bytes, width, y as int, step as int, 0)
                + grid_samples(bytes, width, height, step as int, y + step));
            assert(seen.len() <= (rows + 1) * width) by (nonlinear_arith)
                requires
                    seen.len() <= rows * width + in_row,
                    in_row <= width,
            ;
            rows = rows + 1;
        }
        y += step;
    }
    proof {
        assert(grid_samples(bytes, width, height, step as int, y as int) =~= Seq::<u32>::empty());
        assert(seen =~= full);
    }
    (best_color, best_count, total)
}

/// Whether the dominant color covers at least a twentieth of the samples.
pub fn background_is_dominant(dominant_samples: u64, total_samples: u64) -> (result: bool)
    ensures
        result == (if dominant_samples * 20 > u64::MAX { u64::MAX as int } else { dominant_samples * 20 } >= total_samples),
{
    let scaled = if dominant_samples > u64::MAX / 20 { u64::MAX } else { dominant_samples * 20 };
    scaled >= total_samples
}

} // verus!
