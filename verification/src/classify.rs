use vstd::prelude::*;

use crate::geometry::{spec_union_all, union};
use crate::mapping::MovementMapping;
use crate::matching::{Proposal, bounds_offset, spec_bounds_offset, within_pairing_budget, MAX_PROPOSALS_PER_SIDE, MAX_TOTAL_CANDIDATE_INSPECTIONS};
use crate::movement::{offset_description, push_offset_description};
use crate::report::{Bounds, ImageDimensions, Offset};
use crate::residual::{reversed, spec_reversed};
use crate::text::{decimal, push_decimal};

verus! {

/// A pairing of an expected proposal with an actual proposal, with the verdicts of its
/// appearance scores.
#[derive(Debug, Clone, Copy, PartialEq, Eq, Structural)]
pub struct PairVerdict {
    /// Position of the expected proposal.
    pub expected: usize,
    /// Position of the actual proposal.
    pub actual: usize,
    /// The pair's appearance score is within the match limit.
    pub within_limit: bool,
    /// Moving by the pair's offset improves on the global alignment by the required margin.
    pub improves: bool,
    /// Another candidate scored almost as well.
    pub ambiguous: bool,
}

/// A local movement found by searching around residual differences.
#[derive(Debug, Clone, Copy, PartialEq, Eq, Structural)]
pub struct LocalMovement {
    /// The moved region in expected coordinates.
    pub expected_bounds: Bounds,
    /// The region it moved to, in actual coordinates.
    pub actual_bounds: Bounds,
    /// Displacement from expected to actual coordinates.
    pub offset: Offset,
}

/// How a pair of proposals is reported.
#[derive(Debug, Clone, Copy, PartialEq, Eq, Structural)]
pub enum PairOutcome {
    /// The pair matches at the global alignment: nothing to report.
    Unchanged,
    /// The content moved by the pair's offset.
    Moved,
    /// The content matches but changed size.
    Resized,
    /// The corresponding region changed appearance.
    Changed,
}

/// The report for a pair: unchanged when it matches well, has the same size, lies at the global
/// alignment and shows no residual; moved when it matches well at another offset that improves
/// on the alignment, with the same size and no residual; resized when it matches well with
/// another size; else changed.
pub open spec fn spec_classify_pair(
    expected: Bounds,
    actual: Bounds,
    alignment: Offset,
    verdict: PairVerdict,
    has_residual: bool,
) -> PairOutcome {
    let offset = spec_bounds_offset(expected, actual);
    let same_size = expected.width == actual.width && expected.height == actual.height;
    let good_match = !verdict.ambiguous && verdict.within_limit;
    let residual = same_size && has_residual;
    if good_match && same_size && offset == alignment && !residual {
        PairOutcome::Unchanged
    } else if good_match && offset != alignment && verdict.improves && same_size && !residual {
        PairOutcome::Moved
    } else if good_match && !same_size {
        PairOutcome::Resized
    } else {
        PairOutcome::Changed
    }
}

/// Decides how a pair of proposals is reported; `has_residual` says whether their pixel
/// differences hold a significant region (consulted only for same-size pairs).
pub fn classify_pair(
    expected: Bounds,
    actual: Bounds,
    alignment: Offset,
    verdict: PairVerdict,
    has_residual: bool,
) -> (result: PairOutcome)
    ensures
        result == spec_classify_pair(expected, actual, alignment, verdict, has_residual),
{
    let offset = bounds_offset(expected, actual);
    let same_size = expected.width == actual.width && expected.height == actual.height;
    let good_match = !verdict.ambiguous && verdict.within_limit;
    let residual = same_size && has_residual;
    let at_alignment = offset.x == alignment.x && offset.y == alignment.y;
    if good_match && same_size && at_alignment && !residual {
        PairOutcome::Unchanged
    } else if good_match && !at_alignment && verdict.improves && same_size && !residual {
        PairOutcome::Moved
    } else if good_match && !same_size {
        PairOutcome::Resized
    } else {
        PairOutcome::Changed
    }
}

/// How a pair is reported follows from its verdicts alone: it is resized exactly when it is
/// unambiguous, within the match limit and of another size; unchanged exactly when it is
/// unambiguous, within the limit, of the same size, displaced by the alignment and without a
/// residual; moved exactly when it is unambiguous, within the limit, of the same size, displaced
/// otherwise, improves on the alignment and has no residual. A pair that is ambiguous or outside
/// the match limit is always reported changed.
pub proof fn lemma_pair_outcome_conditions(
    expected: Bounds,
    actual: Bounds,
    alignment: Offset,
    verdict: PairVerdict,
    has_residual: bool,
)
    ensures
        ({
            let outcome = spec_classify_pair(expected, actual, alignment, verdict, has_residual);
            let matches_well = verdict.within_limit && !verdict.ambiguous;
            let same_size = expected.width == actual.width && expected.height == actual.height;
            let at_alignment = spec_bounds_offset(expected, actual) == alignment;
            &&& outcome == PairOutcome::Resized <==> matches_well && !same_size
            &&& outcome == PairOutcome::Unchanged <==> matches_well && same_size && at_alignment && !has_residual
            &&& outcome == PairOutcome::Moved <==> matches_well && same_size && !at_alignment && verdict.improves
                && !has_residual
            &&& !matches_well ==> outcome == PairOutcome::Changed
        }),
{
}

/// Every pair refers to existing proposals.
pub open spec fn pairs_in_range(pairs: Seq<PairVerdict>, expected_count: int, actual_count: int) -> bool {
    forall|i: int|
        0 <= i < pairs.len() ==> (#[trigger] pairs[i]).expected < expected_count && pairs[i].actual < actual_count
}

/// Some pair uses expected proposal `index`.
pub open spec fn expected_paired(pairs: Seq<PairVerdict>, index: int) -> bool {
    exists|i: int| 0 <= i < pairs.len() && (#[trigger] pairs[i]).expected == index
}

/// Some pair uses actual proposal `index`.
pub open spec fn actual_paired(pairs: Seq<PairVerdict>, index: int) -> bool {
    exists|i: int| 0 <= i < pairs.len() && (#[trigger] pairs[i]).actual == index
}

/// Positions below `n` that satisfy `pred`, ascending.
pub open spec fn positions_where(pred: spec_fn(int) -> bool, n: int) -> Seq<usize>
    decreases n,
{
    if n <= 0 {
        seq![]
    } else if pred(n - 1) {
        positions_where(pred, n - 1).push((n - 1) as usize)
    } else {
        positions_where(pred, n - 1)
    }
}

fn mark_pairs(pairs: &[PairVerdict], expected_count: usize, actual_count: usize) -> (result: (Vec<bool>, Vec<bool>))
    requires
        pairs_in_range(pairs@, expected_count as int, actual_count as int),
    ensures
        result.0@.len() == expected_count,
        result.1@.len() == actual_count,
        forall|k: int| 0 <= k < expected_count ==> #[trigger] result.0@[k] == expected_paired(pairs@, k),
        forall|k: int| 0 <= k < actual_count ==> #[trigger] result.1@[k] == actual_paired(pairs@, k),
{
    let mut expected_marks: Vec<bool> = Vec::new();
    let mut k: usize = 0;
    while k < expected_count
        invariant
            k <= expected_count,
            expected_marks@.len() == k,
            forall|m: int| 0 <= m < k ==> !#[trigger] expected_marks@[m],
        decreases expected_count - k,
    {
        expected_marks.push(false);
        k += 1;
    }
    let mut actual_marks: Vec<bool> = Vec::new();
    let mut k: usize = 0;
    while k < actual_count
        invariant
            k <= actual_count,
            actual_marks@.len() == k,
            forall|m: int| 0 <= m < k ==> !#[trigger] actual_marks@[m],
        decreases actual_count - k,
    {
        actual_marks.push(false);
        k += 1;
    }
    let mut i: usize = 0;
    while i < pairs.len()
        invariant
            i <= pairs@.len(),
            pairs_in_range(pairs@, expected_count as int, actual_count as int),
            expected_marks@.len() == expected_count,
            actual_marks@.len() == actual_count,
            forall|k: int|
                0 <= k < expected_count ==> #[trigger] expected_marks@[k] == exists|j: int|
                    0 <= j < i && (#[trigger] pairs@[j]).expected == k,
            forall|k: int|
                0 <= k < actual_count ==> #[trigger] actual_marks@[k] == exists|j: int|
                    0 <= j < i && (#[trigger] pairs@[j]).actual == k,
        decreases pairs@.len() - i,
    {
        let pair = pairs[i];
        assert(pairs@[i as int] == pair);
        expected_marks.set(pair.expected, true);
        actual_marks.set(pair.actual, true);
        proof {
            assert forall|k: int| 0 <= k < expected_count implies #[trigger] expected_marks@[k] == exists|j: int|
                0 <= j < i + 1 && (#[trigger] pairs@[j]).expected == k by {
                if exists|j: int| 0 <= j < i + 1 && (#[trigger] pairs@[j]).expected == k {
                    let j = choose|j: int| 0 <= j < i + 1 && (#[trigger] pairs@[j]).expected == k;
                    if j < i {
                        assert(exists|j: int| 0 <= j < i && (#[trigger] pairs@[j]).expected == k);
                    }
                }
            }
            assert forall|k: int| 0 <= k < actual_count implies #[trigger] actual_marks@[k] == exists|j: int|
                0 <= j < i + 1 && (#[trigger] pairs@[j]).actual == k by {
                if exists|j: int| 0 <= j < i + 1 && (#[trigger] pairs@[j]).actual == k {
                    let j = choose|j: int| 0 <= j < i + 1 && (#[trigger] pairs@[j]).actual == k;
                    if j < i {
                        assert(exists|j: int| 0 <= j < i && (#[trigger] pairs@[j]).actual == k);
                    }
                }
            }
        }
        i += 1;
    }
    (expected_marks, actual_marks)
}

fn unmarked(marks: &Vec<bool>) -> (result: Vec<usize>)
    ensures
        result@ == positions_where(|k: int| !marks@[k], marks@.len() as int),
{
    let mut found: Vec<usize> = Vec::new();
    let mut k: usize = 0;
    while k < marks.len()
        invariant
            k <= marks@.len(),
            found@ == positions_where(|m: int| !marks@[m], k as int),
        decreases marks@.len() - k,
    {
        if !marks[k] {
            found.push(k);
        }
        k += 1;
    }
    found
}

/// The expected proposals no pair uses (reported as removed) and the actual proposals no pair
/// uses (reported as added), each in ascending order.
pub fn unpaired(pairs: &[PairVerdict], expected_count: usize, actual_count: usize) -> (result: (Vec<usize>, Vec<usize>))
    requires
        pairs_in_range(pairs@, expected_count as int, actual_count as int),
    ensures
        result.0@ == positions_where(|k: int| !expected_paired(pairs@, k), expected_count as int),
        result.1@ == positions_where(|k: int| !actual_paired(pairs@, k), actual_count as int),
{
    let (expected_marks, actual_marks) = mark_pairs(pairs, expected_count, actual_count);
    let removed = unmarked(&expected_marks);
    let added = unmarked(&actual_marks);
    proof {
        lemma_positions_agree(|k: int| !expected_marks@[k], |k: int| !expected_paired(pairs@, k), expected_count as int);
        lemma_positions_agree(|k: int| !actual_marks@[k], |k: int| !actual_paired(pairs@, k), actual_count as int);
    }
    (removed, added)
}

proof fn lemma_positions_agree(p: spec_fn(int) -> bool, q: spec_fn(int) -> bool, n: int)
    requires
        forall|k: int| 0 <= k < n ==> #[trigger] p(k) == q(k),
    ensures
        positions_where(p, n) == positions_where(q, n),
    decreases n,
{
    if n > 0 {
        lemma_positions_agree(p, q, n - 1);
    }
}

/// The pair's proposals are displaced by exactly the alignment offset.
pub open spec fn at_alignment(pair: PairVerdict, expected: Seq<Proposal>, actual: Seq<Proposal>, alignment: Offset) -> bool {
    spec_bounds_offset(expected[pair.expected as int].bounds, actual[pair.actual as int].bounds) == alignment
}

/// Number of the first `n` pairs within the match limit whose offset is the alignment.
pub open spec fn supporting_count(pairs: Seq<PairVerdict>, expected: Seq<Proposal>, actual: Seq<Proposal>, alignment: Offset, n: int) -> nat
    decreases n,
{
    if n <= 0 {
        0
    } else {
        supporting_count(pairs, expected, actual, alignment, n - 1) + if pairs[n - 1].within_limit && at_alignment(
            pairs[n - 1],
            expected,
            actual,
            alignment,
        ) {
            1nat
        } else {
            0nat
        }
    }
}

/// Some pair supports the alignment distinctly: unambiguous, within the limit, at the offset.
pub open spec fn distinct_support(pairs: Seq<PairVerdict>, expected: Seq<Proposal>, actual: Seq<Proposal>, alignment: Offset) -> bool {
    exists|i: int|
        0 <= i < pairs.len() && !(#[trigger] pairs[i]).ambiguous && pairs[i].within_limit && at_alignment(
            pairs[i],
            expected,
            actual,
            alignment,
        )
}

/// A non-zero global alignment is unsupported when fewer than three quarters of the expected
/// proposals are matched at it (counts saturated), or when the expected proposals repeat one
/// pattern and no unambiguous match confirms it.
pub open spec fn spec_alignment_is_unsupported(
    alignment: Offset,
    pairs: Seq<PairVerdict>,
    expected: Seq<Proposal>,
    actual: Seq<Proposal>,
    repetitive: bool,
) -> bool {
    if (alignment.x == 0 && alignment.y == 0) || expected.len() == 0 {
        false
    } else {
        let supporting = supporting_count(pairs, expected, actual, alignment, pairs.len() as int);
        let saturated_support: int = if supporting * 4 > usize::MAX { usize::MAX as int } else { (supporting * 4) as int };
        let saturated_need: int = if expected.len() * 3 > usize::MAX { usize::MAX as int } else { (expected.len() * 3) as int };
        saturated_support < saturated_need || (repetitive && !distinct_support(pairs, expected, actual, alignment))
    }
}

/// Whether the global alignment lacks support from the proposal pairs; `repetitive` says
/// whether the expected proposals all look alike.
pub fn alignment_is_unsupported(
    alignment: Offset,
    pairs: &[PairVerdict],
    expected: &[Proposal],
    actual: &[Proposal],
    repetitive: bool,
) -> (result: bool)
    requires
        pairs_in_range(pairs@, expected@.len() as int, actual@.len() as int),
    ensures
        result == spec_alignment_is_unsupported(alignment, pairs@, expected@, actual@, repetitive),
{
    if (alignment.x == 0 && alignment.y == 0) || expected.len() == 0 {
        return false;
    }
    let mut supporting: usize = 0;
    let mut distinct = false;
    let mut i: usize = 0;
    while i < pairs.len()
        invariant
            i <= pairs@.len(),
            pairs_in_range(pairs@, expected@.len() as int, actual@.len() as int),
            supporting == supporting_count(pairs@, expected@, actual@, alignment, i as int),
            supporting <= i,
            distinct == exists|j: int|
                0 <= j < i && !(#[trigger] pairs@[j]).ambiguous && pairs@[j].within_limit && at_alignment(
                    pairs@[j],
                    expected@,
                    actual@,
                    alignment,
                ),
        decreases pairs@.len() - i,
    {
        let pair = pairs[i];
        assert(pairs@[i as int] == pair);
        let offset = bounds_offset(expected[pair.expected].bounds, actual[pair.actual].bounds);
        let matches = offset.x == alignment.x && offset.y == alignment.y;
        if pair.within_limit && matches {
            supporting += 1;
            if !pair.ambiguous {
                distinct = true;
            }
        }
        i += 1;
    }
    let support_weight = if supporting > usize::MAX / 4 { usize::MAX } else { supporting * 4 };
    let count = expected.len();
    let needed = if count > usize::MAX / 3 { usize::MAX } else { count * 3 };
    support_weight < needed || (repetitive && !distinct)
}

proof fn lemma_supporting_count_is_filter(
    pairs: Seq<PairVerdict>,
    expected: Seq<Proposal>,
    actual: Seq<Proposal>,
    alignment: Offset,
    n: int,
)
    requires
        0 <= n <= pairs.len(),
    ensures
        supporting_count(pairs, expected, actual, alignment, n) == pairs.take(n).filter(
            |pair: PairVerdict|
                pair.within_limit && spec_bounds_offset(expected[pair.expected as int].bounds, actual[pair.actual as int].bounds)
                    == alignment,
        ).len(),
    decreases n,
{
    reveal(Seq::filter);
    if n > 0 {
        lemma_supporting_count_is_filter(pairs, expected, actual, alignment, n - 1);
        assert(pairs.take(n).drop_last() =~= pairs.take(n - 1));
    }
}

/// A non-zero global alignment over some expected proposals is unsupported exactly when the
/// pairs within the match limit that are displaced by the alignment number fewer than three
/// quarters of the expected proposals, or when the proposals repeat one pattern and no such pair
/// is unambiguous. Pairs outside the match limit never count as support; a zero alignment, or
/// one with no expected proposals, is never unsupported.
pub proof fn lemma_alignment_support(
    alignment: Offset,
    pairs: Seq<PairVerdict>,
    expected: Seq<Proposal>,
    actual: Seq<Proposal>,
    repetitive: bool,
)
    requires
        expected.len() * 3 <= usize::MAX,
    ensures
        ({
            let supporting = pairs.filter(
                |pair: PairVerdict|
                    pair.within_limit && spec_bounds_offset(expected[pair.expected as int].bounds, actual[pair.actual as int].bounds)
                        == alignment,
            ).len();
            let confirmed = exists|i: int|
                0 <= i < pairs.len() && !(#[trigger] pairs[i]).ambiguous && pairs[i].within_limit && spec_bounds_offset(
                    expected[pairs[i].expected as int].bounds,
                    actual[pairs[i].actual as int].bounds,
                ) == alignment;
            spec_alignment_is_unsupported(alignment, pairs, expected, actual, repetitive) <==> (!(alignment.x == 0
                && alignment.y == 0) && expected.len() > 0 && (4 * supporting < 3 * expected.len() || (repetitive
                && !confirmed)))
        }),
{
    lemma_supporting_count_is_filter(pairs, expected, actual, alignment, pairs.len() as int);
    assert(pairs.take(pairs.len() as int) =~= pairs);
}

/// The bounds reported for a global movement: the unions of the expected and actual bounds of
/// the unambiguous pairs within the limit at the alignment; without such pairs, the expected
/// canvas mapped onto the actual canvas and back. `None` for a zero alignment or when the
/// mapped canvas misses the actual canvas.
pub open spec fn spec_global_movement(
    pairs: Seq<PairVerdict>,
    expected: Seq<Proposal>,
    actual: Seq<Proposal>,
    alignment: Offset,
    expected_size: ImageDimensions,
    actual_size: ImageDimensions,
) -> Option<(Bounds, Bounds)> {
    let support = pairs.filter(
        |pair: PairVerdict| !pair.ambiguous && pair.within_limit && at_alignment(pair, expected, actual, alignment),
    );
    if alignment.x == 0 && alignment.y == 0 {
        None
    } else if support.len() > 0 {
        Some(
            (
                spec_union_all(support.map_values(|pair: PairVerdict| expected[pair.expected as int].bounds), support.len() as int),
                spec_union_all(support.map_values(|pair: PairVerdict| actual[pair.actual as int].bounds), support.len() as int),
            ),
        )
    } else {
        let canvas = Bounds { x: 0, y: 0, width: expected_size.width, height: expected_size.height };
        match canvas.spec_translated_clipped(alignment, actual_size.width, actual_size.height) {
            None => None,
            Some(actual_bounds) => Some(
                (
                    match actual_bounds.spec_translated_clipped(spec_reversed(alignment), expected_size.width, expected_size.height) {
                        Some(back) => back,
                        None => canvas,
                    },
                    actual_bounds,
                ),
            ),
        }
    }
}

/// Where the globally moved content lies in each image, if a global movement is reported.
pub fn global_movement(
    pairs: &[PairVerdict],
    expected: &[Proposal],
    actual: &[Proposal],
    alignment: Offset,
    expected_size: ImageDimensions,
    actual_size: ImageDimensions,
) -> (result: Option<(Bounds, Bounds)>)
    requires
        pairs_in_range(pairs@, expected@.len() as int, actual@.len() as int),
    ensures
        result == spec_global_movement(pairs@, expected@, actual@, alignment, expected_size, actual_size),
{
    if alignment.x == 0 && alignment.y == 0 {
        return None;
    }
    let ghost pred = |pair: PairVerdict| !pair.ambiguous && pair.within_limit && at_alignment(pair, expected@, actual@, alignment);
    let mut expected_union: Option<Bounds> = None;
    let mut actual_union: Option<Bounds> = None;
    let mut i: usize = 0;
    proof {
        reveal(Seq::filter);
        assert(pairs@.take(0).filter(pred) =~= Seq::<PairVerdict>::empty());
    }
    while i < pairs.len()
        invariant
            i <= pairs@.len(),
            pairs_in_range(pairs@, expected@.len() as int, actual@.len() as int),
            pred == (|pair: PairVerdict| !pair.ambiguous && pair.within_limit && at_alignment(pair, expected@, actual@, alignment)),
            ({
                let support = pairs@.take(i as int).filter(pred);
                &&& (support.len() == 0 <==> expected_union is None)
                &&& (support.len() == 0 <==> actual_union is None)
                &&& support.len() > 0 ==> expected_union == Some(spec_union_all(
                    support.map_values(|pair: PairVerdict| expected@[pair.expected as int].bounds),
                    support.len() as int,
                ))
                &&& support.len() > 0 ==> actual_union == Some(spec_union_all(
                    support.map_values(|pair: PairVerdict| actual@[pair.actual as int].bounds),
                    support.len() as int,
                ))
            }),
        decreases pairs@.len() - i,
    {
        let pair = pairs[i];
        assert(pairs@[i as int] == pair);
        let ghost before = pairs@.take(i as int).filter(pred);
        proof {
            reveal(Seq::filter);
            assert(pairs@.take(i as int + 1).drop_last() =~= pairs@.take(i as int));
            assert(pairs@.take(i as int + 1).last() == pair);
            assert(pairs@.take(i as int + 1).filter(pred) == if pred(pair) { before.push(pair) } else { before });
        }
        let expected_bounds = expected[pair.expected].bounds;
        let actual_bounds = actual[pair.actual].bounds;
        let offset = bounds_offset(expected_bounds, actual_bounds);
        if !pair.ambiguous && pair.within_limit && offset.x == alignment.x && offset.y == alignment.y {
            proof {
                let after = before.push(pair);
                assert(pairs@.take(i as int + 1).filter(pred) == after);
                let ex = |p: PairVerdict| expected@[p.expected as int].bounds;
                let ac = |p: PairVerdict| actual@[p.actual as int].bounds;
                assert(after.map_values(ex) =~= before.map_values(ex).push(expected_bounds));
                assert(after.map_values(ac) =~= before.map_values(ac).push(actual_bounds));
                assert(after.map_values(ex).subrange(0, before.len() as int) =~= before.map_values(ex));
                lemma_union_all_prefix(after.map_values(ex), before.map_values(ex), before.len() as int);
                lemma_union_all_prefix(after.map_values(ac), before.map_values(ac), before.len() as int);
            }
            expected_union = match expected_union {
                Some(existing) => Some(union(existing, expected_bounds)),
                None => Some(expected_bounds),
            };
            actual_union = match actual_union {
                Some(existing) => Some(union(existing, actual_bounds)),
                None => Some(actual_bounds),
            };
        } else {
            proof {
                assert(pairs@.take(i as int + 1).filter(pred) == before);
            }
        }
        i += 1;
    }
    proof {
        assert(pairs@.take(pairs@.len() as int) =~= pairs@);
    }
    match (expected_union, actual_union) {
        (Some(expected_bounds), Some(actual_bounds)) => Some((expected_bounds, actual_bounds)),
        _ => {
            let canvas = Bounds { x: 0, y: 0, width: expected_size.width, height: expected_size.height };
            match canvas.translated_clipped(alignment, actual_size.width, actual_size.height) {
                None => None,
                Some(actual_bounds) => {
                    let back = match actual_bounds.translated_clipped(reversed(alignment), expected_size.width, expected_size.height) {
                        Some(back) => back,
                        None => canvas,
                    };
                    Some((back, actual_bounds))
                },
            }
        },
    }
}

proof fn lemma_union_all_prefix(longer: Seq<Bounds>, shorter: Seq<Bounds>, n: int)
    requires
        0 <= n < longer.len(),
        shorter.len() == n,
        forall|k: int| 0 <= k < n ==> longer[k] == shorter[k],
    ensures
        n > 0 ==> spec_union_all(longer, n) == spec_union_all(shorter, n),
        n == 0 ==> spec_union_all(longer, 1) == longer[0],
    decreases n,
{
    if n > 1 {
        lemma_union_all_prefix(longer, shorter.drop_last(), n - 1);
        assert(spec_union_all(shorter.drop_last(), n - 1) == spec_union_all(shorter, n - 1)) by {
            lemma_union_all_agree(shorter.drop_last(), shorter, n - 1);
        }
    }
}

proof fn lemma_union_all_agree(a: Seq<Bounds>, b: Seq<Bounds>, n: int)
    requires
        n <= a.len(),
        n <= b.len(),
        forall|k: int| 0 <= k < n ==> a[k] == b[k],
    ensures
        n > 0 ==> spec_union_all(a, n) == spec_union_all(b, n),
    decreases n,
{
    if n > 1 {
        lemma_union_all_agree(a, b, n - 1);
    }
}

/// Some movement's region in its image overlaps `bounds`.
pub open spec fn overlaps_any(regions: Seq<Bounds>, bounds: Bounds) -> bool {
    exists|i: int| 0 <= i < regions.len() && (#[trigger] regions[i]).spec_intersection(bounds) is Some
}

/// The proposals whose bounds overlap none of the regions, in order.
pub open spec fn proposals_outside(proposals: Seq<Proposal>, regions: Seq<Bounds>) -> Seq<Proposal> {
    proposals.filter(|p: Proposal| !overlaps_any(regions, p.bounds))
}

fn overlaps_region(regions: &Vec<Bounds>, bounds: Bounds) -> (result: bool)
    ensures
        result == overlaps_any(regions@, bounds),
{
    let mut i: usize = 0;
    while i < regions.len()
        invariant
            i <= regions@.len(),
            forall|j: int| 0 <= j < i ==> (#[trigger] regions@[j]).spec_intersection(bounds) is None,
        decreases regions@.len() - i,
    {
        if regions[i].intersection(bounds).is_some() {
            return true;
        }
        i += 1;
    }
    false
}

fn retain_outside(proposals: &mut Vec<Proposal>, regions: &Vec<Bounds>)
    ensures
        final(proposals)@ == proposals_outside(old(proposals)@, regions@),
{
    let ghost original = proposals@;
    let mut kept: Vec<Proposal> = Vec::new();
    let mut i: usize = 0;
    proof {
        reveal(Seq::filter);
        assert(original.take(0) =~= Seq::<Proposal>::empty());
    }
    while i < proposals.len()
        invariant
            i <= original.len(),
            proposals@ == original,
            kept@ == proposals_outside(original.take(i as int), regions@),
        decreases original.len() - i,
    {
        let proposal = proposals[i];
        proof {
            reveal(Seq::filter);
            assert(original.take(i as int + 1).drop_last() =~= original.take(i as int));
        }
        if !overlaps_region(regions, proposal.bounds) {
            kept.push(proposal);
        }
        i += 1;
    }
    proof {
        assert(original.take(original.len() as int) =~= original);
    }
    *proposals = kept;
}

/// Drops the expected proposals that overlap a movement's expected region and the actual
/// proposals that overlap a movement's actual region.
pub fn remove_moved_proposals(expected: &mut Vec<Proposal>, actual: &mut Vec<Proposal>, movements: &[LocalMovement])
    ensures
        final(expected)@ == proposals_outside(old(expected)@, movements@.map_values(|m: LocalMovement| m.expected_bounds)),
        final(actual)@ == proposals_outside(old(actual)@, movements@.map_values(|m: LocalMovement| m.actual_bounds)),
{
    let mut expected_regions: Vec<Bounds> = Vec::new();
    let mut actual_regions: Vec<Bounds> = Vec::new();
    let mut i: usize = 0;
    while i < movements.len()
        invariant
            i <= movements@.len(),
            expected_regions@ == movements@.take(i as int).map_values(|m: LocalMovement| m.expected_bounds),
            actual_regions@ == movements@.take(i as int).map_values(|m: LocalMovement| m.actual_bounds),
        decreases movements@.len() - i,
    {
        expected_regions.push(movements[i].expected_bounds);
        actual_regions.push(movements[i].actual_bounds);
        proof {
            assert(movements@.take(i as int + 1).map_values(|m: LocalMovement| m.expected_bounds) =~= movements@.take(
                i as int,
            ).map_values(|m: LocalMovement| m.expected_bounds).push(movements@[i as int].expected_bounds));
            assert(movements@.take(i as int + 1).map_values(|m: LocalMovement| m.actual_bounds) =~= movements@.take(
                i as int,
            ).map_values(|m: LocalMovement| m.actual_bounds).push(movements@[i as int].actual_bounds));
        }
        i += 1;
    }
    proof {
        assert(movements@.take(movements@.len() as int) =~= movements@);
    }
    retain_outside(expected, &expected_regions);
    retain_outside(actual, &actual_regions);
}

/// The movement mappings of detected local movements whose findings are appended from position
/// `first_order` on.
pub fn detected_movement_mappings(movements: &[LocalMovement], first_order: usize) -> (result: Vec<MovementMapping>)
    requires
        first_order + movements@.len() <= usize::MAX,
    ensures
        result@.len() == movements@.len(),
        forall|i: int|
            0 <= i < movements@.len() ==> #[trigger] result@[i] == (MovementMapping {
                bounds: movements@[i].expected_bounds,
                offset: movements@[i].offset,
                order: (first_order + i) as usize,
            }),
{
    let mut mappings: Vec<MovementMapping> = Vec::new();
    let mut i: usize = 0;
    while i < movements.len()
        invariant
            i <= movements@.len(),
            first_order + movements@.len() <= usize::MAX,
            mappings@.len() == i,
            forall|k: int|
                0 <= k < i ==> #[trigger] mappings@[k] == (MovementMapping {
                    bounds: movements@[k].expected_bounds,
                    offset: movements@[k].offset,
                    order: (first_order + k) as usize,
                }),
        decreases movements@.len() - i,
    {
        let movement = movements[i];
        mappings.push(MovementMapping { bounds: movement.expected_bounds, offset: movement.offset, order: first_order + i });
        i += 1;
    }
    mappings
}

/// Clears both proposal lists when pairing them would exceed the inspection budget; returns
/// whether the budget allowed pairing.
pub fn limit_proposals(expected: &mut Vec<Proposal>, actual: &mut Vec<Proposal>) -> (result: bool)
    ensures
        result == (old(expected)@.len() <= MAX_PROPOSALS_PER_SIDE && old(actual)@.len() <= MAX_PROPOSALS_PER_SIDE
            && old(expected)@.len() * old(actual)@.len() <= MAX_TOTAL_CANDIDATE_INSPECTIONS),
        result ==> final(expected)@ == old(expected)@ && final(actual)@ == old(actual)@,
        !result ==> final(expected)@.len() == 0 && final(actual)@.len() == 0,
{
    let available = within_pairing_budget(expected.len(), actual.len());
    if !available {
        expected.clear();
        actual.clear();
    }
    available
}

/// The message of a movement finding.
pub open spec fn movement_message_text(offset: Offset) -> Seq<char> {
    "Region appears "@ + offset_description(offset) + " instead of at its expected position."@
}

/// Describes content that moved by `offset`.
pub fn movement_message(offset: Offset) -> (result: String)
    ensures
        result@ == movement_message_text(offset),
{
    let mut text = String::from_str("Region appears ");
    push_offset_description(&mut text, offset);
    text.append(" instead of at its expected position.");
    proof {
        reveal_strlit("Region appears ");
        reveal_strlit(" instead of at its expected position.");
    }
    assert(text@ =~= movement_message_text(offset));
    text
}

/// `width` followed by `x` and `height`.
pub open spec fn size_text(width: u32, height: u32) -> Seq<char> {
    decimal(width as nat) + "x"@ + decimal(height as nat)
}

fn push_size(text: &mut String, width: u32, height: u32)
    ensures
        final(text)@ == old(text)@ + size_text(width, height),
{
    push_decimal(text, width as u64);
    text.append("x");
    push_decimal(text, height as u64);
    proof {
        reveal_strlit("x");
    }
    assert(text@ =~= old(text)@ + size_text(width, height));
}

/// The message of a resize finding.
pub open spec fn resized_message_text(expected: Bounds, actual: Bounds) -> Seq<char> {
    "Region resized from "@ + size_text(expected.width, expected.height) + " to "@ + size_text(actual.width, actual.height) + "."@
}

/// Describes a region that changed size.
pub fn resized_message(expected: Bounds, actual: Bounds) -> (result: String)
    ensures
        result@ == resized_message_text(expected, actual),
{
    let mut text = String::from_str("Region resized from ");
    push_size(&mut text, expected.width, expected.height);
    text.append(" to ");
    push_size(&mut text, actual.width, actual.height);
    text.append(".");
    proof {
        reveal_strlit("Region resized from ");
        reveal_strlit(" to ");
        reveal_strlit(".");
    }
    assert(text@ =~= resized_message_text(expected, actual));
    text
}

/// The message of a canvas-size finding.
pub open spec fn canvas_message_text(expected: ImageDimensions, actual: ImageDimensions) -> Seq<char> {
    "Canvas changed from "@ + size_text(expected.width, expected.height) + " to "@ + size_text(actual.width, actual.height) + "."@
}

/// Describes a change of canvas dimensions.
pub fn canvas_message(expected: ImageDimensions, actual: ImageDimensions) -> (result: String)
    ensures
        result@ == canvas_message_text(expected, actual),
{
    let mut text = String::from_str("Canvas changed from ");
    push_size(&mut text, expected.width, expected.height);
    text.append(" to ");
    push_size(&mut text, actual.width, actual.height);
    text.append(".");
    proof {
        reveal_strlit("Canvas changed from ");
        reveal_strlit(" to ");
        reveal_strlit(".");
    }
    assert(text@ =~= canvas_message_text(expected, actual));
    text
}

} // verus!
