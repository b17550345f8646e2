use vstd::prelude::*;

use std::collections::BTreeMap;

use crate::report::{Bounds, Offset};

verus! {

broadcast use vstd::std_specs::btree::group_btree_axioms, vstd::laws_cmp::group_laws_cmp;

/// Largest number of proposals on either side that pairing will consider.
pub const MAX_PROPOSALS_PER_SIDE: usize = 512;

/// Largest number of expected/actual proposal combinations that pairing will inspect.
pub const MAX_TOTAL_CANDIDATE_INSPECTIONS: usize = 65_536;

/// A rectangular region of distinctive content proposed for matching.
#[derive(Debug, Clone, Copy, PartialEq, Eq, Structural)]
pub struct Proposal {
    /// Region in its source image.
    pub bounds: Bounds,
}

/// Whether pairing the given numbers of proposals stays within the inspection budget.
pub fn within_pairing_budget(expected_count: usize, actual_count: usize) -> (result: bool)
    ensures
        result == (expected_count <= MAX_PROPOSALS_PER_SIDE && actual_count <= MAX_PROPOSALS_PER_SIDE
            && expected_count * actual_count <= MAX_TOTAL_CANDIDATE_INSPECTIONS),
{
    if expected_count > MAX_PROPOSALS_PER_SIDE || actual_count > MAX_PROPOSALS_PER_SIDE {
        return false;
    }
    assert(expected_count * actual_count <= 512 * 512) by (nonlinear_arith)
        requires
            expected_count <= 512,
            actual_count <= 512,
    ;
    expected_count * actual_count <= MAX_TOTAL_CANDIDATE_INSPECTIONS
}

/// Whether `offset` differs from the global alignment by at most `maximum` on each axis.
pub fn within_local_offset(offset: Offset, global: Offset, maximum: u32) -> (result: bool)
    ensures
        result == (-(maximum as int) <= offset.x - global.x <= maximum && -(maximum as int) <= offset.y
            - global.y <= maximum),
{
    let delta_x: i64 = offset.x as i64 - global.x as i64;
    let delta_y: i64 = offset.y as i64 - global.y as i64;
    -(maximum as i64) <= delta_x && delta_x <= maximum as i64 && -(maximum as i64) <= delta_y && delta_y
        <= maximum as i64
}

/// `left - right` clamped to the `i32` range.
pub open spec fn spec_signed_difference(left: int, right: int) -> i32 {
    let difference = left - right;
    if difference > i32::MAX { i32::MAX } else if difference < i32::MIN { i32::MIN } else { difference as i32 }
}

/// `left - right` as an `i32`, saturated at the type's limits.
pub fn signed_difference(left: u32, right: u32) -> (result: i32)
    ensures
        result == spec_signed_difference(left as int, right as int),
{
    let difference: i64 = left as i64 - right as i64;
    if difference > i32::MAX as i64 {
        i32::MAX
    } else if difference < i32::MIN as i64 {
        i32::MIN
    } else {
        difference as i32
    }
}

/// Displacement from the top-left corner of `expected` to that of `actual`, each axis clamped
/// to the `i32` range.
pub open spec fn spec_bounds_offset(expected: Bounds, actual: Bounds) -> Offset {
    Offset {
        x: spec_signed_difference(actual.x as int, expected.x as int),
        y: spec_signed_difference(actual.y as int, expected.y as int),
    }
}

/// Displacement from the top-left corner of `expected` to that of `actual`.
pub fn bounds_offset(expected: Bounds, actual: Bounds) -> (result: Offset)
    ensures
        result == spec_bounds_offset(expected, actual),
{
    Offset { x: signed_difference(actual.x, expected.x), y: signed_difference(actual.y, expected.y) }
}

/// Floor division by a positive divisor.
pub fn floor_div(value: i64, divisor: i64) -> (result: i64)
    requires
        divisor > 0,
        value > i64::MIN,
    ensures
        result * divisor <= value < (result + 1) * divisor,
{
    if value >= 0 {
        let quotient = value / divisor;
        assert(quotient * divisor <= value < (quotient + 1) * divisor) by (nonlinear_arith)
            requires
                quotient == value as int / divisor as int,
                value >= 0,
                divisor > 0,
        ;
        quotient
    } else {
        let magnitude: i64 = -value;
        let quotient = (magnitude - 1) / divisor;
        assert((-quotient - 1) * divisor <= value < (-quotient) * divisor) by (nonlinear_arith)
            requires
                quotient == (magnitude - 1) as int / divisor as int,
                magnitude == -value,
                magnitude >= 1,
                divisor > 0,
        ;
        -quotient - 1
    }
}

/// Grid cell of a proposal whose corner is at `(x, y)` in buckets of `size` pixels.
pub open spec fn cell_of(bounds: Bounds, size: int) -> (i64, i64) {
    ((bounds.x as int / size) as i64, (bounds.y as int / size) as i64)
}

/// Ascending positions among the first `n` proposals whose grid cell is `key`.
pub open spec fn bucket_members(proposals: Seq<Proposal>, size: int, key: (i64, i64), n: int) -> Seq<usize>
    decreases n,
{
    if n <= 0 {
        Seq::empty()
    } else if cell_of(proposals[n - 1].bounds, size) == key {
        bucket_members(proposals, size, key, n - 1).push((n - 1) as usize)
    } else {
        bucket_members(proposals, size, key, n - 1)
    }
}

/// Proposals grouped by grid cell for bounded neighbourhood lookups.
pub struct ProposalBuckets {
    size: i64,
    cells: BTreeMap<(i64, i64), Vec<usize>>,
}

impl ProposalBuckets {
    /// Side length of a grid cell.
    pub closed spec fn cell_size(self) -> int {
        self.size as int
    }

    /// Proposal positions stored under `key`, empty when the cell has none.
    pub closed spec fn members(self, key: (i64, i64)) -> Seq<usize> {
        if self.cells@.contains_key(key) { self.cells@[key]@ } else { Seq::empty() }
    }

    /// Groups proposals into square cells of `max(maximum_offset, 1)` pixels by their top-left
    /// corner.
    pub fn new(proposals: &[Proposal], maximum_offset: u32) -> (result: Self)
        ensures
            result.cell_size() == if maximum_offset == 0 { 1 } else { maximum_offset as int },
            forall|key: (i64, i64)|
                #[trigger] result.members(key) == bucket_members(proposals@, result.cell_size(), key, proposals@.len() as int),
    {
        let size: i64 = if maximum_offset == 0 { 1 } else { maximum_offset as i64 };
        let mut cells: BTreeMap<(i64, i64), Vec<usize>> = BTreeMap::new();
        let count = proposals.len();
        let mut index: usize = 0;
        while index < count
            invariant
                count == proposals@.len(),
                index <= count,
                size >= 1,
                forall|key: (i64, i64)|
                    #[trigger] bucket_members(proposals@, size as int, key, index as int) == if cells@.contains_key(key) {
                        cells@[key]@
                    } else {
                        Seq::empty()
                    },
            decreases count - index,
        {
            let bounds = proposals[index].bounds;
            let key = (floor_div(bounds.x as i64, size), floor_div(bounds.y as i64, size));
            proof {
                assert(key.0 == bounds.x as int / size as int) by (nonlinear_arith)
                    requires
                        key.0 * size <= bounds.x < (key.0 + 1) * size,
                        size > 0,
                        bounds.x >= 0,
                ;
                assert(key.1 == bounds.y as int / size as int) by (nonlinear_arith)
                    requires
                        key.1 * size <= bounds.y < (key.1 + 1) * size,
                        size > 0,
                        bounds.y >= 0,
                ;
            }
            let ghost before = cells@;
            let ghost old_members = if before.contains_key(key) { before[key]@ } else { Seq::<usize>::empty() };
            let mut members = match cells.remove(&key) {
                Some(existing) => existing,
                None => Vec::new(),
            };
            proof {
                assert(cells@ == before.remove(key));
                if before.contains_key(key) {
                    assert(members@ == before[key]@);
                } else {
                    assert(members@ == Seq::<usize>::empty());
                }
            }
            members.push(index);
            cells.insert(key, members);
            proof {
                assert(cell_of(bounds, size as int) == key);
                assert forall|k: (i64, i64)|
                    #[trigger] bucket_members(proposals@, size as int, k, index as int + 1) == if cells@.contains_key(k) {
                        cells@[k]@
                    } else {
                        Seq::empty()
                    } by {
                    assert(proposals@[index as int].bounds == bounds);
                    if k != key {
                        assert(bucket_members(proposals@, size as int, k, index as int + 1) == bucket_members(proposals@, size as int, k, index as int));
                    } else {
                        assert(bucket_members(proposals@, size as int, k, index as int) == old_members);
                        assert(bucket_members(proposals@, size as int, k, index as int + 1) == old_members.push(index));
                        assert(cells@[k]@ == old_members.push(index));
                    }
                }
            }
            index += 1;
        }
        ProposalBuckets { size, cells }
    }

    /// Proposals in the nine cells around the cell containing `(x, y)`, row by row from the
    /// cell above-left to the cell below-right, each cell in ascending proposal order.
    pub open spec fn spec_near(self, x: int, y: int) -> Seq<usize> {
        let cx = x / self.cell_size();
        let cy = y / self.cell_size();
        self.members(((cx - 1) as i64, (cy - 1) as i64)) + self.members((cx as i64, (cy - 1) as i64))
            + self.members(((cx + 1) as i64, (cy - 1) as i64)) + self.members(((cx - 1) as i64, cy as i64))
            + self.members((cx as i64, cy as i64)) + self.members(((cx + 1) as i64, cy as i64))
            + self.members(((cx - 1) as i64, (cy + 1) as i64)) + self.members((cx as i64, (cy + 1) as i64))
            + self.members(((cx + 1) as i64, (cy + 1) as i64))
    }

    fn append_cell(&self, out: &mut Vec<usize>, key: (i64, i64))
        ensures
            final(out)@ == old(out)@ + self.members(key),
    {
        match self.cells.get(&key) {
            Some(members) => {
                let mut index: usize = 0;
                while index < members.len()
                    invariant
                        index <= members@.len(),
                        members@ == self.members(key),
                        out@ == old(out)@ + members@.take(index as int),
                    decreases members@.len() - index,
                {
                    out.push(members[index]);
                    proof {
                        assert(members@.take(index as int + 1) =~= members@.take(index as int).push(members@[index as int]));
                    }
                    index += 1;
                }
                proof {
                    assert(members@.take(members@.len() as int) =~= members@);
                }
            },
            None => {
                assert(out@ =~= old(out)@ + self.members(key));
            },
        }
    }

    /// Proposals whose cells neighbour the cell containing `(x, y)`.
    pub fn near(&self, x: i64, y: i64) -> (result: Vec<usize>)
        requires
            self.cell_size() >= 1,
            i64::MIN < x < i64::MAX,
            i64::MIN < y < i64::MAX,
        ensures
            result@ == self.spec_near(x as int, y as int),
    {
        let center_x = floor_div(x, self.size);
        let center_y = floor_div(y, self.size);
        proof {
            assert(center_x == x as int / self.size as int) by (nonlinear_arith)
                requires
                    center_x * self.size <= x < (center_x + 1) * self.size,
                    self.size > 0,
            ;
            assert(center_y == y as int / self.size as int) by (nonlinear_arith)
                requires
                    center_y * self.size <= y < (center_y + 1) * self.size,
                    self.size > 0,
            ;
            assert(-0x8000_0000_0000_0000 < center_x < 0x7fff_ffff_ffff_ffff) by (nonlinear_arith)
                requires
                    center_x * self.size <= x < (center_x + 1) * self.size,
                    self.size >= 1,
                    i64::MIN < x < i64::MAX,
            ;
            assert(-0x8000_0000_0000_0000 < center_y < 0x7fff_ffff_ffff_ffff) by (nonlinear_arith)
                requires
                    center_y * self.size <= y < (center_y + 1) * self.size,
                    self.size >= 1,
                    i64::MIN < y < i64::MAX,
            ;
        }
        let mut result: Vec<usize> = Vec::new();
        self.append_cell(&mut result, (center_x - 1, center_y - 1));
        self.append_cell(&mut result, (center_x, center_y - 1));
        self.append_cell(&mut result, (center_x + 1, center_y - 1));
        self.append_cell(&mut result, (center_x - 1, center_y));
        self.append_cell(&mut result, (center_x, center_y));
        self.append_cell(&mut result, (center_x + 1, center_y));
        self.append_cell(&mut result, (center_x - 1, center_y + 1));
        self.append_cell(&mut result, (center_x, center_y + 1));
        self.append_cell(&mut result, (center_x + 1, center_y + 1));
        proof {
            assert(result@ =~= self.spec_near(x as int, y as int));
        }
        result
    }
}

/// Rankings as sequences of candidate positions.
pub open spec fn ranking_views(rankings: Seq<Vec<usize>>) -> Seq<Seq<usize>> {
    rankings.map_values(|ranking: Vec<usize>| ranking@)
}

/// Every ranking lists existing candidates, and every candidate's actual proposal has a ranking.
pub open spec fn rankings_valid(
    candidate_expected: Seq<usize>,
    candidate_actual: Seq<usize>,
    expected_rankings: Seq<Seq<usize>>,
    actual_rankings: Seq<Seq<usize>>,
) -> bool {
    &&& candidate_expected.len() == candidate_actual.len()
    &&& forall|c: int| 0 <= c < candidate_actual.len() ==> #[trigger] candidate_actual[c] < actual_rankings.len()
    &&& forall|e: int, k: int|
        0 <= e < expected_rankings.len() && 0 <= k < expected_rankings[e].len() ==> #[trigger] expected_rankings[e][k]
            < candidate_expected.len()
    &&& forall|a: int, k: int|
        0 <= a < actual_rankings.len() && 0 <= k < actual_rankings[a].len() ==> #[trigger] actual_rankings[a][k]
            < candidate_expected.len()
}

/// Mutually best candidates among the first `n` expected proposals: the best candidate of
/// expected proposal `e` is kept when `e` is also the best match of that candidate's actual
/// proposal; it is ambiguous when either ranking has a close runner-up.
pub open spec fn mutual_best(
    candidate_expected: Seq<usize>,
    candidate_actual: Seq<usize>,
    expected_rankings: Seq<Seq<usize>>,
    actual_rankings: Seq<Seq<usize>>,
    expected_close: Seq<bool>,
    actual_close: Seq<bool>,
    n: int,
) -> Seq<(usize, bool)>
    decreases n,
{
    if n <= 0 {
        seq![]
    } else {
        let previous = mutual_best(
            candidate_expected,
            candidate_actual,
            expected_rankings,
            actual_rankings,
            expected_close,
            actual_close,
            n - 1,
        );
        let e = n - 1;
        let ranking = expected_rankings[e];
        if ranking.len() == 0 {
            previous
        } else {
            let best = ranking[0];
            let a = candidate_actual[best as int] as int;
            if actual_rankings[a].len() > 0 && candidate_expected[actual_rankings[a][0] as int] == e {
                previous.push((best, expected_close[e] || actual_close[a]))
            } else {
                previous
            }
        }
    }
}

/// The mutually best candidate pairings, each with whether it is ambiguous.
pub fn mutual_best_pairs(
    candidate_expected: &[usize],
    candidate_actual: &[usize],
    expected_rankings: &Vec<Vec<usize>>,
    actual_rankings: &Vec<Vec<usize>>,
    expected_close: &[bool],
    actual_close: &[bool],
) -> (result: Vec<(usize, bool)>)
    requires
        rankings_valid(
            candidate_expected@,
            candidate_actual@,
            ranking_views(expected_rankings@),
            ranking_views(actual_rankings@),
        ),
        expected_close@.len() == expected_rankings@.len(),
        actual_close@.len() == actual_rankings@.len(),
    ensures
        result@ == mutual_best(
            candidate_expected@,
            candidate_actual@,
            ranking_views(expected_rankings@),
            ranking_views(actual_rankings@),
            expected_close@,
            actual_close@,
            expected_rankings@.len() as int,
        ),
{
    let ghost er = ranking_views(expected_rankings@);
    let ghost ar = ranking_views(actual_rankings@);
    let mut pairs: Vec<(usize, bool)> = Vec::new();
    let mut e: usize = 0;
    while e < expected_rankings.len()
        invariant
            e <= expected_rankings@.len(),
            er == ranking_views(expected_rankings@),
            ar == ranking_views(actual_rankings@),
            rankings_valid(candidate_expected@, candidate_actual@, er, ar),
            expected_close@.len() == expected_rankings@.len(),
            actual_close@.len() == actual_rankings@.len(),
            pairs@ == mutual_best(candidate_expected@, candidate_actual@, er, ar, expected_close@, actual_close@, e as int),
        decreases expected_rankings@.len() - e,
    {
        let ranking = &expected_rankings[e];
        assert(ranking@ == er[e as int]);
        if ranking.len() > 0 {
            let best = ranking[0];
            assert(best < candidate_expected@.len());
            let a = candidate_actual[best];
            assert(actual_rankings@[a as int]@ == ar[a as int]);
            let reverse = &actual_rankings[a];
            if reverse.len() > 0 {
                let back = reverse[0];
                assert(back < candidate_expected@.len());
                if candidate_expected[back] == e {
                    pairs.push((best, expected_close[e] || actual_close[a]));
                }
            }
        }
        e += 1;
    }
    pairs
}

/// Every ranking of an owner lists only that owner's candidates.
pub open spec fn rankings_grouped(owners: Seq<usize>, rankings: Seq<Seq<usize>>) -> bool {
    forall|o: int, k: int|
        0 <= o < rankings.len() && 0 <= k < rankings[o].len() ==> owners[#[trigger] rankings[o][k] as int] == o
}

proof fn lemma_mutual_best_members(
    candidate_expected: Seq<usize>,
    candidate_actual: Seq<usize>,
    expected_rankings: Seq<Seq<usize>>,
    actual_rankings: Seq<Seq<usize>>,
    expected_close: Seq<bool>,
    actual_close: Seq<bool>,
    n: int,
)
    requires
        rankings_valid(candidate_expected, candidate_actual, expected_rankings, actual_rankings),
        rankings_grouped(candidate_expected, expected_rankings),
        n <= expected_rankings.len(),
    ensures
        ({
            let pairs = mutual_best(candidate_expected, candidate_actual, expected_rankings, actual_rankings, expected_close, actual_close, n);
            &&& forall|i: int| 0 <= i < pairs.len() ==> {
                let c = #[trigger] pairs[i].0 as int;
                let a = candidate_actual[c] as int;
                &&& 0 <= c < candidate_expected.len()
                &&& candidate_expected[c] < n
                &&& actual_rankings[a].len() > 0
                &&& candidate_expected[actual_rankings[a][0] as int] == candidate_expected[c]
                &&& expected_rankings[candidate_expected[c] as int].len() > 0
                &&& expected_rankings[candidate_expected[c] as int][0] == c
                &&& pairs[i].1 == (expected_close[candidate_expected[c] as int] || actual_close[a])
            }
            &&& forall|i: int, j: int|
                0 <= i < j < pairs.len() ==> candidate_expected[(#[trigger] pairs[i]).0 as int] < candidate_expected[(
                #[trigger] pairs[j]).0 as int]
        }),
    decreases n,
{
    if n > 0 {
        lemma_mutual_best_members(
            candidate_expected,
            candidate_actual,
            expected_rankings,
            actual_rankings,
            expected_close,
            actual_close,
            n - 1,
        );
        let previous = mutual_best(
            candidate_expected,
            candidate_actual,
            expected_rankings,
            actual_rankings,
            expected_close,
            actual_close,
            n - 1,
        );
        let pairs = mutual_best(candidate_expected, candidate_actual, expected_rankings, actual_rankings, expected_close, actual_close, n);
        let e = n - 1;
        let ranking = expected_rankings[e];
        if ranking.len() > 0 {
            let best = ranking[0];
            assert(candidate_expected[ranking[0] as int] == e);
            let a = candidate_actual[best as int] as int;
            if actual_rankings[a].len() > 0 && candidate_expected[actual_rankings[a][0] as int] == e {
                let added = (best, expected_close[e] || actual_close[a]);
                assert(pairs == previous.push(added));
                assert forall|i: int| 0 <= i < pairs.len() implies {
                    let c = #[trigger] pairs[i].0 as int;
                    let a = candidate_actual[c] as int;
                    &&& 0 <= c < candidate_expected.len()
                    &&& candidate_expected[c] < n
                    &&& actual_rankings[a].len() > 0
                    &&& candidate_expected[actual_rankings[a][0] as int] == candidate_expected[c]
                    &&& expected_rankings[candidate_expected[c] as int].len() > 0
                    &&& expected_rankings[candidate_expected[c] as int][0] == c
                    &&& pairs[i].1 == (expected_close[candidate_expected[c] as int] || actual_close[a])
                } by {
                    if i < previous.len() {
                        assert(pairs[i] == previous[i]);
                    }
                }
                assert forall|i: int, j: int| 0 <= i < j < pairs.len() implies candidate_expected[(
                #[trigger] pairs[i]).0 as int] < candidate_expected[(#[trigger] pairs[j]).0 as int] by {
                    assert(pairs[i] == previous[i]);
                    if j < previous.len() {
                        assert(pairs[j] == previous[j]);
                    }
                }
            }
        }
    }
}

/// The mutually best pairings are one to one: no expected proposal and no actual proposal
/// appears in two of them.
pub proof fn lemma_mutual_best_one_to_one(
    candidate_expected: Seq<usize>,
    candidate_actual: Seq<usize>,
    expected_rankings: Seq<Seq<usize>>,
    actual_rankings: Seq<Seq<usize>>,
    expected_close: Seq<bool>,
    actual_close: Seq<bool>,
    i: int,
    j: int,
)
    requires
        rankings_valid(candidate_expected, candidate_actual, expected_rankings, actual_rankings),
        rankings_grouped(candidate_expected, expected_rankings),
        0 <= i < j < mutual_best(
            candidate_expected,
            candidate_actual,
            expected_rankings,
            actual_rankings,
            expected_close,
            actual_close,
            expected_rankings.len() as int,
        ).len(),
    ensures
        ({
            let pairs = mutual_best(
                candidate_expected,
                candidate_actual,
                expected_rankings,
                actual_rankings,
                expected_close,
                actual_close,
                expected_rankings.len() as int,
            );
            &&& candidate_expected[pairs[i].0 as int] != candidate_expected[pairs[j].0 as int]
            &&& candidate_actual[pairs[i].0 as int] != candidate_actual[pairs[j].0 as int]
        }),
{
    lemma_mutual_best_members(
        candidate_expected,
        candidate_actual,
        expected_rankings,
        actual_rankings,
        expected_close,
        actual_close,
        expected_rankings.len() as int,
    );
}

/// Each mutually best pairing is the best candidate of its expected proposal and the best
/// match of its actual proposal, and it is ambiguous exactly when the expected proposal's
/// ranking or the actual proposal's ranking has a close runner-up.
pub proof fn lemma_mutual_best_pairings(
    candidate_expected: Seq<usize>,
    candidate_actual: Seq<usize>,
    expected_rankings: Seq<Seq<usize>>,
    actual_rankings: Seq<Seq<usize>>,
    expected_close: Seq<bool>,
    actual_close: Seq<bool>,
    i: int,
)
    requires
        rankings_valid(candidate_expected, candidate_actual, expected_rankings, actual_rankings),
        rankings_grouped(candidate_expected, expected_rankings),
        0 <= i < mutual_best(
            candidate_expected,
            candidate_actual,
            expected_rankings,
            actual_rankings,
            expected_close,
            actual_close,
            expected_rankings.len() as int,
        ).len(),
    ensures
        ({
            let pairing = mutual_best(
                candidate_expected,
                candidate_actual,
                expected_rankings,
                actual_rankings,
                expected_close,
                actual_close,
                expected_rankings.len() as int,
            )[i];
            let c = pairing.0 as int;
            let e = candidate_expected[c] as int;
            let a = candidate_actual[c] as int;
            &&& 0 <= c < candidate_expected.len()
            &&& expected_rankings[e].len() > 0 && expected_rankings[e][0] == c
            &&& actual_rankings[a].len() > 0 && candidate_expected[actual_rankings[a][0] as int] == e
            &&& pairing.1 == (expected_close[e] || actual_close[a])
        }),
{
    lemma_mutual_best_members(
        candidate_expected,
        candidate_actual,
        expected_rankings,
        actual_rankings,
        expected_close,
        actual_close,
        expected_rankings.len() as int,
    );
}

/// Every expected proposal whose best candidate's actual proposal ranks it first is paired:
/// that candidate appears among the mutually best pairings.
pub proof fn lemma_mutual_best_complete(
    candidate_expected: Seq<usize>,
    candidate_actual: Seq<usize>,
    expected_rankings: Seq<Seq<usize>>,
    actual_rankings: Seq<Seq<usize>>,
    expected_close: Seq<bool>,
    actual_close: Seq<bool>,
    e: int,
)
    requires
        rankings_valid(candidate_expected, candidate_actual, expected_rankings, actual_rankings),
        0 <= e < expected_rankings.len(),
        expected_rankings[e].len() > 0,
        actual_rankings[candidate_actual[expected_rankings[e][0] as int] as int].len() > 0,
        candidate_expected[actual_rankings[candidate_actual[expected_rankings[e][0] as int] as int][0] as int] == e,
    ensures
        exists|i: int|
            0 <= i < mutual_best(
                candidate_expected,
                candidate_actual,
                expected_rankings,
                actual_rankings,
                expected_close,
                actual_close,
                expected_rankings.len() as int,
            ).len() && (#[trigger] mutual_best(
                candidate_expected,
                candidate_actual,
                expected_rankings,
                actual_rankings,
                expected_close,
                actual_close,
                expected_rankings.len() as int,
            )[i]).0 == expected_rankings[e][0],
{
    lemma_mutual_best_keeps(candidate_expected, candidate_actual, expected_rankings, actual_rankings, expected_close, actual_close, e + 1, expected_rankings.len() as int);
    let pairs = mutual_best(candidate_expected, candidate_actual, expected_rankings, actual_rankings, expected_close, actual_close, e + 1);
    let all = mutual_best(candidate_expected, candidate_actual, expected_rankings, actual_rankings, expected_close, actual_close, expected_rankings.len() as int);
    let i = pairs.len() - 1;
    assert(all[i] == pairs[i]);
}

/// Pairings found among the first `m` expected proposals stay, in place, among the first `n`.
proof fn lemma_mutual_best_keeps(
    candidate_expected: Seq<usize>,
    candidate_actual: Seq<usize>,
    expected_rankings: Seq<Seq<usize>>,
    actual_rankings: Seq<Seq<usize>>,
    expected_close: Seq<bool>,
    actual_close: Seq<bool>,
    m: int,
    n: int,
)
    requires
        0 <= m <= n,
    ensures
        mutual_best(candidate_expected, candidate_actual, expected_rankings, actual_rankings, expected_close, actual_close, m)
            .len() <= mutual_best(candidate_expected, candidate_actual, expected_rankings, actual_rankings, expected_close, actual_close, n).len(),
        forall|i: int|
            0 <= i < mutual_best(candidate_expected, candidate_actual, expected_rankings, actual_rankings, expected_close, actual_close, m).len()
                ==> #[trigger] mutual_best(candidate_expected, candidate_actual, expected_rankings, actual_rankings, expected_close, actual_close, n)[i]
                == mutual_best(candidate_expected, candidate_actual, expected_rankings, actual_rankings, expected_close, actual_close, m)[i],
    decreases n - m,
{
    if m < n {
        lemma_mutual_best_keeps(candidate_expected, candidate_actual, expected_rankings, actual_rankings, expected_close, actual_close, m, n - 1);
        let previous = mutual_best(candidate_expected, candidate_actual, expected_rankings, actual_rankings, expected_close, actual_close, n - 1);
        let current = mutual_best(candidate_expected, candidate_actual, expected_rankings, actual_rankings, expected_close, actual_close, n);
        assert forall|i: int| 0 <= i < previous.len() implies current[i] == previous[i] by {}
    }
}

/// Positions below `n` whose owner is `owner`, ascending.
pub open spec fn owned_by(owners: Seq<usize>, owner: int, n: int) -> Seq<usize>
    decreases n,
{
    if n <= 0 {
        seq![]
    } else if owners[n - 1] == owner {
        owned_by(owners, owner, n - 1).push((n - 1) as usize)
    } else {
        owned_by(owners, owner, n - 1)
    }
}

proof fn lemma_owned_by_members(owners: Seq<usize>, owner: int, n: int)
    requires
        n <= owners.len(),
        owners.len() <= usize::MAX,
    ensures
        forall|k: int|
            0 <= k < owned_by(owners, owner, n).len() ==> #[trigger] owned_by(owners, owner, n)[k] < n
                && owners[owned_by(owners, owner, n)[k] as int] == owner,
    decreases n,
{
    if n > 0 {
        lemma_owned_by_members(owners, owner, n - 1);
        let previous = owned_by(owners, owner, n - 1);
        let current = owned_by(owners, owner, n);
        assert forall|k: int| 0 <= k < current.len() implies #[trigger] current[k] < n && owners[current[k] as int] == owner by {
            if owners[n - 1] == owner {
                assert(current == previous.push((n - 1) as usize));
            } else {
                assert(current == previous);
            }
            if k < previous.len() {
                assert(current[k] == previous[k]);
            }
        }
    }
}

/// For each of `count` owners, the candidate positions it owns, ascending.
pub fn group_by_owner(owners: &[usize], count: usize) -> (result: Vec<Vec<usize>>)
    requires
        forall|c: int| 0 <= c < owners@.len() ==> #[trigger] owners@[c] < count,
    ensures
        result@.len() == count,
        forall|o: int| 0 <= o < count ==> (#[trigger] result@[o])@ == owned_by(owners@, o, owners@.len() as int),
        rankings_grouped(owners@, ranking_views(result@)),
{
    let mut groups: Vec<Vec<usize>> = Vec::new();
    let mut o: usize = 0;
    while o < count
        invariant
            o <= count,
            groups@.len() == o,
            forall|k: int| 0 <= k < o ==> (#[trigger] groups@[k])@ == owned_by(owners@, k, owners@.len() as int),
        decreases count - o,
    {
        let mut group: Vec<usize> = Vec::new();
        let mut c: usize = 0;
        while c < owners.len()
            invariant
                c <= owners@.len(),
                group@ == owned_by(owners@, o as int, c as int),
            decreases owners@.len() - c,
        {
            if owners[c] == o {
                group.push(c);
            }
            c += 1;
        }
        groups.push(group);
        o += 1;
    }
    let owner_count = owners.len();
    proof {
        assert(owners@.len() == owner_count);
        assert forall|g: int, k: int|
            0 <= g < ranking_views(groups@).len() && 0 <= k < ranking_views(groups@)[g].len() implies owners@[
            #[trigger] ranking_views(groups@)[g][k] as int] == g by {
            lemma_owned_by_members(owners@, g, owners@.len() as int);
            assert(ranking_views(groups@)[g] == groups@[g]@);
        }
    }
    groups
}

} // verus!
