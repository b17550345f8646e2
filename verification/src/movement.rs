use vstd::prelude::*;

use crate::geometry::{nearby, spec_nearby, spec_union, translated, union};
use crate::mapping::MovementMapping;
use crate::report::{Bounds, Offset, SizeError};
use crate::text::{decimal, push_decimal, push_signed_decimal, signed_decimal};

verus! {

/// Movements with the same offset closer than this are coalesced.
pub const MERGE_GAP: u32 = 10;

/// Where a finding lies in each image.
#[derive(Debug, Clone, Copy, PartialEq, Eq, Structural)]
pub struct FindingBounds {
    /// The finding's region in expected coordinates.
    pub expected_bounds: Option<Bounds>,
    /// The finding's region in actual coordinates.
    pub actual_bounds: Option<Bounds>,
}

/// Absolute value of a mathematical integer.
pub open spec fn magnitude_of(value: int) -> int {
    if value < 0 { -value } else { value }
}

/// Human-readable direction of a displacement: a distance right, left, down or up for
/// axis-aligned offsets, else the offset itself.
pub open spec fn offset_description(offset: Offset) -> Seq<char> {
    if offset.y == 0 && offset.x > 0 {
        decimal(offset.x as nat) + " px right"@
    } else if offset.y == 0 {
        decimal(magnitude_of(offset.x as int) as nat) + " px left"@
    } else if offset.x == 0 && offset.y > 0 {
        decimal(offset.y as nat) + " px down"@
    } else if offset.x == 0 {
        decimal(magnitude_of(offset.y as int) as nat) + " px up"@
    } else {
        "at offset ("@ + signed_decimal(offset.x as int) + ", "@ + signed_decimal(offset.y as int) + ")"@
    }
}

/// Appends the description of a displacement.
pub fn push_offset_description(out: &mut String, offset: Offset)
    ensures
        final(out)@ == old(out)@ + offset_description(offset),
{
    proof {
        reveal_strlit(" px right");
        reveal_strlit(" px left");
        reveal_strlit(" px down");
        reveal_strlit(" px up");
        reveal_strlit("at offset (");
        reveal_strlit(", ");
        reveal_strlit(")");
    }
    if offset.y == 0 && offset.x > 0 {
        push_decimal(out, offset.x as u64);
        out.append(" px right");
    } else if offset.y == 0 {
        push_decimal(out, (-(offset.x as i64)) as u64);
        out.append(" px left");
    } else if offset.x == 0 && offset.y > 0 {
        push_decimal(out, offset.y as u64);
        out.append(" px down");
    } else if offset.x == 0 {
        push_decimal(out, (-(offset.y as i64)) as u64);
        out.append(" px up");
    } else {
        out.append("at offset (");
        push_signed_decimal(out, offset.x as i64);
        out.append(", ");
        push_signed_decimal(out, offset.y as i64);
        out.append(")");
    }
    assert(out@ =~= old(out)@ + offset_description(offset));
}

/// Describes a displacement.
pub fn describe_offset(offset: Offset) -> (result: String)
    ensures
        result@ == offset_description(offset),
{
    let mut text = String::new();
    push_offset_description(&mut text, offset);
    assert(text@ =~= offset_description(offset));
    text
}

/// The message of a finding that absorbed an adjacent movement with the same offset.
pub open spec fn merged_message_text(offset: Offset) -> Seq<char> {
    "Adjacent visual fragments appear "@ + offset_description(offset) + " as one region."@
}

/// Describes a finding that absorbed an adjacent movement with the same offset.
pub fn merged_message(offset: Offset) -> (result: String)
    ensures
        result@ == merged_message_text(offset),
{
    let mut text = String::from_str("Adjacent visual fragments appear ");
    push_offset_description(&mut text, offset);
    text.append(" as one region.");
    proof {
        reveal_strlit("Adjacent visual fragments appear ");
        reveal_strlit(" as one region.");
    }
    assert(text@ =~= merged_message_text(offset));
    text
}

/// A rectangle translated without a canvas limit, unchanged when nothing of it lands at
/// non-negative coordinates.
pub open spec fn spec_translated(bounds: Bounds, offset: Offset) -> Bounds {
    match bounds.spec_translated_clipped(offset, u32::MAX, u32::MAX) {
        Some(moved) => moved,
        None => bounds,
    }
}

/// The movements and findings while adjacent movements are being coalesced: which movements
/// and findings have been absorbed, and the merges made so far (absorbing, absorbed).
pub struct CoalesceState {
    pub movements: Seq<MovementMapping>,
    pub findings: Seq<FindingBounds>,
    pub removed: Seq<bool>,
    pub removed_findings: Seq<bool>,
    pub merges: Seq<(usize, usize)>,
}

/// Movement `right` is still present, has the same offset as `left`, and lies near it.
pub open spec fn mergeable(s: CoalesceState, left: int, right: int) -> bool {
    &&& !s.removed[right]
    &&& s.movements[left].offset == s.movements[right].offset
    &&& spec_nearby(s.movements[left].bounds, s.movements[right].bounds, MERGE_GAP)
}

/// Movement `left` absorbs movement `right` when they are mergeable: its bounds become the
/// union, its finding takes the union of both expected and actual regions (a missing actual
/// region standing in as the merged bounds translated by the offset), and `right` with its
/// finding is marked absorbed.
pub open spec fn merge_step(s: CoalesceState, left: int, right: int) -> CoalesceState {
    if !mergeable(s, left, right) {
        s
    } else {
        let l = s.movements[left];
        let r = s.movements[right];
        let expected_bounds = spec_union(l.bounds, r.bounds);
        let fallback = spec_translated(expected_bounds, l.offset);
        let left_actual = match s.findings[l.order as int].actual_bounds {
            Some(b) => b,
            None => fallback,
        };
        let right_actual = match s.findings[r.order as int].actual_bounds {
            Some(b) => b,
            None => fallback,
        };
        CoalesceState {
            movements: s.movements.update(left, MovementMapping { bounds: expected_bounds, offset: l.offset, order: l.order }),
            findings: s.findings.update(
                l.order as int,
                FindingBounds { expected_bounds: Some(expected_bounds), actual_bounds: Some(spec_union(left_actual, right_actual)) },
            ),
            removed: s.removed.update(right, true),
            removed_findings: s.removed_findings.update(r.order as int, true),
            merges: s.merges.push((left as usize, right as usize)),
        }
    }
}

/// Movement `left` considers, in order, every later movement before `right`.
pub open spec fn merge_row(s: CoalesceState, left: int, right: int) -> CoalesceState
    decreases right - left,
{
    if right <= left + 1 {
        s
    } else {
        merge_step(merge_row(s, left, right - 1), left, right - 1)
    }
}

/// Each of the first `left` movements that is still present considers every later movement.
pub open spec fn merge_rows(s: CoalesceState, left: int) -> CoalesceState
    decreases left,
{
    if left <= 0 {
        s
    } else {
        let previous = merge_rows(s, left - 1);
        if previous.removed[left - 1] {
            previous
        } else {
            merge_row(previous, left - 1, previous.movements.len() as int)
        }
    }
}

/// The state before any merge.
pub open spec fn initial_state(movements: Seq<MovementMapping>, findings: Seq<FindingBounds>) -> CoalesceState {
    CoalesceState {
        movements,
        findings,
        removed: Seq::new(movements.len(), |i: int| false),
        removed_findings: Seq::new(findings.len(), |i: int| false),
        merges: seq![],
    }
}

/// The state after every movement has considered every later one.
pub open spec fn coalesced(movements: Seq<MovementMapping>, findings: Seq<FindingBounds>) -> CoalesceState {
    merge_rows(initial_state(movements, findings), movements.len() as int)
}

/// Number of findings before position `o` that were not absorbed.
pub open spec fn kept_before(removed: Seq<bool>, o: int) -> int
    decreases o,
{
    if o <= 0 {
        0
    } else {
        kept_before(removed, o - 1) + if removed[o - 1] { 0int } else { 1int }
    }
}

/// The first `n` findings that were not absorbed.
pub open spec fn retained_findings(findings: Seq<FindingBounds>, removed: Seq<bool>, n: int) -> Seq<FindingBounds>
    decreases n,
{
    if n <= 0 {
        seq![]
    } else {
        let previous = retained_findings(findings, removed, n - 1);
        if removed[n - 1] {
            previous
        } else {
            previous.push(findings[n - 1])
        }
    }
}

/// The first `n` movements that were not absorbed, each pointing at its finding's new position.
pub open spec fn retained_movements(s: CoalesceState, n: int) -> Seq<MovementMapping>
    decreases n,
{
    if n <= 0 {
        seq![]
    } else {
        let previous = retained_movements(s, n - 1);
        let m = s.movements[n - 1];
        if s.removed[n - 1] {
            previous
        } else {
            previous.push(
                MovementMapping { bounds: m.bounds, offset: m.offset, order: kept_before(s.removed_findings, m.order as int) as usize },
            )
        }
    }
}

/// Every movement points at its own finding.
pub open spec fn orders_valid(movements: Seq<MovementMapping>, finding_count: int) -> bool {
    &&& forall|i: int| 0 <= i < movements.len() ==> (#[trigger] movements[i]).order < finding_count
    &&& forall|i: int, j: int|
        0 <= i < j < movements.len() ==> (#[trigger] movements[i]).order != (#[trigger] movements[j]).order
}

/// The exec state as a coalescing state.
pub open spec fn state_of(
    movements: Seq<MovementMapping>,
    findings: Seq<FindingBounds>,
    removed: Seq<bool>,
    removed_findings: Seq<bool>,
    merges: Seq<(usize, usize)>,
) -> CoalesceState {
    CoalesceState { movements, findings, removed, removed_findings, merges }
}

/// Shape facts that every coalescing state reached from `start` keeps.
pub open spec fn keeps_shape(s: CoalesceState, start: Seq<MovementMapping>, finding_count: int) -> bool {
    &&& s.movements.len() == start.len()
    &&& s.removed.len() == start.len()
    &&& s.findings.len() == finding_count
    &&& s.removed_findings.len() == finding_count
    &&& forall|i: int|
        0 <= i < start.len() ==> (#[trigger] s.movements[i]).order == start[i].order && s.movements[i].offset
            == start[i].offset
    &&& forall|o: int|
        0 <= o < finding_count && #[trigger] s.removed_findings[o] ==> exists|j: int|
            0 <= j < start.len() && #[trigger] s.removed[j] && start[j].order == o
    &&& merges_join_one_offset(s.merges, start)
}

/// Every merge joins an earlier movement with a later one of the same offset.
pub open spec fn merges_join_one_offset(merges: Seq<(usize, usize)>, movements: Seq<MovementMapping>) -> bool {
    forall|k: int|
        0 <= k < merges.len() ==> {
            let (l, r) = #[trigger] merges[k];
            &&& l < r < movements.len()
            &&& movements[l as int].offset == movements[r as int].offset
        }
}

fn false_flags(n: usize) -> (result: Vec<bool>)
    ensures
        result@ == Seq::new(n as nat, |i: int| false),
{
    let mut flags: Vec<bool> = Vec::new();
    let mut k: usize = 0;
    while k < n
        invariant
            k <= n,
            flags@ == Seq::new(k as nat, |i: int| false),
        decreases n - k,
    {
        flags.push(false);
        k += 1;
        assert(flags@ =~= Seq::new(k as nat, |i: int| false));
    }
    flags
}

proof fn lemma_kept_before_monotone(removed: Seq<bool>, a: int, b: int)
    requires
        0 <= a <= b,
    ensures
        0 <= kept_before(removed, a) <= a,
        kept_before(removed, a) <= kept_before(removed, b),
        a < b && !removed[a] ==> kept_before(removed, a) < kept_before(removed, b),
    decreases b - a, a,
{
    if a < b {
        lemma_kept_before_monotone(removed, a, b - 1);
    } else if a > 0 {
        lemma_kept_before_monotone(removed, a - 1, a - 1);
    }
}

/// A present movement's finding was not absorbed.
proof fn lemma_present_finding_kept(s: CoalesceState, start: Seq<MovementMapping>, m: int, i: int)
    requires
        keeps_shape(s, start, m),
        orders_valid(start, m),
        0 <= i < start.len(),
        !s.removed[i],
    ensures
        !s.removed_findings[start[i].order as int],
{
    let o = start[i].order as int;
    if s.removed_findings[o] {
        let j = choose|j: int| 0 <= j < start.len() && #[trigger] s.removed[j] && start[j].order == o;
        if j < i {
            assert(start[j].order != start[i].order);
        } else if i < j {
            assert(start[i].order != start[j].order);
        }
    }
}

proof fn lemma_retained_orders(s: CoalesceState, start: Seq<MovementMapping>, m: int, n: int)
    requires
        keeps_shape(s, start, m),
        orders_valid(start, m),
        0 <= n <= start.len(),
    ensures
        forall|k: int|
            0 <= k < retained_movements(s, n).len() ==> exists|i: int|
                0 <= i < n && !s.removed[i] && (#[trigger] retained_movements(s, n)[k]).order == kept_before(
                    s.removed_findings,
                    start[i].order as int,
                ),
        orders_valid(retained_movements(s, n), kept_before(s.removed_findings, m)),
    decreases n,
{
    if n > 0 {
        lemma_retained_orders(s, start, m, n - 1);
        let previous = retained_movements(s, n - 1);
        let current = retained_movements(s, n);
        if !s.removed[n - 1] {
            let o = start[n - 1].order as int;
            lemma_present_finding_kept(s, start, m, n - 1);
            lemma_kept_before_monotone(s.removed_findings, o, m);
            assert(s.movements[n - 1].order == start[n - 1].order);
            assert(current == previous.push(
                MovementMapping {
                    bounds: s.movements[n - 1].bounds,
                    offset: s.movements[n - 1].offset,
                    order: kept_before(s.removed_findings, o) as usize,
                },
            ));
            assert forall|k: int| 0 <= k < current.len() implies exists|i: int|
                0 <= i < n && !s.removed[i] && (#[trigger] current[k]).order == kept_before(
                    s.removed_findings,
                    start[i].order as int,
                ) by {
                if k < previous.len() {
                    assert(current[k] == previous[k]);
                } else {
                    assert(current[k].order == kept_before(s.removed_findings, start[n - 1].order as int));
                }
            }
            assert forall|k: int| 0 <= k < current.len() implies (#[trigger] current[k]).order < kept_before(
                s.removed_findings,
                m,
            ) by {
                if k < previous.len() {
                    assert(current[k] == previous[k]);
                }
            }
            assert forall|a: int, b: int| 0 <= a < b < current.len() implies (#[trigger] current[a]).order
                != (#[trigger] current[b]).order by {
                assert(current[a] == previous[a]);
                if b < previous.len() {
                    assert(current[b] == previous[b]);
                } else {
                    let i = choose|i: int|
                        0 <= i < n - 1 && !s.removed[i] && (#[trigger] previous[a]).order == kept_before(
                            s.removed_findings,
                            start[i].order as int,
                        );
                    let oi = start[i].order as int;
                    lemma_present_finding_kept(s, start, m, i);
                    assert(start[i].order != start[n - 1].order);
                    if oi < o {
                        lemma_kept_before_monotone(s.removed_findings, oi, o);
                    } else {
                        lemma_kept_before_monotone(s.removed_findings, o, oi);
                    }
                }
            }
        } else {
            assert(current == previous);
        }
    }
}

/// Every merge so far has marked exactly one movement and one finding as absorbed.
pub open spec fn absorbed_in_pairs(s: CoalesceState) -> bool {
    &&& s.removed.len() - kept_before(s.removed, s.removed.len() as int) == s.merges.len()
    &&& s.removed_findings.len() - kept_before(s.removed_findings, s.removed_findings.len() as int) == s.merges.len()
}

/// Positions below `n` whose flag is clear, in increasing order.
pub open spec fn kept_positions(removed: Seq<bool>, n: int) -> Seq<int>
    decreases n,
{
    if n <= 0 {
        seq![]
    } else {
        let previous = kept_positions(removed, n - 1);
        if removed[n - 1] {
            previous
        } else {
            previous.push(n - 1)
        }
    }
}

proof fn lemma_kept_before_agree(a: Seq<bool>, b: Seq<bool>, n: int)
    requires
        forall|j: int| 0 <= j < n ==> a[j] == b[j],
    ensures
        kept_before(a, n) == kept_before(b, n),
    decreases n,
{
    if n > 0 {
        lemma_kept_before_agree(a, b, n - 1);
    }
}

proof fn lemma_kept_before_mark(flags: Seq<bool>, i: int, n: int)
    requires
        0 <= i < n <= flags.len(),
        !flags[i],
    ensures
        kept_before(flags.update(i, true), n) == kept_before(flags, n) - 1,
    decreases n,
{
    if n - 1 == i {
        lemma_kept_before_agree(flags, flags.update(i, true), i);
    } else {
        lemma_kept_before_mark(flags, i, n - 1);
    }
}

proof fn lemma_kept_before_clear(flags: Seq<bool>, n: int)
    requires
        0 <= n <= flags.len(),
        forall|j: int| 0 <= j < flags.len() ==> !flags[j],
    ensures
        kept_before(flags, n) == n,
    decreases n,
{
    if n > 0 {
        lemma_kept_before_clear(flags, n - 1);
    }
}

proof fn lemma_retained_movements_len(s: CoalesceState, n: int)
    requires
        0 <= n,
    ensures
        retained_movements(s, n).len() == kept_before(s.removed, n),
    decreases n,
{
    if n > 0 {
        lemma_retained_movements_len(s, n - 1);
    }
}

proof fn lemma_retained_findings_positions(findings: Seq<FindingBounds>, removed: Seq<bool>, n: int)
    requires
        0 <= n,
    ensures
        retained_findings(findings, removed, n).len() == kept_positions(removed, n).len(),
        retained_findings(findings, removed, n).len() == kept_before(removed, n),
        forall|k: int|
            0 <= k < kept_positions(removed, n).len() ==> 0 <= #[trigger] kept_positions(removed, n)[k] < n
                && !removed[kept_positions(removed, n)[k]] && retained_findings(findings, removed, n)[k]
                == findings[kept_positions(removed, n)[k]],
        forall|a: int, b: int|
            0 <= a < b < kept_positions(removed, n).len() ==> #[trigger] kept_positions(removed, n)[a]
                < #[trigger] kept_positions(removed, n)[b],
    decreases n,
{
    if n > 0 {
        lemma_retained_findings_positions(findings, removed, n - 1);
    }
}

/// One merge step keeps the shape of the state, and marks one movement and one finding.
proof fn lemma_merge_step_keeps(s: CoalesceState, start: Seq<MovementMapping>, m: int, left: int, right: int)
    requires
        keeps_shape(s, start, m),
        orders_valid(start, m),
        0 <= left < right < start.len(),
        start.len() <= usize::MAX,
    ensures
        keeps_shape(merge_step(s, left, right), start, m),
        absorbed_in_pairs(s) ==> absorbed_in_pairs(merge_step(s, left, right)),
{
    if mergeable(s, left, right) {
        let next = merge_step(s, left, right);
        let o = start[right].order as int;
        assert(s.movements[left].order == start[left].order);
        assert(s.movements[right].order == start[right].order);
        assert forall|f: int| 0 <= f < m && #[trigger] next.removed_findings[f] implies exists|j: int|
            0 <= j < start.len() && #[trigger] next.removed[j] && start[j].order == f by {
            if f == o {
                assert(next.removed[right]);
            } else {
                assert(s.removed_findings[f]);
                let j = choose|j: int| 0 <= j < start.len() && #[trigger] s.removed[j] && start[j].order == f;
                assert(next.removed[j]);
            }
        }
        assert forall|i: int| 0 <= i < start.len() implies (#[trigger] next.movements[i]).order == start[i].order
            && next.movements[i].offset == start[i].offset by {
            if i != left {
                assert(next.movements[i] == s.movements[i]);
            }
        }
        lemma_present_finding_kept(s, start, m, right);
        lemma_kept_before_mark(s.removed, right, start.len() as int);
        lemma_kept_before_mark(s.removed_findings, o, m);
        assert forall|k: int| 0 <= k < next.merges.len() implies {
            let (l, r) = #[trigger] next.merges[k];
            &&& l < r < start.len()
            &&& start[l as int].offset == start[r as int].offset
        } by {
            if k < s.merges.len() {
                assert(next.merges[k] == s.merges[k]);
            } else {
                assert(s.movements[left].offset == start[left].offset);
                assert(s.movements[right].offset == start[right].offset);
                assert(next.merges[k] == (left as usize, right as usize));
            }
        }
    }
}

proof fn lemma_merge_row_keeps(s: CoalesceState, start: Seq<MovementMapping>, m: int, left: int, right: int)
    requires
        keeps_shape(s, start, m),
        orders_valid(start, m),
        absorbed_in_pairs(s),
        0 <= left < start.len(),
        right <= start.len(),
        start.len() <= usize::MAX,
    ensures
        keeps_shape(merge_row(s, left, right), start, m),
        absorbed_in_pairs(merge_row(s, left, right)),
    decreases right - left,
{
    if right > left + 1 {
        lemma_merge_row_keeps(s, start, m, left, right - 1);
        lemma_merge_step_keeps(merge_row(s, left, right - 1), start, m, left, right - 1);
    }
}

proof fn lemma_merge_rows_keeps(s: CoalesceState, start: Seq<MovementMapping>, m: int, left: int)
    requires
        keeps_shape(s, start, m),
        orders_valid(start, m),
        absorbed_in_pairs(s),
        left <= start.len(),
        start.len() <= usize::MAX,
    ensures
        keeps_shape(merge_rows(s, left), start, m),
        absorbed_in_pairs(merge_rows(s, left)),
    decreases left,
{
    if left > 0 {
        lemma_merge_rows_keeps(s, start, m, left - 1);
        let previous = merge_rows(s, left - 1);
        if !previous.removed[left - 1] {
            lemma_merge_row_keeps(previous, start, m, left - 1, previous.movements.len() as int);
        }
    }
}

/// Coalescing removes findings and movements in pairs: as many findings as movements leave,
/// one of each per merge. The findings that stay keep their relative order (each is the
/// finding at a position that was not absorbed, positions increasing), and every movement that
/// stays again points at its own finding.
pub proof fn lemma_coalesce_removes_in_pairs(movements: Seq<MovementMapping>, findings: Seq<FindingBounds>)
    requires
        orders_valid(movements, findings.len() as int),
        movements.len() <= usize::MAX,
    ensures
        ({
            let s = coalesced(movements, findings);
            let kept_findings = retained_findings(s.findings, s.removed_findings, findings.len() as int);
            let kept_movements = retained_movements(s, movements.len() as int);
            let positions = kept_positions(s.removed_findings, findings.len() as int);
            &&& findings.len() - kept_findings.len() == s.merges.len()
            &&& movements.len() - kept_movements.len() == s.merges.len()
            &&& positions.len() == kept_findings.len()
            &&& forall|k: int|
                0 <= k < positions.len() ==> 0 <= #[trigger] positions[k] < findings.len()
                    && !s.removed_findings[positions[k]] && kept_findings[k] == s.findings[positions[k]]
            &&& forall|a: int, b: int| 0 <= a < b < positions.len() ==> #[trigger] positions[a] < #[trigger] positions[b]
            &&& orders_valid(kept_movements, kept_findings.len() as int)
            &&& forall|k: int|
                0 <= k < s.merges.len() ==> {
                    let (l, r) = #[trigger] s.merges[k];
                    &&& l < r < movements.len()
                    &&& movements[l as int].offset == movements[r as int].offset
                }
        }),
{
    let init = initial_state(movements, findings);
    let m = findings.len() as int;
    lemma_kept_before_clear(init.removed, movements.len() as int);
    lemma_kept_before_clear(init.removed_findings, m);
    assert forall|i: int| 0 <= i < movements.len() implies (#[trigger] init.movements[i]).order == movements[i].order
        && init.movements[i].offset == movements[i].offset by {}
    assert(keeps_shape(init, movements, m));
    lemma_merge_rows_keeps(init, movements, m, movements.len() as int);
    let s = coalesced(movements, findings);
    lemma_retained_movements_len(s, movements.len() as int);
    lemma_retained_findings_positions(s.findings, s.removed_findings, m);
    lemma_retained_orders(s, movements, m, movements.len() as int);
}

/// Coalesces adjacent movements that share an offset: each present movement, in order, absorbs
/// every later present movement with the same offset within the merge gap, growing its bounds
/// and its finding's regions; absorbed movements and their findings are then dropped, and the
/// remaining movements are pointed at their findings' new positions. Returns the merges made,
/// each as (absorbing, absorbed) movement positions.
///
/// Fails only when working storage cannot be reserved, and then changes nothing.
pub fn coalesce(findings: &mut Vec<FindingBounds>, movements: &mut Vec<MovementMapping>) -> (result: Result<
    Vec<(usize, usize)>,
    SizeError,
>)
    requires
        orders_valid(old(movements)@, old(findings)@.len() as int),
    ensures
        result is Err ==> final(findings)@ == old(findings)@ && final(movements)@ == old(movements)@,
        result matches Ok(merges) ==> {
            let s = coalesced(old(movements)@, old(findings)@);
            &&& merges@ == s.merges
            &&& final(findings)@ == retained_findings(s.findings, s.removed_findings, s.findings.len() as int)
            &&& final(movements)@ == retained_movements(s, s.movements.len() as int)
            &&& orders_valid(final(movements)@, final(findings)@.len() as int)
            &&& old(findings)@.len() - final(findings)@.len() == merges@.len()
            &&& old(movements)@.len() - final(movements)@.len() == merges@.len()
            &&& forall|k: int|
                0 <= k < merges@.len() ==> {
                    let (l, r) = #[trigger] merges@[k];
                    &&& l < r < old(movements)@.len()
                    &&& old(movements)@[l as int].offset == old(movements)@[r as int].offset
                }
        },
{
    let ghost start = movements@;
    let ghost init = initial_state(movements@, findings@);
    let n = movements.len();
    let m = findings.len();
    let mut kept_findings: Vec<FindingBounds> = Vec::new();
    if kept_findings.try_reserve(m).is_err() {
        return Err(SizeError::ImageTooLarge);
    }
    let mut kept_movements: Vec<MovementMapping> = Vec::new();
    if kept_movements.try_reserve(n).is_err() {
        return Err(SizeError::ImageTooLarge);
    }
    let mut removed = false_flags(n);
    let mut removed_findings = false_flags(m);
    let mut merges: Vec<(usize, usize)> = Vec::new();
    assert(state_of(movements@, findings@, removed@, removed_findings@, merges@) == merge_rows(init, 0));
    let mut left: usize = 0;
    while left < n
        invariant
            n == start.len(),
            m == init.findings.len(),
            orders_valid(start, m as int),
            init == initial_state(start, init.findings),
            left <= n,
            state_of(movements@, findings@, removed@, removed_findings@, merges@) == merge_rows(init, left as int),
            keeps_shape(state_of(movements@, findings@, removed@, removed_findings@, merges@), start, m as int),
        decreases n - left,
    {
        let ghost before = state_of(movements@, findings@, removed@, removed_findings@, merges@);
        if !removed[left] {
            let mut right: usize = left + 1;
            while right < n
                invariant
                    n == start.len(),
                    m == init.findings.len(),
                    orders_valid(start, m as int),
                    left < right <= n,
                    left < n,
                    !removed@[left as int],
                    before == merge_rows(init, left as int),
                    before.movements.len() == n,
                    before.removed.len() == n,
                    !before.removed[left as int],
                    state_of(movements@, findings@, removed@, removed_findings@, merges@) == merge_row(
                        before,
                        left as int,
                        right as int,
                    ),
                    keeps_shape(state_of(movements@, findings@, removed@, removed_findings@, merges@), start, m as int),
                decreases n - right,
            {
                let ghost current = state_of(movements@, findings@, removed@, removed_findings@, merges@);
                let first = movements[left];
                let second = movements[right];
                if !removed[right] && first.offset == second.offset && nearby(first.bounds, second.bounds, MERGE_GAP) {
                    let left_order = first.order;
                    let right_order = second.order;
                    assert(left_order == start[left as int].order);
                    assert(right_order == start[right as int].order);
                    let expected_bounds = union(first.bounds, second.bounds);
                    let fallback = translated(expected_bounds, first.offset);
                    let left_actual = match findings[left_order].actual_bounds {
                        Some(b) => b,
                        None => fallback,
                    };
                    let right_actual = match findings[right_order].actual_bounds {
                        Some(b) => b,
                        None => fallback,
                    };
                    let actual_bounds = union(left_actual, right_actual);
                    movements.set(left, MovementMapping { bounds: expected_bounds, offset: first.offset, order: left_order });
                    findings.set(
                        left_order,
                        FindingBounds { expected_bounds: Some(expected_bounds), actual_bounds: Some(actual_bounds) },
                    );
                    removed.set(right, true);
                    removed_findings.set(right_order, true);
                    merges.push((left, right));
                    proof {
                        let next = state_of(movements@, findings@, removed@, removed_findings@, merges@);
                        assert(mergeable(current, left as int, right as int));
                        assert(next == merge_step(current, left as int, right as int));
                        lemma_merge_step_keeps(current, start, m as int, left as int, right as int);
                    }
                } else {
                    proof {
                        assert(!mergeable(current, left as int, right as int));
                    }
                }
                right += 1;
            }
        }
        left += 1;
    }
    let ghost s = coalesced(start, init.findings);
    assert(state_of(movements@, findings@, removed@, removed_findings@, merges@) == s);
    let mut old_to_new: Vec<usize> = Vec::new();
    let mut k: usize = 0;
    while k < m
        invariant
            m == s.findings.len(),
            findings@ == s.findings,
            removed_findings@ == s.removed_findings,
            keeps_shape(s, start, m as int),
            k <= m,
            old_to_new@.len() == k,
            kept_findings@ == retained_findings(s.findings, s.removed_findings, k as int),
            kept_findings@.len() == kept_before(s.removed_findings, k as int),
            forall|o: int| 0 <= o < k ==> #[trigger] old_to_new@[o] == kept_before(s.removed_findings, o),
            kept_before(s.removed_findings, k as int) <= k,
        decreases m - k,
    {
        old_to_new.push(kept_findings.len());
        if !removed_findings[k] {
            kept_findings.push(findings[k]);
        }
        k += 1;
    }
    let mut i: usize = 0;
    while i < n
        invariant
            n == s.movements.len(),
            m == s.findings.len(),
            movements@ == s.movements,
            removed@ == s.removed,
            removed_findings@ == s.removed_findings,
            keeps_shape(s, start, m as int),
            orders_valid(start, m as int),
            old_to_new@.len() == m,
            forall|o: int| 0 <= o < m ==> #[trigger] old_to_new@[o] == kept_before(s.removed_findings, o),
            i <= n,
            kept_movements@ == retained_movements(s, i as int),
        decreases n - i,
    {
        if !removed[i] {
            let movement = movements[i];
            assert(movement.order == start[i as int].order);
            kept_movements.push(
                MovementMapping { bounds: movement.bounds, offset: movement.offset, order: old_to_new[movement.order] },
            );
        }
        i += 1;
    }
    proof {
        lemma_coalesce_removes_in_pairs(start, init.findings);
    }
    *findings = kept_findings;
    *movements = kept_movements;
    Ok(merges)
}

} // verus!
