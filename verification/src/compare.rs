use vstd::prelude::*;

use crate::mask::lemma_u32_product_fits;
use crate::movement::FindingBounds;
use crate::report::{Bounds, ComparisonSummary, DifferenceKind, ImageDimensions, Offset, SizeError, kind_rank};
use crate::ordering::{key_ints, keys_ints, lemma_stable_order_unique, lex_le, sort_positions, stably_sorted};
use crate::text::{decimal, push_decimal};

verus! {

/// Upper limit on the estimated working set of one comparison, in bytes.
pub const MAX_ESTIMATED_WORKING_BYTES: u64 = 1_610_612_736;

/// Estimated working bytes per expected pixel.
pub const EXPECTED_BYTES_PER_PIXEL: u64 = 96;

/// Estimated working bytes per actual pixel.
pub const ACTUAL_BYTES_PER_PIXEL: u64 = 64;

/// Rejects canvases whose estimated working set exceeds the comparison's memory policy.
pub fn validate_working_set_dimensions(
    expected_width: u32,
    expected_height: u32,
    actual_width: u32,
    actual_height: u32,
) -> (result: Result<(), SizeError>)
    ensures
        result is Ok <==> ({
            let expected_area = expected_width * expected_height;
            let actual_area = actual_width * actual_height;
            &&& expected_area * EXPECTED_BYTES_PER_PIXEL + actual_area * ACTUAL_BYTES_PER_PIXEL
                <= MAX_ESTIMATED_WORKING_BYTES
            &&& expected_area <= usize::MAX
            &&& actual_area <= usize::MAX
        }),
{
    proof {
        lemma_u32_product_fits(expected_width, expected_height);
        lemma_u32_product_fits(actual_width, actual_height);
    }
    let expected_area: u64 = (expected_width as u64) * (expected_height as u64);
    let actual_area: u64 = (actual_width as u64) * (actual_height as u64);
    let expected_bytes = match expected_area.checked_mul(EXPECTED_BYTES_PER_PIXEL) {
        Some(value) => value,
        None => return Err(SizeError::ImageTooLarge),
    };
    let actual_bytes = match actual_area.checked_mul(ACTUAL_BYTES_PER_PIXEL) {
        Some(value) => value,
        None => return Err(SizeError::ImageTooLarge),
    };
    let estimated_bytes = match expected_bytes.checked_add(actual_bytes) {
        Some(value) => value,
        None => return Err(SizeError::ImageTooLarge),
    };
    if estimated_bytes > MAX_ESTIMATED_WORKING_BYTES || expected_area > usize::MAX as u64 || actual_area
        > usize::MAX as u64 {
        return Err(SizeError::ImageTooLarge);
    }
    Ok(())
}

/// A comparison setting outside its documented range.
#[derive(Debug, Clone, Copy, PartialEq, Eq, Structural)]
pub enum SettingError {
    /// The maximum offset exceeds `i32::MAX`.
    MaxOffsetTooLarge(u32),
    /// The perceptual threshold is negative or not finite.
    InvalidColorThreshold,
    /// The minimum region area is zero.
    InvalidMinimumRegionArea(u32),
    /// The comparison region has no width or no height.
    InvalidRegionSize(Bounds),
}

/// The first setting, in the order maximum offset, colour threshold, minimum area, region, that
/// is out of range; `threshold_valid` says whether the colour threshold is finite and
/// non-negative.
pub open spec fn setting_error(
    max_offset: u32,
    threshold_valid: bool,
    min_region_area: u32,
    region: Option<Bounds>,
) -> Option<SettingError> {
    if max_offset > i32::MAX {
        Some(SettingError::MaxOffsetTooLarge(max_offset))
    } else if !threshold_valid {
        Some(SettingError::InvalidColorThreshold)
    } else if min_region_area == 0 {
        Some(SettingError::InvalidMinimumRegionArea(0))
    } else if region is Some && (region->0.width == 0 || region->0.height == 0) {
        Some(SettingError::InvalidRegionSize(region->0))
    } else {
        None
    }
}

/// Rejects the first setting outside its documented range.
pub fn validate_settings(
    max_offset: u32,
    threshold_valid: bool,
    min_region_area: u32,
    region: Option<Bounds>,
) -> (result: Result<(), SettingError>)
    ensures
        match setting_error(max_offset, threshold_valid, min_region_area, region) {
            Some(error) => result == Err::<(), SettingError>(error),
            None => result is Ok,
        },
{
    if max_offset > i32::MAX as u32 {
        return Err(SettingError::MaxOffsetTooLarge(max_offset));
    }
    if !threshold_valid {
        return Err(SettingError::InvalidColorThreshold);
    }
    if min_region_area == 0 {
        return Err(SettingError::InvalidMinimumRegionArea(0));
    }
    if let Some(bounds) = region {
        if bounds.width == 0 || bounds.height == 0 {
            return Err(SettingError::InvalidRegionSize(bounds));
        }
    }
    Ok(())
}

/// Whether a comparison region lies entirely inside a canvas.
pub fn region_fits(region: Bounds, canvas: ImageDimensions) -> (result: bool)
    ensures
        result == (region.x + region.width <= canvas.width && region.y + region.height <= canvas.height),
{
    (region.x as u64) + (region.width as u64) <= canvas.width as u64 && (region.y as u64) + (region.height as u64)
        <= canvas.height as u64
}

/// A rectangle moved right by `dx` and down by `dy`, when its corner stays in the `u32` range.
pub open spec fn spec_shifted(bounds: Bounds, dx: u32, dy: u32) -> Option<Bounds> {
    if bounds.x + dx <= u32::MAX && bounds.y + dy <= u32::MAX {
        Some(Bounds { x: (bounds.x + dx) as u32, y: (bounds.y + dy) as u32, width: bounds.width, height: bounds.height })
    } else {
        None
    }
}

/// A finding's regions moved from comparison-region coordinates to image coordinates: each
/// present region shifted by the region's origin; `None` when a shifted corner would leave the
/// `u32` range.
pub open spec fn spec_placed(finding: FindingBounds, origin_x: u32, origin_y: u32) -> Option<FindingBounds> {
    let expected = match finding.expected_bounds {
        Some(b) => match spec_shifted(b, origin_x, origin_y) {
            Some(s) => Some(Some(s)),
            None => None,
        },
        None => Some(None),
    };
    let actual = match finding.actual_bounds {
        Some(b) => match spec_shifted(b, origin_x, origin_y) {
            Some(s) => Some(Some(s)),
            None => None,
        },
        None => Some(None),
    };
    match (expected, actual) {
        (Some(e), Some(a)) => Some(FindingBounds { expected_bounds: e, actual_bounds: a }),
        _ => None,
    }
}

fn shifted(bounds: Bounds, dx: u32, dy: u32) -> (result: Option<Bounds>)
    ensures
        result == spec_shifted(bounds, dx, dy),
{
    match (bounds.x.checked_add(dx), bounds.y.checked_add(dy)) {
        (Some(x), Some(y)) => Some(Bounds { x, y, width: bounds.width, height: bounds.height }),
        _ => None,
    }
}

/// Moves a finding's regions from comparison-region coordinates to image coordinates.
pub fn placed(finding: FindingBounds, origin_x: u32, origin_y: u32) -> (result: Option<FindingBounds>)
    ensures
        result == spec_placed(finding, origin_x, origin_y),
{
    let expected = match finding.expected_bounds {
        Some(b) => match shifted(b, origin_x, origin_y) {
            Some(s) => Some(Some(s)),
            None => None,
        },
        None => Some(None),
    };
    let actual = match finding.actual_bounds {
        Some(b) => match shifted(b, origin_x, origin_y) {
            Some(s) => Some(Some(s)),
            None => None,
        },
        None => Some(None),
    };
    match (expected, actual) {
        (Some(e), Some(a)) => Some(FindingBounds { expected_bounds: e, actual_bounds: a }),
        _ => None,
    }
}

/// Checks that an RGBA buffer of the given dimensions has a representable byte length.
pub fn validate_area(width: u32, height: u32) -> (result: Result<(), SizeError>)
    ensures
        result is Ok <==> width * height * 4 <= u64::MAX,
{
    proof {
        lemma_u32_product_fits(width, height);
    }
    let area: u64 = (width as u64) * (height as u64);
    match area.checked_mul(4) {
        Some(_) => Ok(()),
        None => Err(SizeError::ImageTooLarge),
    }
}

/// Number of entries of `kinds` equal to `kind`.
pub open spec fn count_kind(kinds: Seq<DifferenceKind>, kind: DifferenceKind) -> nat
    decreases kinds.len(),
{
    if kinds.len() == 0 {
        0
    } else {
        count_kind(kinds.drop_last(), kind) + if kinds.last() == kind { 1nat } else { 0nat }
    }
}

pub open spec fn saturated_count(n: nat) -> u32 {
    if n > u32::MAX { u32::MAX } else { n as u32 }
}

/// Summary counts of a list of difference kinds, each saturated at `u32::MAX`.
pub open spec fn summary_of(kinds: Seq<DifferenceKind>) -> ComparisonSummary {
    ComparisonSummary {
        total: saturated_count(kinds.len()),
        moved: saturated_count(count_kind(kinds, DifferenceKind::Moved)),
        resized: saturated_count(count_kind(kinds, DifferenceKind::Resized)),
        added: saturated_count(count_kind(kinds, DifferenceKind::Added)),
        removed: saturated_count(count_kind(kinds, DifferenceKind::Removed)),
        changed: saturated_count(count_kind(kinds, DifferenceKind::Changed)),
        canvas_size: saturated_count(count_kind(kinds, DifferenceKind::CanvasSize)),
    }
}

proof fn lemma_count_kind_bounded(kinds: Seq<DifferenceKind>, kind: DifferenceKind)
    ensures
        count_kind(kinds, kind) <= kinds.len(),
    decreases kinds.len(),
{
    if kinds.len() > 0 {
        lemma_count_kind_bounded(kinds.drop_last(), kind);
    }
}

/// Counts the differences of each kind.
pub fn summarize(kinds: &[DifferenceKind]) -> (result: ComparisonSummary)
    ensures
        result == summary_of(kinds@),
{
    let count = kinds.len();
    let mut summary = ComparisonSummary {
        total: if count > u32::MAX as usize { u32::MAX } else { count as u32 },
        moved: 0,
        resized: 0,
        added: 0,
        removed: 0,
        changed: 0,
        canvas_size: 0,
    };
    let mut index: usize = 0;
    while index < count
        invariant
            count == kinds@.len(),
            index <= count,
            summary.total == saturated_count(count as nat),
            summary.moved == saturated_count(count_kind(kinds@.take(index as int), DifferenceKind::Moved)),
            summary.resized == saturated_count(count_kind(kinds@.take(index as int), DifferenceKind::Resized)),
            summary.added == saturated_count(count_kind(kinds@.take(index as int), DifferenceKind::Added)),
            summary.removed == saturated_count(count_kind(kinds@.take(index as int), DifferenceKind::Removed)),
            summary.changed == saturated_count(count_kind(kinds@.take(index as int), DifferenceKind::Changed)),
            summary.canvas_size == saturated_count(count_kind(kinds@.take(index as int), DifferenceKind::CanvasSize)),
        decreases count - index,
    {
        proof {
            assert(kinds@.take(index as int + 1).drop_last() =~= kinds@.take(index as int));
        }
        match kinds[index] {
            DifferenceKind::CanvasSize => summary.canvas_size = summary.canvas_size.saturating_add(1),
            DifferenceKind::Moved => summary.moved = summary.moved.saturating_add(1),
            DifferenceKind::Resized => summary.resized = summary.resized.saturating_add(1),
            DifferenceKind::Added => summary.added = summary.added.saturating_add(1),
            DifferenceKind::Removed => summary.removed = summary.removed.saturating_add(1),
            DifferenceKind::Changed => summary.changed = summary.changed.saturating_add(1),
        }
        index += 1;
    }
    proof {
        assert(kinds@.take(count as int) =~= kinds@);
    }
    summary
}

/// When no count saturates, the per-kind counts add up to the total.
pub proof fn lemma_summary_counts_add_up(kinds: Seq<DifferenceKind>)
    requires
        kinds.len() <= u32::MAX,
    ensures
        summary_of(kinds).moved + summary_of(kinds).resized + summary_of(kinds).added + summary_of(kinds).removed
            + summary_of(kinds).changed + summary_of(kinds).canvas_size == summary_of(kinds).total,
    decreases kinds.len(),
{
    lemma_count_kind_bounded(kinds, DifferenceKind::Moved);
    lemma_count_kind_bounded(kinds, DifferenceKind::Resized);
    lemma_count_kind_bounded(kinds, DifferenceKind::Added);
    lemma_count_kind_bounded(kinds, DifferenceKind::Removed);
    lemma_count_kind_bounded(kinds, DifferenceKind::Changed);
    lemma_count_kind_bounded(kinds, DifferenceKind::CanvasSize);
    if kinds.len() > 0 {
        lemma_summary_counts_add_up(kinds.drop_last());
    }
}

proof fn lemma_count_kind_is_filter(kinds: Seq<DifferenceKind>, kind: DifferenceKind)
    ensures
        count_kind(kinds, kind) == kinds.filter(|k: DifferenceKind| k == kind).len(),
    decreases kinds.len(),
{
    reveal(Seq::filter);
    if kinds.len() > 0 {
        lemma_count_kind_is_filter(kinds.drop_last(), kind);
    }
}

/// Each count of a summary is the number of findings of its kind, and the total is the number
/// of findings, when none of them exceeds `u32::MAX`.
pub proof fn lemma_summary_counts_each_kind(kinds: Seq<DifferenceKind>)
    requires
        kinds.len() <= u32::MAX,
    ensures
        summary_of(kinds).total == kinds.len(),
        summary_of(kinds).moved == kinds.filter(|k: DifferenceKind| k == DifferenceKind::Moved).len(),
        summary_of(kinds).resized == kinds.filter(|k: DifferenceKind| k == DifferenceKind::Resized).len(),
        summary_of(kinds).added == kinds.filter(|k: DifferenceKind| k == DifferenceKind::Added).len(),
        summary_of(kinds).removed == kinds.filter(|k: DifferenceKind| k == DifferenceKind::Removed).len(),
        summary_of(kinds).changed == kinds.filter(|k: DifferenceKind| k == DifferenceKind::Changed).len(),
        summary_of(kinds).canvas_size == kinds.filter(|k: DifferenceKind| k == DifferenceKind::CanvasSize).len(),
{
    lemma_count_kind_bounded(kinds, DifferenceKind::Moved);
    lemma_count_kind_bounded(kinds, DifferenceKind::Resized);
    lemma_count_kind_bounded(kinds, DifferenceKind::Added);
    lemma_count_kind_bounded(kinds, DifferenceKind::Removed);
    lemma_count_kind_bounded(kinds, DifferenceKind::Changed);
    lemma_count_kind_bounded(kinds, DifferenceKind::CanvasSize);
    lemma_count_kind_is_filter(kinds, DifferenceKind::Moved);
    lemma_count_kind_is_filter(kinds, DifferenceKind::Resized);
    lemma_count_kind_is_filter(kinds, DifferenceKind::Added);
    lemma_count_kind_is_filter(kinds, DifferenceKind::Removed);
    lemma_count_kind_is_filter(kinds, DifferenceKind::Changed);
    lemma_count_kind_is_filter(kinds, DifferenceKind::CanvasSize);
}

/// One more finding raises the total and the count of its own kind by one and leaves every
/// other count as it was, while no count is saturated.
pub proof fn lemma_summary_counts_one_more(kinds: Seq<DifferenceKind>, kind: DifferenceKind)
    requires
        kinds.len() < u32::MAX,
    ensures
        ({
            let before = summary_of(kinds);
            let after = summary_of(kinds.push(kind));
            &&& after.total == before.total + 1
            &&& after.moved == before.moved + if kind == DifferenceKind::Moved { 1int } else { 0int }
            &&& after.resized == before.resized + if kind == DifferenceKind::Resized { 1int } else { 0int }
            &&& after.added == before.added + if kind == DifferenceKind::Added { 1int } else { 0int }
            &&& after.removed == before.removed + if kind == DifferenceKind::Removed { 1int } else { 0int }
            &&& after.changed == before.changed + if kind == DifferenceKind::Changed { 1int } else { 0int }
            &&& after.canvas_size == before.canvas_size + if kind == DifferenceKind::CanvasSize { 1int } else { 0int }
        }),
{
    lemma_summary_counts_each_kind(kinds);
    lemma_summary_counts_each_kind(kinds.push(kind));
    reveal(Seq::filter);
    assert(kinds.push(kind).drop_last() =~= kinds);
}

/// The identifier of the finding at zero-based position `index`: `D` followed by `index + 1`.
pub fn finding_id(index: u64) -> (result: String)
    requires
        index < u64::MAX,
    ensures
        result@ == seq!['D'] + decimal((index + 1) as nat),
{
    let mut text = String::from_str("D");
    proof {
        reveal_strlit("D");
    }
    push_decimal(&mut text, index + 1);
    text
}

} // verus!

verus! {

/// The geometric content of a finding that decides its position in the report.
#[derive(Debug, Clone, Copy, PartialEq, Eq, Structural)]
pub struct FindingKey {
    /// Difference category.
    pub kind: DifferenceKind,
    /// Relevant region in expected coordinates.
    pub expected_bounds: Option<Bounds>,
    /// Relevant region in actual coordinates.
    pub actual_bounds: Option<Bounds>,
    /// Displacement from expected to actual coordinates.
    pub offset: Option<Offset>,
}

/// `(y, x, width, height)` of optional bounds, zero when absent.
pub open spec fn bounds_values(bounds: Option<Bounds>) -> Seq<int> {
    match bounds {
        Some(b) => seq![b.y as int, b.x as int, b.width as int, b.height as int],
        None => seq![0int, 0, 0, 0],
    }
}

/// The values a finding is ordered by, compared lexicographically: canvas-size records first,
/// then the top and left edge of the finding's expected (else actual) bounds, the kind, both
/// bounds, and the offset.
pub open spec fn key_values(key: FindingKey) -> Seq<int> {
    let primary = match key.expected_bounds {
        Some(b) => Some(b),
        None => key.actual_bounds,
    };
    let (top, left) = match primary {
        Some(b) => (b.y as int, b.x as int),
        None => (0int, 0int),
    };
    let (dx, dy) = match key.offset {
        Some(o) => (o.x as int, o.y as int),
        None => (0int, 0int),
    };
    seq![if key.kind == DifferenceKind::CanvasSize { 0int } else { 1int }, top, left, kind_rank(key.kind) as int]
        + bounds_values(key.expected_bounds) + bounds_values(key.actual_bounds) + seq![dx, dy]
}

pub open spec fn key_le(a: FindingKey, b: FindingKey) -> bool {
    lex_le(key_values(a), key_values(b))
}

fn push_bounds_values(values: &mut Vec<i128>, bounds: Option<Bounds>)
    ensures
        final(values)@.len() == old(values)@.len() + 4,
        forall|i: int| 0 <= i < old(values)@.len() ==> final(values)@[i] == old(values)@[i],
        forall|i: int| 0 <= i < 4 ==> final(values)@[old(values)@.len() + i] as int == bounds_values(bounds)[i],
{
    match bounds {
        Some(b) => {
            values.push(b.y as i128);
            values.push(b.x as i128);
            values.push(b.width as i128);
            values.push(b.height as i128);
        },
        None => {
            values.push(0);
            values.push(0);
            values.push(0);
            values.push(0);
        },
    }
}

/// The ordering values of a finding as machine integers.
fn key_vector(key: &FindingKey) -> (result: Vec<i128>)
    ensures
        result@.len() == key_values(*key).len(),
        forall|i: int| 0 <= i < result@.len() ==> result@[i] as int == key_values(*key)[i],
{
    let mut values: Vec<i128> = Vec::new();
    values.push(if key.kind.rank() == 0 { 0 } else { 1 });
    let primary = match key.expected_bounds {
        Some(b) => Some(b),
        None => key.actual_bounds,
    };
    match primary {
        Some(b) => {
            values.push(b.y as i128);
            values.push(b.x as i128);
        },
        None => {
            values.push(0);
            values.push(0);
        },
    }
    values.push(key.kind.rank() as i128);
    push_bounds_values(&mut values, key.expected_bounds);
    push_bounds_values(&mut values, key.actual_bounds);
    match key.offset {
        Some(o) => {
            values.push(o.x as i128);
            values.push(o.y as i128);
        },
        None => {
            values.push(0);
            values.push(0);
        },
    }
    proof {
        let expected = key_values(*key);
        assert(values@.len() == expected.len());
        assert forall|i: int| 0 <= i < values@.len() implies values@[i] as int == expected[i] by {
            if i < 4 {
            } else if i < 8 {
            } else if i < 12 {
            } else {
            }
        }
    }
    values
}

} // verus!

verus! {

proof fn lemma_key_values_len(key: FindingKey)
    ensures
        key_values(key).len() == 14,
{
}

/// `order` lists every position of `keys` once, sorted by `key_le`, keeping equal keys in
/// their original relative order.
pub open spec fn stable_sorted(keys: Seq<FindingKey>, order: Seq<usize>) -> bool {
    stably_sorted(keys.map_values(|k: FindingKey| key_values(k)), order)
}

/// The report order is determined by the findings alone: any two orders that sort the same
/// findings stably by their keys are the same order.
pub proof fn lemma_report_order_unique(keys: Seq<FindingKey>, a: Seq<usize>, b: Seq<usize>)
    requires
        stable_sorted(keys, a),
        stable_sorted(keys, b),
    ensures
        a == b,
{
    let values = keys.map_values(|k: FindingKey| key_values(k));
    assert forall|i: int, j: int| 0 <= i < values.len() && 0 <= j < values.len() implies (#[trigger] values[i]).len()
        == (#[trigger] values[j]).len() by {
        lemma_key_values_len(keys[i]);
        lemma_key_values_len(keys[j]);
    }
    lemma_stable_order_unique(values, a, b);
}

/// The report order of findings: a stable sort of positions by their finding keys.
pub fn sort_order(keys: &[FindingKey]) -> (result: Vec<usize>)
    ensures
        result@.len() == keys@.len(),
        stable_sorted(keys@, result@),
{
    let mut vectors: Vec<Vec<i128>> = Vec::new();
    let mut index: usize = 0;
    while index < keys.len()
        invariant
            index <= keys@.len(),
            vectors@.len() == index,
            forall|i: int| 0 <= i < index ==> key_ints((#[trigger] vectors@[i])@) == key_values(keys@[i]),
        decreases keys@.len() - index,
    {
        let vector = key_vector(&keys[index]);
        proof {
            assert(key_ints(vector@) =~= key_values(keys@[index as int]));
        }
        vectors.push(vector);
        index += 1;
    }
    proof {
        assert(keys_ints(vectors@) =~= keys@.map_values(|k: FindingKey| key_values(k)));
        assert forall|i: int, j: int|
            0 <= i < keys_ints(vectors@).len() && 0 <= j < keys_ints(vectors@).len() implies (
            #[trigger] keys_ints(vectors@)[i]).len() == (#[trigger] keys_ints(vectors@)[j]).len() by {
            lemma_key_values_len(keys@[i]);
            lemma_key_values_len(keys@[j]);
        }
    }
    sort_positions(&vectors)
}

} // verus!
