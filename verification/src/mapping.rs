use vstd::prelude::*;

use crate::mask::{lemma_index_in_grid, lemma_u32_product_fits};
use crate::report::{Bounds, ImageDimensions, Offset, SizeError};

verus! {

/// Marker stored for expected pixels that have no actual counterpart.
pub const UNMAPPED: u64 = 0xffff_ffff_ffff_ffff;

/// Row-major index in the actual image of the pixel that expected pixel `(x, y)` maps to
/// under `offset`, when that pixel lies inside the actual canvas.
pub open spec fn mapped_index(actual: ImageDimensions, offset: Offset, x: int, y: int) -> Option<int> {
    let actual_x = x + offset.x;
    let actual_y = y + offset.y;
    if 0 <= actual_x < actual.width && 0 <= actual_y < actual.height {
        Some(actual_y * actual.width + actual_x)
    } else {
        None
    }
}

/// Row-major position of `(x, y)` in a grid `width` cells wide.
pub open spec fn flat(width: int, x: int, y: int) -> int {
    y * width + x
}

/// Number of integers in `[low, high)` that are below `n`.
pub open spec fn count_below(low: int, high: int, n: int) -> int {
    if high <= low || n <= low {
        0
    } else if n >= high {
        high - low
    } else {
        n - low
    }
}

/// First expected coordinate on an axis that maps inside the actual canvas.
pub open spec fn overlap_start(offset: int) -> int {
    if offset < 0 { -offset } else { 0 }
}

/// End (exclusive) of the expected coordinates on an axis that map inside the actual canvas.
pub open spec fn overlap_end(expected_length: int, actual_length: int, offset: int) -> int {
    if actual_length - offset < expected_length { actual_length - offset } else { expected_length }
}

/// Number of expected coordinates on an axis that map inside the actual canvas.
pub open spec fn overlap_length(expected_length: int, actual_length: int, offset: int) -> int {
    count_below(overlap_start(offset), overlap_end(expected_length, actual_length, offset), expected_length)
}

/// Pairs `(expected index, actual index)` for the mapped entries among the first `n`.
pub open spec fn mapped_pairs(entries: Seq<u64>, n: int) -> Seq<(usize, usize)>
    decreases n,
{
    if n <= 0 {
        Seq::empty()
    } else if entries[n - 1] == UNMAPPED {
        mapped_pairs(entries, n - 1)
    } else {
        mapped_pairs(entries, n - 1).push(((n - 1) as usize, entries[n - 1] as usize))
    }
}

/// A validated movement: a region of the expected image that reappears, displaced by `offset`,
/// in the actual image.
#[derive(Debug, Clone, Copy, PartialEq, Eq, Structural)]
pub struct MovementMapping {
    /// Region in expected coordinates.
    pub bounds: Bounds,
    /// Displacement from expected to actual coordinates.
    pub offset: Offset,
    /// Position of the finding that reports this movement.
    pub order: usize,
}

/// Correspondence from expected pixels to actual pixels.
#[derive(Debug, Clone)]
pub struct PixelMapping {
    expected_width: u32,
    expected_height: u32,
    actual_indices: Vec<u64>,
    compared_pixels: u64,
}

impl PixelMapping {
    /// Expected canvas dimensions.
    pub closed spec fn expected_size(self) -> ImageDimensions {
        ImageDimensions { width: self.expected_width, height: self.expected_height }
    }

    /// Stored actual index for each expected pixel in row-major order (`UNMAPPED` for none).
    pub closed spec fn entries(self) -> Seq<u64> {
        self.actual_indices@
    }

    /// Number of mapped pairs.
    pub closed spec fn compared(self) -> u64 {
        self.compared_pixels
    }

    /// Every stored index fits `usize` and the table covers the expected canvas.
    pub closed spec fn wf(self) -> bool {
        &&& self.actual_indices.len() == self.expected_width * self.expected_height
        &&& forall|i: int| 0 <= i < self.actual_indices@.len() ==> (#[trigger] self.actual_indices@[i] == UNMAPPED
            || self.actual_indices@[i] < usize::MAX)
    }

    /// The actual pixel index that expected pixel `(x, y)` maps to, if any.
    pub open spec fn target(self, x: int, y: int) -> Option<int> {
        let entry = self.entries()[flat(self.expected_size().width as int, x, y)];
        if entry == UNMAPPED { None } else { Some(entry as int) }
    }

    /// Maps every expected pixel to the actual pixel displaced by `offset`, leaving pixels
    /// outside the actual canvas unmapped.
    ///
    /// Fails when the expected area does not fit in `usize` or storage cannot be reserved.
    pub fn translated(expected: ImageDimensions, actual: ImageDimensions, offset: Offset) -> (result: Result<Self, SizeError>)
        requires
            actual.width * actual.height <= usize::MAX,
        ensures
            expected.width * expected.height > usize::MAX ==> result is Err,
            result matches Ok(mapping) ==> {
                &&& mapping.wf()
                &&& mapping.expected_size() == expected
                &&& mapping.compared() == overlap_length(expected.width as int, actual.width as int, offset.x as int)
                    * overlap_length(expected.height as int, actual.height as int, offset.y as int)
                &&& forall|x: int, y: int|
                    0 <= x < expected.width && 0 <= y < expected.height ==> #[trigger] mapping.target(x, y)
                        == mapped_index(actual, offset, x, y)
            },
    {
        proof {
            lemma_u32_product_fits(expected.width, expected.height);
            lemma_u32_product_fits(actual.width, actual.height);
        }
        let area: u64 = (expected.width as u64) * (expected.height as u64);
        if area > usize::MAX as u64 {
            return Err(SizeError::ImageTooLarge);
        }
        let mut actual_indices: Vec<u64> = Vec::new();
        if actual_indices.try_reserve(area as usize).is_err() {
            return Err(SizeError::ImageTooLarge);
        }
        let ghost ew = expected.width as int;
        let ghost x_low = overlap_start(offset.x as int);
        let ghost x_high = overlap_end(ew, actual.width as int, offset.x as int);
        let ghost y_low = overlap_start(offset.y as int);
        let ghost y_high = overlap_end(expected.height as int, actual.height as int, offset.y as int);
        let ghost x_count = overlap_length(ew, actual.width as int, offset.x as int);
        let mut compared_pixels: u64 = 0;
        let mut expected_y: u32 = 0;
        while expected_y < expected.height
            invariant
                expected_y <= expected.height,
                ew == expected.width,
                actual.width * actual.height <= usize::MAX,
                expected.width * expected.height <= u64::MAX,
                0 <= x_count <= ew,
                actual_indices@.len() == expected_y * ew,
                compared_pixels <= actual_indices@.len(),
                x_low == overlap_start(offset.x as int),
                x_high == overlap_end(ew, actual.width as int, offset.x as int),
                y_low == overlap_start(offset.y as int),
                y_high == overlap_end(expected.height as int, actual.height as int, offset.y as int),
                x_count == overlap_length(ew, actual.width as int, offset.x as int),
                compared_pixels == count_below(y_low, y_high, expected_y as int) * x_count,
                forall|i: int| 0 <= i < actual_indices@.len() ==> (#[trigger] actual_indices@[i] == UNMAPPED
                    || actual_indices@[i] < usize::MAX),
                forall|x: int, y: int|
                    0 <= x < ew && 0 <= y < expected_y ==> {
                        let entry = #[trigger] actual_indices@[flat(ew, x, y)];
                        (if entry == UNMAPPED { None } else { Some(entry as int) }) == mapped_index(actual, offset, x, y)
                    },
            decreases expected.height - expected_y,
        {
            let ghost row_start = expected_y * ew;
            let mut expected_x: u32 = 0;
            let ghost row_mapped = y_low <= expected_y < y_high;
            assert(count_below(x_low, x_high, 0) == 0);
            while expected_x < expected.width
                invariant
                    expected_y < expected.height,
                    expected_x <= expected.width,
                    ew == expected.width,
                    actual.width * actual.height <= usize::MAX,
                    expected.width * expected.height <= u64::MAX,
                    0 <= x_count <= ew,
                    row_start == expected_y * ew,
                    row_mapped == (y_low <= expected_y < y_high),
                    actual_indices@.len() == row_start + expected_x,
                    compared_pixels <= actual_indices@.len(),
                    x_low == overlap_start(offset.x as int),
                    x_high == overlap_end(ew, actual.width as int, offset.x as int),
                    y_low == overlap_start(offset.y as int),
                    y_high == overlap_end(expected.height as int, actual.height as int, offset.y as int),
                    compared_pixels == count_below(y_low, y_high, expected_y as int) * x_count
                        + if row_mapped { count_below(x_low, x_high, expected_x as int) } else { 0 },
                    forall|i: int| 0 <= i < actual_indices@.len() ==> (#[trigger] actual_indices@[i] == UNMAPPED
                        || actual_indices@[i] < usize::MAX),
                    forall|x: int, y: int|
                        0 <= x < ew && 0 <= y < expected_y ==> {
                            let entry = #[trigger] actual_indices@[flat(ew, x, y)];
                            (if entry == UNMAPPED { None } else { Some(entry as int) }) == mapped_index(actual, offset, x, y)
                        },
                    forall|x: int|
                        0 <= x < expected_x ==> {
                            let entry = #[trigger] actual_indices@[row_start + x];
                            (if entry == UNMAPPED { None } else { Some(entry as int) }) == mapped_index(actual, offset, x, expected_y as int)
                        },
                decreases expected.width - expected_x,
            {
                let actual_x: i64 = expected_x as i64 + offset.x as i64;
                let actual_y: i64 = expected_y as i64 + offset.y as i64;
                proof {
                    lemma_index_in_grid(ew, expected.height as int, expected_x as int, expected_y as int);
                    assert forall|x: int, y: int| 0 <= x < ew && 0 <= y < expected_y implies #[trigger] flat(ew, x, y) < row_start by {
                        lemma_index_in_grid(ew, expected_y as int, x, y);
                    }
                }
                if actual_x < 0 || actual_y < 0 || actual_x >= actual.width as i64 || actual_y >= actual.height as i64 {
                    actual_indices.push(UNMAPPED);
                } else {
                    proof {
                        lemma_index_in_grid(actual.width as int, actual.height as int, actual_x as int, actual_y as int);
                    }
                    let actual_index: u64 = (actual_y as u64) * (actual.width as u64) + (actual_x as u64);
                    actual_indices.push(actual_index);
                    compared_pixels += 1;
                    proof {
                        assert(row_mapped);
                    }
                }
                expected_x += 1;
            }
            proof {
                assert forall|x: int, y: int|
                    0 <= x < ew && 0 <= y < expected_y + 1 implies {
                        let entry = #[trigger] actual_indices@[flat(ew, x, y)];
                        (if entry == UNMAPPED { None } else { Some(entry as int) }) == mapped_index(actual, offset, x, y)
                    } by {
                    if y == expected_y {
                        assert(flat(ew, x, y) == row_start + x);
                    }
                }
                assert((expected_y + 1) * ew == expected_y * ew + ew) by (nonlinear_arith);
                let c = count_below(y_low, y_high, expected_y as int);
                assert((c + 1) * x_count == c * x_count + x_count) by (nonlinear_arith);
            }
            expected_y += 1;
        }
        proof {
            assert(expected.height * ew == expected.width * expected.height) by (nonlinear_arith)
                requires ew == expected.width;
        }
        let mapping = PixelMapping {
            expected_width: expected.width,
            expected_height: expected.height,
            actual_indices,
            compared_pixels,
        };
        assert(mapping.wf());
        assert(expected_y == expected.height);
        assert(compared_pixels == count_below(y_low, y_high, expected.height as int) * x_count);
        assert(count_below(y_low, y_high, expected.height as int) == overlap_length(expected.height as int, actual.height as int, offset.y as int));
        assert(mapping.expected_size() == expected);
        assert(mapping.compared() == overlap_length(expected.width as int, actual.width as int, offset.x as int)
                    * overlap_length(expected.height as int, actual.height as int, offset.y as int));
        assert(forall|x: int, y: int|
                    0 <= x < expected.width && 0 <= y < expected.height ==> #[trigger] mapping.target(x, y)
                        == mapped_index(actual, offset, x, y));
        Ok(mapping)
    }

    /// The actual pixel index mapped from expected pixel `(expected_x, expected_y)`, or `None`
    /// when the pixel is outside the expected canvas or unmapped.
    pub fn actual_index(&self, expected_x: u32, expected_y: u32) -> (result: Option<usize>)
        requires
            self.wf(),
        ensures
            result == if expected_x < self.expected_size().width && expected_y < self.expected_size().height {
                match self.target(expected_x as int, expected_y as int) {
                    Some(index) => Some(index as usize),
                    None => None,
                }
            } else {
                None
            },
    {
        if expected_x >= self.expected_width || expected_y >= self.expected_height {
            return None;
        }
        proof {
            lemma_index_in_grid(self.expected_width as int, self.expected_height as int, expected_x as int, expected_y as int);
        }
        let index: usize = (expected_y as usize) * (self.expected_width as usize) + (expected_x as usize);
        let actual = self.actual_indices[index];
        if actual == UNMAPPED {
            None
        } else {
            Some(actual as usize)
        }
    }

    /// Every mapped pair `(expected index, actual index)` in increasing expected index.
    pub fn pairs(&self) -> (result: Vec<(usize, usize)>)
        requires
            self.wf(),
        ensures
            result@ == mapped_pairs(self.entries(), self.entries().len() as int),
    {
        let mut result: Vec<(usize, usize)> = Vec::new();
        let count = self.actual_indices.len();
        let mut index: usize = 0;
        while index < count
            invariant
                self.wf(),
                count == self.entries().len(),
                index <= count,
                result@ == mapped_pairs(self.entries(), index as int),
            decreases count - index,
        {
            let actual = self.actual_indices[index];
            if actual != UNMAPPED {
                result.push((index, actual as usize));
            }
            index += 1;
        }
        result
    }

    /// Number of mapped pairs.
    pub fn compared_pixels(&self) -> (result: u64)
        ensures
            result == self.compared(),
    {
        self.compared_pixels
    }

    /// Expected canvas `(width, height)`.
    pub fn dimensions(&self) -> (result: (u32, u32))
        ensures
            result == (self.expected_size().width, self.expected_size().height),
    {
        (self.expected_width, self.expected_height)
    }
}

/// `(x, y)` lies inside `bounds`.
pub open spec fn bounds_hold(bounds: Bounds, x: int, y: int) -> bool {
    bounds.x <= x < bounds.x + bounds.width && bounds.y <= y < bounds.y + bounds.height
}

/// Position of the first movement from position `k` on whose region holds `(x, y)`.
pub open spec fn first_owner(movements: Seq<MovementMapping>, x: int, y: int, k: int) -> Option<int>
    decreases movements.len() - k,
{
    if k < 0 || k >= movements.len() {
        None
    } else if bounds_hold(movements[k].bounds, x, y) {
        Some(k)
    } else {
        first_owner(movements, x, y, k + 1)
    }
}

/// Expected pixel `(x, y)` lies inside a movement.
pub open spec fn owned(movements: Seq<MovementMapping>, x: int, y: int) -> bool {
    first_owner(movements, x, y, 0) is Some
}

/// The actual pixel that expected pixel `(x, y)` asks for: displaced by the first movement that
/// holds it, else by the global alignment.
pub open spec fn proposed_index(
    actual: ImageDimensions,
    global: Offset,
    movements: Seq<MovementMapping>,
    x: int,
    y: int,
) -> Option<int> {
    match first_owner(movements, x, y, 0) {
        Some(k) => mapped_index(actual, movements[k].offset, x, y),
        None => mapped_index(actual, global, x, y),
    }
}

/// `(qx, qy)` comes before `(x, y)` in row-major order.
pub open spec fn row_major_before(qx: int, qy: int, x: int, y: int) -> bool {
    qy < y || (qy == y && qx < x)
}

/// Expected pixel `(qx, qy)` claims its actual pixel before expected pixel `(x, y)` does:
/// pixels inside movements claim before the others, each group in row-major order.
pub open spec fn claims_before(movements: Seq<MovementMapping>, qx: int, qy: int, x: int, y: int) -> bool {
    (owned(movements, qx, qy) && !owned(movements, x, y)) || (owned(movements, qx, qy) == owned(movements, x, y)
        && row_major_before(qx, qy, x, y))
}

/// Some expected pixel that claims before `(x, y)` asks for actual pixel `a`.
pub open spec fn claimed_earlier(
    expected: ImageDimensions,
    actual: ImageDimensions,
    global: Offset,
    movements: Seq<MovementMapping>,
    x: int,
    y: int,
    a: int,
) -> bool {
    exists|qx: int, qy: int|
        #![trigger proposed_index(actual, global, movements, qx, qy)]
        0 <= qx < expected.width && 0 <= qy < expected.height && claims_before(movements, qx, qy, x, y)
            && proposed_index(actual, global, movements, qx, qy) == Some(a)
}

/// The actual pixel that expected pixel `(x, y)` is paired with under structural alignment: the
/// pixel it asks for, unless an earlier claimant asked for it first.
pub open spec fn structural_target(
    expected: ImageDimensions,
    actual: ImageDimensions,
    global: Offset,
    movements: Seq<MovementMapping>,
    x: int,
    y: int,
) -> Option<int> {
    match proposed_index(actual, global, movements, x, y) {
        Some(a) => if claimed_earlier(expected, actual, global, movements, x, y, a) {
            None
        } else {
            Some(a)
        },
        None => None,
    }
}

/// The stored form of an optional actual index.
pub open spec fn entry_of(target: Option<int>) -> u64 {
    match target {
        Some(a) => a as u64,
        None => UNMAPPED,
    }
}

/// Expected pixel `(qx, qy)` has been handled once the pass over the pixels inside movements
/// (`second` false) or outside them (`second` true) reaches `(cx, cy)`.
pub open spec fn handled(movements: Seq<MovementMapping>, second: bool, qx: int, qy: int, cx: int, cy: int) -> bool {
    if second {
        owned(movements, qx, qy) || row_major_before(qx, qy, cx, cy)
    } else {
        owned(movements, qx, qy) && row_major_before(qx, qy, cx, cy)
    }
}

/// Some handled expected pixel asks for actual pixel `a`.
pub open spec fn claimed_by(
    expected: ImageDimensions,
    actual: ImageDimensions,
    global: Offset,
    movements: Seq<MovementMapping>,
    second: bool,
    cx: int,
    cy: int,
    a: int,
) -> bool {
    exists|qx: int, qy: int|
        #![trigger proposed_index(actual, global, movements, qx, qy)]
        0 <= qx < expected.width && 0 <= qy < expected.height && handled(movements, second, qx, qy, cx, cy)
            && proposed_index(actual, global, movements, qx, qy) == Some(a)
}

/// The storage of a structural mapping while a pass stands at `(cx, cy)`: an actual pixel is
/// claimed exactly when a handled pixel asks for it, and each handled pixel holds its target.
pub open spec fn pass_state(
    entries: Seq<u64>,
    claimed: Seq<bool>,
    expected: ImageDimensions,
    actual: ImageDimensions,
    global: Offset,
    movements: Seq<MovementMapping>,
    second: bool,
    cx: int,
    cy: int,
) -> bool {
    &&& entries.len() == expected.width * expected.height
    &&& claimed.len() == actual.width * actual.height
    &&& forall|i: int| 0 <= i < entries.len() ==> (#[trigger] entries[i] == UNMAPPED || entries[i] < actual.width * actual.height)
    &&& forall|a: int| 0 <= a < claimed.len() ==> (#[trigger] claimed[a] <==> claimed_by(expected, actual, global, movements, second, cx, cy, a))
    &&& forall|qx: int, qy: int|
        0 <= qx < expected.width && 0 <= qy < expected.height ==> #[trigger] entries[flat(expected.width as int, qx, qy)]
            == entry_of(if handled(movements, second, qx, qy, cx, cy) {
            structural_target(expected, actual, global, movements, qx, qy)
        } else {
            None
        })
}

proof fn lemma_mapped_in_range(actual: ImageDimensions, offset: Offset, x: int, y: int)
    ensures
        mapped_index(actual, offset, x, y) matches Some(a) ==> 0 <= a < actual.width * actual.height,
{
    if mapped_index(actual, offset, x, y) is Some {
        lemma_index_in_grid(actual.width as int, actual.height as int, x + offset.x, y + offset.y);
    }
}

proof fn lemma_proposed_in_range(actual: ImageDimensions, global: Offset, movements: Seq<MovementMapping>, x: int, y: int)
    ensures
        proposed_index(actual, global, movements, x, y) matches Some(a) ==> 0 <= a < actual.width * actual.height,
{
    match first_owner(movements, x, y, 0) {
        Some(k) => lemma_mapped_in_range(actual, movements[k].offset, x, y),
        None => lemma_mapped_in_range(actual, global, x, y),
    }
}

proof fn lemma_first_owner_range(movements: Seq<MovementMapping>, x: int, y: int, k: int)
    requires
        0 <= k,
    ensures
        first_owner(movements, x, y, k) matches Some(j) ==> k <= j < movements.len(),
    decreases movements.len() - k,
{
    if k < movements.len() && !bounds_hold(movements[k].bounds, x, y) {
        lemma_first_owner_range(movements, x, y, k + 1);
    }
}

fn owner_at(movements: &[MovementMapping], x: u32, y: u32) -> (result: Option<usize>)
    ensures
        result matches Some(k) ==> first_owner(movements@, x as int, y as int, 0) == Some(k as int) && k < movements@.len(),
        result is None ==> first_owner(movements@, x as int, y as int, 0) is None,
{
    proof {
        lemma_first_owner_range(movements@, x as int, y as int, 0);
    }
    let mut k: usize = 0;
    while k < movements.len()
        invariant
            k <= movements@.len(),
            first_owner(movements@, x as int, y as int, 0) == first_owner(movements@, x as int, y as int, k as int),
        decreases movements@.len() - k,
    {
        let b = movements[k].bounds;
        if (x as u64) >= (b.x as u64) && (x as u64) < (b.x as u64) + (b.width as u64) && (y as u64) >= (b.y as u64) && (y as u64)
            < (b.y as u64) + (b.height as u64) {
            return Some(k);
        }
        k += 1;
    }
    None
}

fn mapped_at(actual: ImageDimensions, offset: Offset, x: u32, y: u32) -> (result: Option<usize>)
    requires
        actual.width * actual.height <= usize::MAX,
    ensures
        match mapped_index(actual, offset, x as int, y as int) {
            Some(a) => result == Some(a as usize) && 0 <= a < actual.width * actual.height,
            None => result is None,
        },
{
    let actual_x: i64 = x as i64 + offset.x as i64;
    let actual_y: i64 = y as i64 + offset.y as i64;
    if actual_x < 0 || actual_y < 0 || actual_x >= actual.width as i64 || actual_y >= actual.height as i64 {
        return None;
    }
    proof {
        lemma_index_in_grid(actual.width as int, actual.height as int, actual_x as int, actual_y as int);
    }
    Some((actual_y as usize) * (actual.width as usize) + (actual_x as usize))
}

fn proposed_at(actual: ImageDimensions, global: Offset, movements: &[MovementMapping], x: u32, y: u32) -> (result: Option<usize>)
    requires
        actual.width * actual.height <= usize::MAX,
    ensures
        match proposed_index(actual, global, movements@, x as int, y as int) {
            Some(a) => result == Some(a as usize) && 0 <= a < actual.width * actual.height,
            None => result is None,
        },
{
    let owner = owner_at(movements, x, y);
    match owner {
        Some(k) => {
            assert(first_owner(movements@, x as int, y as int, 0) == Some(k as int));
            mapped_at(actual, movements[k].offset, x, y)
        },
        None => mapped_at(actual, global, x, y),
    }
}

proof fn lemma_row_end(
    entries: Seq<u64>,
    claimed: Seq<bool>,
    expected: ImageDimensions,
    actual: ImageDimensions,
    global: Offset,
    movements: Seq<MovementMapping>,
    second: bool,
    y: int,
)
    requires
        pass_state(entries, claimed, expected, actual, global, movements, second, expected.width as int, y),
    ensures
        pass_state(entries, claimed, expected, actual, global, movements, second, 0, y + 1),
{
    assert forall|qx: int, qy: int| 0 <= qx < expected.width && 0 <= qy < expected.height implies handled(
        movements,
        second,
        qx,
        qy,
        expected.width as int,
        y,
    ) == handled(movements, second, qx, qy, 0, y + 1) by {}
    assert forall|a: int| 0 <= a < claimed.len() implies claimed_by(
        expected,
        actual,
        global,
        movements,
        second,
        expected.width as int,
        y,
        a,
    ) == claimed_by(expected, actual, global, movements, second, 0, y + 1, a) by {
        if claimed_by(expected, actual, global, movements, second, expected.width as int, y, a) {
            let (qx, qy) = choose|qx: int, qy: int|
                0 <= qx < expected.width && 0 <= qy < expected.height && handled(
                    movements,
                    second,
                    qx,
                    qy,
                    expected.width as int,
                    y,
                ) && proposed_index(actual, global, movements, qx, qy) == Some(a);
            assert(handled(movements, second, qx, qy, 0, y + 1));
        }
        if claimed_by(expected, actual, global, movements, second, 0, y + 1, a) {
            let (qx, qy) = choose|qx: int, qy: int|
                0 <= qx < expected.width && 0 <= qy < expected.height && handled(movements, second, qx, qy, 0, y + 1)
                    && proposed_index(actual, global, movements, qx, qy) == Some(a);
            assert(handled(movements, second, qx, qy, expected.width as int, y));
        }
    }
}

proof fn lemma_between_passes(
    entries: Seq<u64>,
    claimed: Seq<bool>,
    expected: ImageDimensions,
    actual: ImageDimensions,
    global: Offset,
    movements: Seq<MovementMapping>,
)
    requires
        pass_state(entries, claimed, expected, actual, global, movements, false, 0, expected.height as int),
    ensures
        pass_state(entries, claimed, expected, actual, global, movements, true, 0, 0),
{
    assert forall|a: int| 0 <= a < claimed.len() implies claimed_by(
        expected,
        actual,
        global,
        movements,
        false,
        0,
        expected.height as int,
        a,
    ) == claimed_by(expected, actual, global, movements, true, 0, 0, a) by {
        if claimed_by(expected, actual, global, movements, false, 0, expected.height as int, a) {
            let (qx, qy) = choose|qx: int, qy: int|
                0 <= qx < expected.width && 0 <= qy < expected.height && handled(
                    movements,
                    false,
                    qx,
                    qy,
                    0,
                    expected.height as int,
                ) && proposed_index(actual, global, movements, qx, qy) == Some(a);
            assert(handled(movements, true, qx, qy, 0, 0));
        }
        if claimed_by(expected, actual, global, movements, true, 0, 0, a) {
            let (qx, qy) = choose|qx: int, qy: int|
                0 <= qx < expected.width && 0 <= qy < expected.height && handled(movements, true, qx, qy, 0, 0)
                    && proposed_index(actual, global, movements, qx, qy) == Some(a);
            assert(handled(movements, false, qx, qy, 0, expected.height as int));
        }
    }
}

fn claim_pixel(
    entries: &mut Vec<u64>,
    claimed: &mut Vec<bool>,
    expected: ImageDimensions,
    actual: ImageDimensions,
    global: Offset,
    movements: &[MovementMapping],
    second: bool,
    x: u32,
    y: u32,
)
    requires
        pass_state(old(entries)@, old(claimed)@, expected, actual, global, movements@, second, x as int, y as int),
        x < expected.width,
        y < expected.height,
        actual.width * actual.height <= usize::MAX,
        expected.width * expected.height <= usize::MAX,
    ensures
        pass_state(final(entries)@, final(claimed)@, expected, actual, global, movements@, second, x + 1, y as int),
{
    let ghost m = movements@;
    let ghost ew = expected.width as int;
    let ghost p_owned = owned(m, x as int, y as int);
    let ghost before = claimed@;
    let ghost entries_before = entries@;
    proof {
        lemma_index_in_grid(ew, expected.height as int, x as int, y as int);
        // The pixels handled before (x, y) are exactly those that claim before it.
        assert forall|qx: int, qy: int| 0 <= qx < expected.width && 0 <= qy < expected.height && p_owned != second implies
            #[trigger] claims_before(m, qx, qy, x as int, y as int) == handled(m, second, qx, qy, x as int, y as int) by {}
        assert forall|qx: int, qy: int| 0 <= qx < expected.width && 0 <= qy < expected.height && !(qx == x && qy == y) implies
            #[trigger] handled(m, second, qx, qy, x + 1, y as int) == handled(m, second, qx, qy, x as int, y as int) by {}
    }
    let in_pass = match owner_at(movements, x, y) {
        Some(_) => !second,
        None => second,
    };
    let index: usize = (y as usize) * (expected.width as usize) + (x as usize);
    assert(index == flat(ew, x as int, y as int));
    if in_pass {
        assert(p_owned != second);
        match proposed_at(actual, global, movements, x, y) {
            Some(a) => {
                if !claimed[a] {
                    proof {
                        if claimed_earlier(expected, actual, global, m, x as int, y as int, a as int) {
                            let (qx, qy) = choose|qx: int, qy: int|
                                0 <= qx < expected.width && 0 <= qy < expected.height && claims_before(m, qx, qy, x as int, y as int)
                                    && proposed_index(actual, global, m, qx, qy) == Some(a as int);
                            assert(claims_before(m, qx, qy, x as int, y as int));
                            assert(claimed_by(expected, actual, global, m, second, x as int, y as int, a as int));
                        }
                    }
                    claimed.set(a, true);
                    entries.set(index, a as u64);
                } else {
                    proof {
                        assert(claimed_by(expected, actual, global, m, second, x as int, y as int, a as int));
                        let (qx, qy) = choose|qx: int, qy: int|
                            0 <= qx < expected.width && 0 <= qy < expected.height && handled(m, second, qx, qy, x as int, y as int)
                                && proposed_index(actual, global, m, qx, qy) == Some(a as int);
                        assert(claims_before(m, qx, qy, x as int, y as int));
                        assert(claimed_earlier(expected, actual, global, m, x as int, y as int, a as int));
                    }
                }
            },
            None => {},
        }
    }
    proof {
        let after = claimed@;
        assert forall|t: int| 0 <= t < after.len() implies (#[trigger] after[t] <==> claimed_by(
            expected,
            actual,
            global,
            m,
            second,
            x + 1,
            y as int,
            t,
        )) by {
            if after[t] {
                if before[t] {
                    let (qx, qy) = choose|qx: int, qy: int|
                        0 <= qx < expected.width && 0 <= qy < expected.height && handled(m, second, qx, qy, x as int, y as int)
                            && proposed_index(actual, global, m, qx, qy) == Some(t);
                    assert(handled(m, second, qx, qy, x + 1, y as int));
                } else {
                    assert(proposed_index(actual, global, m, x as int, y as int) == Some(t));
                    assert(handled(m, second, x as int, y as int, x + 1, y as int));
                }
            }
            if claimed_by(expected, actual, global, m, second, x + 1, y as int, t) {
                let (qx, qy) = choose|qx: int, qy: int|
                    0 <= qx < expected.width && 0 <= qy < expected.height && handled(m, second, qx, qy, x + 1, y as int)
                        && proposed_index(actual, global, m, qx, qy) == Some(t);
                if qx == x && qy == y {
                    if !in_pass {
                        assert(handled(m, second, qx, qy, x as int, y as int));
                        assert(before[t]);
                    }
                } else {
                    assert(handled(m, second, qx, qy, x as int, y as int));
                    assert(before[t]);
                }
            }
        }
        assert forall|qx: int, qy: int| 0 <= qx < expected.width && 0 <= qy < expected.height implies #[trigger] entries@[flat(
            ew,
            qx,
            qy,
        )] == entry_of(
            if handled(m, second, qx, qy, x + 1, y as int) {
                structural_target(expected, actual, global, m, qx, qy)
            } else {
                None
            },
        ) by {
            if !(qx == x && qy == y) {
                lemma_index_in_grid(ew, expected.height as int, qx, qy);
                if flat(ew, qx, qy) == index {
                    crate::mask::lemma_index_injective(ew, (qx, qy), (x as int, y as int));
                }
                assert(entries@[flat(ew, qx, qy)] == entries_before[flat(ew, qx, qy)]);
            } else {
                lemma_proposed_in_range(actual, global, m, x as int, y as int);
            }
        }
    }
}

fn structural_pass(
    entries: &mut Vec<u64>,
    claimed: &mut Vec<bool>,
    expected: ImageDimensions,
    actual: ImageDimensions,
    global: Offset,
    movements: &[MovementMapping],
    second: bool,
)
    requires
        pass_state(old(entries)@, old(claimed)@, expected, actual, global, movements@, second, 0, 0),
        actual.width * actual.height <= usize::MAX,
        expected.width * expected.height <= usize::MAX,
    ensures
        pass_state(final(entries)@, final(claimed)@, expected, actual, global, movements@, second, 0, expected.height as int),
{
    let mut y: u32 = 0;
    while y < expected.height
        invariant
            y <= expected.height,
            actual.width * actual.height <= usize::MAX,
            expected.width * expected.height <= usize::MAX,
            pass_state(entries@, claimed@, expected, actual, global, movements@, second, 0, y as int),
        decreases expected.height - y,
    {
        let mut x: u32 = 0;
        while x < expected.width
            invariant
                x <= expected.width,
                y < expected.height,
                actual.width * actual.height <= usize::MAX,
                expected.width * expected.height <= usize::MAX,
                pass_state(entries@, claimed@, expected, actual, global, movements@, second, x as int, y as int),
            decreases expected.width - x,
        {
            claim_pixel(entries, claimed, expected, actual, global, movements, second, x, y);
            x += 1;
        }
        proof {
            lemma_row_end(entries@, claimed@, expected, actual, global, movements@, second, y as int);
        }
        y += 1;
    }
}

/// Two distinct expected pixels are never paired with the same actual pixel under structural
/// alignment.
pub proof fn lemma_structural_unique(
    expected: ImageDimensions,
    actual: ImageDimensions,
    global: Offset,
    movements: Seq<MovementMapping>,
    x1: int,
    y1: int,
    x2: int,
    y2: int,
)
    requires
        0 <= x1 < expected.width,
        0 <= y1 < expected.height,
        0 <= x2 < expected.width,
        0 <= y2 < expected.height,
        (x1, y1) != (x2, y2),
        structural_target(expected, actual, global, movements, x1, y1) is Some,
    ensures
        structural_target(expected, actual, global, movements, x2, y2) != structural_target(
            expected,
            actual,
            global,
            movements,
            x1,
            y1,
        ),
{
    let a = structural_target(expected, actual, global, movements, x1, y1)->0;
    if structural_target(expected, actual, global, movements, x2, y2) == Some(a) {
        if claims_before(movements, x1, y1, x2, y2) {
            assert(claimed_earlier(expected, actual, global, movements, x2, y2, a));
        } else {
            assert(claims_before(movements, x2, y2, x1, y1));
            assert(claimed_earlier(expected, actual, global, movements, x1, y1, a));
        }
    }
}

/// Without validated movements, structural alignment pairs every expected pixel exactly as the
/// global alignment does.
pub proof fn lemma_structural_without_movements(
    expected: ImageDimensions,
    actual: ImageDimensions,
    global: Offset,
    x: int,
    y: int,
)
    requires
        0 <= x < expected.width,
        0 <= y < expected.height,
    ensures
        structural_target(expected, actual, global, Seq::<MovementMapping>::empty(), x, y) == mapped_index(actual, global, x, y),
{
    let m = Seq::<MovementMapping>::empty();
    assert(first_owner(m, x, y, 0) is None);
    if let Some(a) = mapped_index(actual, global, x, y) {
        if claimed_earlier(expected, actual, global, m, x, y, a) {
            let (qx, qy) = choose|qx: int, qy: int|
                0 <= qx < expected.width && 0 <= qy < expected.height && claims_before(m, qx, qy, x, y)
                    && proposed_index(actual, global, m, qx, qy) == Some(a);
            assert(first_owner(m, qx, qy, 0) is None);
            crate::mask::lemma_index_injective(
                actual.width as int,
                (qx + global.x, qy + global.y),
                (x + global.x, y + global.y),
            );
        }
    }
}

impl PixelMapping {
    /// Pairs the pixels of a structural alignment: each expected pixel inside a validated
    /// movement asks for the actual pixel displaced by the first movement (in slice order) that
    /// holds it, every other expected pixel for the one displaced by the global alignment, and
    /// each actual pixel goes to the first that asks for it, pixels inside movements first, each
    /// group in row-major order. A pixel whose counterpart lies off the actual canvas or was
    /// already taken stays unmapped.
    ///
    /// Fails when the expected area does not fit in `usize` or storage cannot be reserved.
    pub fn structural(
        expected: ImageDimensions,
        actual: ImageDimensions,
        global: Offset,
        movements: &[MovementMapping],
    ) -> (result: Result<Self, SizeError>)
        requires
            actual.width * actual.height <= usize::MAX,
        ensures
            expected.width * expected.height > usize::MAX ==> result is Err,
            result matches Ok(mapping) ==> {
                &&& mapping.wf()
                &&& mapping.expected_size() == expected
                &&& mapping.compared() == mapped_pairs(mapping.entries(), mapping.entries().len() as int).len()
                &&& forall|x: int, y: int|
                    0 <= x < expected.width && 0 <= y < expected.height ==> #[trigger] mapping.target(x, y)
                        == structural_target(expected, actual, global, movements@, x, y)
            },
    {
        proof {
            lemma_u32_product_fits(expected.width, expected.height);
            lemma_u32_product_fits(actual.width, actual.height);
        }
        let area: u64 = (expected.width as u64) * (expected.height as u64);
        if area > usize::MAX as u64 {
            return Err(SizeError::ImageTooLarge);
        }
        let area: usize = area as usize;
        let actual_area: usize = (actual.width as usize) * (actual.height as usize);
        let mut entries: Vec<u64> = Vec::new();
        if entries.try_reserve(area).is_err() {
            return Err(SizeError::ImageTooLarge);
        }
        let mut claimed: Vec<bool> = Vec::new();
        if claimed.try_reserve(actual_area).is_err() {
            return Err(SizeError::ImageTooLarge);
        }
        let mut filled: usize = 0;
        while filled < area
            invariant
                filled <= area,
                entries@.len() == filled,
                forall|i: int| 0 <= i < filled ==> #[trigger] entries@[i] == UNMAPPED,
            decreases area - filled,
        {
            entries.push(UNMAPPED);
            filled += 1;
        }
        let mut filled: usize = 0;
        while filled < actual_area
            invariant
                filled <= actual_area,
                claimed@.len() == filled,
                forall|i: int| 0 <= i < filled ==> !#[trigger] claimed@[i],
            decreases actual_area - filled,
        {
            claimed.push(false);
            filled += 1;
        }
        let ghost m = movements@;
        proof {
            assert forall|qx: int, qy: int| 0 <= qx < expected.width && 0 <= qy < expected.height implies #[trigger] entries@[flat(
                expected.width as int,
                qx,
                qy,
            )] == entry_of(
                if handled(m, false, qx, qy, 0, 0) {
                    structural_target(expected, actual, global, m, qx, qy)
                } else {
                    None
                },
            ) by {
                lemma_index_in_grid(expected.width as int, expected.height as int, qx, qy);
            }
            assert forall|a: int| 0 <= a < claimed@.len() implies (#[trigger] claimed@[a] <==> claimed_by(
                expected,
                actual,
                global,
                m,
                false,
                0,
                0,
                a,
            )) by {}
        }
        structural_pass(&mut entries, &mut claimed, expected, actual, global, movements, false);
        proof {
            lemma_between_passes(entries@, claimed@, expected, actual, global, m);
        }
        structural_pass(&mut entries, &mut claimed, expected, actual, global, movements, true);
        let mut compared_pixels: u64 = 0;
        let mut index: usize = 0;
        while index < area
            invariant
                index <= area,
                entries@.len() == area,
                compared_pixels <= index,
                area <= u64::MAX,
                compared_pixels == mapped_pairs(entries@, index as int).len(),
            decreases area - index,
        {
            if entries[index] != UNMAPPED {
                compared_pixels += 1;
            }
            index += 1;
        }
        let mapping = PixelMapping {
            expected_width: expected.width,
            expected_height: expected.height,
            actual_indices: entries,
            compared_pixels,
        };
        proof {
            let ew = expected.width as int;
            assert forall|x: int, y: int|
                0 <= x < expected.width && 0 <= y < expected.height implies #[trigger] mapping.target(x, y)
                    == structural_target(expected, actual, global, m, x, y) by {
                lemma_proposed_in_range(actual, global, m, x, y);
                assert(handled(m, true, x, y, 0, expected.height as int));
            }
        }
        Ok(mapping)
    }
}

} // verus!
