use vstd::prelude::*;

use crate::report::{Bounds, SizeError};

verus! {

/// Two grid points touch under eight-neighbour connectivity (a point touches itself).
pub open spec fn adjacent(a: (int, int), b: (int, int)) -> bool {
    a.0 - 1 <= b.0 <= a.0 + 1 && a.1 - 1 <= b.1 <= a.1 + 1
}

/// `a` precedes `b` in row-major scan order.
pub open spec fn scan_before(a: (int, int), b: (int, int)) -> bool {
    a.1 < b.1 || (a.1 == b.1 && a.0 < b.0)
}

/// The mathematical content of a mask: a row-major grid of booleans.
pub struct MaskModel {
    pub width: int,
    pub height: int,
    pub cells: Seq<bool>,
}

/// A connected region of set mask cells.
#[derive(Debug, Clone, Copy, PartialEq, Eq, Structural)]
pub struct Component {
    /// Tight bounding box of the region.
    pub bounds: Bounds,
    /// Number of cells in the region, saturated at `u32::MAX`.
    pub area: u32,
}

impl MaskModel {
    pub open spec fn in_grid(self, p: (int, int)) -> bool {
        0 <= p.0 < self.width && 0 <= p.1 < self.height
    }

    pub open spec fn index_of(self, p: (int, int)) -> int {
        p.1 * self.width + p.0
    }

    pub open spec fn is_set(self, p: (int, int)) -> bool {
        self.in_grid(p) && self.cells[self.index_of(p)]
    }

    /// A set of points that contains every set cell touching one of its members.
    pub open spec fn closed(self, t: Set<(int, int)>) -> bool {
        forall|r: (int, int), s: (int, int)|
            #![trigger t.contains(r), adjacent(r, s)]
            t.contains(r) && self.is_set(s) && adjacent(r, s) ==> t.contains(s)
    }

    /// `q` lies in the eight-connected region of set cells that contains `p`: every closed set
    /// holding `p` holds `q`.
    pub open spec fn connected(self, p: (int, int), q: (int, int)) -> bool {
        &&& self.is_set(p)
        &&& forall|t: Set<(int, int)>| #[trigger] self.closed(t) && t.contains(p) ==> t.contains(q)
    }

    /// The eight-connected region of set cells containing `p`.
    pub open spec fn region(self, p: (int, int)) -> Set<(int, int)> {
        Set::new(|q: (int, int)| self.connected(p, q))
    }

    /// `p` is the first cell of its region in scan order.
    pub open spec fn is_seed(self, p: (int, int)) -> bool {
        &&& self.is_set(p)
        &&& forall|q: (int, int)| #[trigger] self.connected(p, q) ==> !scan_before(q, p)
    }

    /// The component reported for the region that contains `p`.
    pub open spec fn component_of(self, p: (int, int)) -> Component {
        Component {
            bounds: choose|b: Bounds| tight_bounds(self.region(p), b),
            area: if self.region(p).len() > u32::MAX { u32::MAX } else { self.region(p).len() as u32 },
        }
    }

    /// Components of at least `minimum` cells whose seeds precede `(x, y)` in scan order,
    /// listed in the scan order of their seeds.
    pub open spec fn components_before(self, minimum: u32, y: int, x: int) -> Seq<Component>
        decreases y, x,
    {
        if y <= 0 && x <= 0 {
            Seq::empty()
        } else if x <= 0 {
            if self.width <= 0 {
                self.components_before(minimum, y - 1, 0)
            } else {
                self.components_before(minimum, y - 1, self.width)
            }
        } else {
            let previous = self.components_before(minimum, y, x - 1);
            let p = (x - 1, y);
            if self.is_seed(p) && self.component_of(p).area >= minimum {
                previous.push(self.component_of(p))
            } else {
                previous
            }
        }
    }

    /// All eight-connected components of at least `minimum` cells, in the scan order of their
    /// first cells.
    pub open spec fn components(self, minimum: u32) -> Seq<Component> {
        self.components_before(minimum, self.height, 0)
    }
}

impl MaskModel {
    /// The grid point stored at row-major position `i`.
    pub open spec fn point_at(self, i: int) -> (int, int) {
        (i % self.width, i / self.width)
    }

    /// The same grid with every cell inside `b` cleared.
    pub open spec fn without(self, b: Bounds) -> MaskModel {
        MaskModel {
            width: self.width,
            height: self.height,
            cells: Seq::new(self.cells.len(), |i: int| self.cells[i] && !b.contains_point(self.point_at(i))),
        }
    }
}

/// `b` is the tight bounding box of the finite, non-empty point set `r`.
pub open spec fn tight_bounds(r: Set<(int, int)>, b: Bounds) -> bool {
    &&& forall|q: (int, int)| r.contains(q) ==> b.x <= q.0 < b.x + b.width && b.y <= q.1 < b.y + b.height
    &&& exists|q: (int, int)| r.contains(q) && q.0 == b.x
    &&& exists|q: (int, int)| r.contains(q) && q.0 == b.x + b.width - 1
    &&& exists|q: (int, int)| r.contains(q) && q.1 == b.y
    &&& exists|q: (int, int)| r.contains(q) && q.1 == b.y + b.height - 1
}

proof fn lemma_tight_bounds_unique(r: Set<(int, int)>, a: Bounds, b: Bounds)
    requires
        tight_bounds(r, a),
        tight_bounds(r, b),
    ensures
        a == b,
{
    let qa = choose|q: (int, int)| r.contains(q) && q.0 == a.x;
    let qb = choose|q: (int, int)| r.contains(q) && q.0 == b.x;
    let ra = choose|q: (int, int)| r.contains(q) && q.0 == a.x + a.width - 1;
    let rb = choose|q: (int, int)| r.contains(q) && q.0 == b.x + b.width - 1;
    let ta = choose|q: (int, int)| r.contains(q) && q.1 == a.y;
    let tb = choose|q: (int, int)| r.contains(q) && q.1 == b.y;
    let ua = choose|q: (int, int)| r.contains(q) && q.1 == a.y + a.height - 1;
    let ub = choose|q: (int, int)| r.contains(q) && q.1 == b.y + b.height - 1;
    assert(r.contains(qa) && r.contains(qb) && r.contains(ra) && r.contains(rb));
    assert(r.contains(ta) && r.contains(tb) && r.contains(ua) && r.contains(ub));
}

proof fn lemma_set_cells_closed(m: MaskModel)
    ensures
        m.closed(Set::new(|s: (int, int)| m.is_set(s))),
{
}

proof fn lemma_connected_is_set(m: MaskModel, p: (int, int), q: (int, int))
    requires
        m.connected(p, q),
    ensures
        m.is_set(q),
{
    let cells = Set::new(|s: (int, int)| m.is_set(s));
    lemma_set_cells_closed(m);
    assert(cells.contains(p));
}

proof fn lemma_connected_reflexive(m: MaskModel, p: (int, int))
    requires
        m.is_set(p),
    ensures
        m.connected(p, p),
{
}

proof fn lemma_connected_step(m: MaskModel, p: (int, int), q: (int, int), s: (int, int))
    requires
        m.connected(p, q),
        m.is_set(s),
        adjacent(q, s),
    ensures
        m.connected(p, s),
{
    assert forall|t: Set<(int, int)>| #[trigger] m.closed(t) && t.contains(p) implies t.contains(s) by {
        assert(t.contains(q));
    }
}

proof fn lemma_connected_symmetric(m: MaskModel, p: (int, int), q: (int, int))
    requires
        m.connected(p, q),
    ensures
        m.connected(q, p),
{
    lemma_connected_is_set(m, p, q);
    assert forall|t: Set<(int, int)>| #[trigger] m.closed(t) && t.contains(q) implies t.contains(p) by {
        if !t.contains(p) {
            let c = Set::new(|s: (int, int)| m.is_set(s) && !t.contains(s));
            assert forall|r: (int, int), s: (int, int)|
                #![trigger c.contains(r), adjacent(r, s)]
                c.contains(r) && m.is_set(s) && adjacent(r, s) implies c.contains(s) by {
                if t.contains(s) {
                    assert(adjacent(s, r));
                }
            }
            assert(m.closed(c));
            assert(c.contains(p));
        }
    }
}

proof fn lemma_connected_transitive(m: MaskModel, p: (int, int), q: (int, int), r: (int, int))
    requires
        m.connected(p, q),
        m.connected(q, r),
    ensures
        m.connected(p, r),
{
    assert forall|t: Set<(int, int)>| #[trigger] m.closed(t) && t.contains(p) implies t.contains(r) by {
        assert(t.contains(q));
    }
}

} // verus!

verus! {

/// Number of `false` entries.
pub open spec fn count_false(s: Seq<bool>) -> nat
    decreases s.len(),
{
    if s.len() == 0 {
        0
    } else {
        count_false(s.drop_last()) + if s.last() { 0nat } else { 1nat }
    }
}

proof fn lemma_count_false_update(s: Seq<bool>, i: int)
    requires
        0 <= i < s.len(),
        !s[i],
    ensures
        count_false(s.update(i, true)) + 1 == count_false(s),
    decreases s.len(),
{
    let u = s.update(i, true);
    if i == s.len() - 1 {
        assert(u.drop_last() =~= s.drop_last());
    } else {
        lemma_count_false_update(s.drop_last(), i);
        assert(u.drop_last() =~= s.drop_last().update(i, true));
    }
}

/// The row-major index of an in-grid point lies inside the grid's storage.
pub proof fn lemma_index_in_grid(width: int, height: int, x: int, y: int)
    requires
        0 <= x < width,
        0 <= y < height,
    ensures
        0 <= y * width + x < width * height,
        y * width + x < height * width,
        y * width + x <= (height - 1) * width + (width - 1),
{
    assert(width * height == height * width) by (nonlinear_arith);
    assert(0 <= y * width) by (nonlinear_arith)
        requires
            0 <= y,
            0 < width,
    ;
    assert(y * width + x < width * height) by (nonlinear_arith)
        requires
            0 <= x < width,
            0 <= y < height,
    ;
    assert(y * width <= (height - 1) * width) by (nonlinear_arith)
        requires
            0 <= y <= height - 1,
            0 < width,
    ;
}

/// Two points of a grid of the given width with the same row-major index are the same point.
pub proof fn lemma_index_injective(width: int, a: (int, int), b: (int, int))
    requires
        0 <= a.0 < width,
        0 <= b.0 < width,
        0 <= a.1,
        0 <= b.1,
        a.1 * width + a.0 == b.1 * width + b.0,
    ensures
        a == b,
{
    if a.1 < b.1 {
        assert(a.1 * width + width <= b.1 * width) by (nonlinear_arith)
            requires
                a.1 < b.1,
                0 < width,
        ;
    } else if b.1 < a.1 {
        assert(b.1 * width + width <= a.1 * width) by (nonlinear_arith)
            requires
                b.1 < a.1,
                0 < width,
        ;
    }
}

/// Row-major position `i` of a `width` by `height` grid holds the in-grid point
/// `(i % width, i / width)`.
pub proof fn lemma_point_of_index(width: int, height: int, i: int)
    requires
        0 <= height,
        0 <= i < width * height,
    ensures
        0 < width,
        0 <= i % width < width,
        0 <= i / width < height,
        (i / width) * width + i % width == i,
{
    if width <= 0 {
        assert(width * height <= 0) by (nonlinear_arith)
            requires
                width <= 0,
                0 <= height,
        ;
    }
    vstd::arithmetic::div_mod::lemma_fundamental_div_mod(i, width);
    assert((i / width) * width == width * (i / width)) by (nonlinear_arith);
    assert(0 <= i / width) by (nonlinear_arith)
        requires
            0 <= i,
            0 < width,
    ;
    assert(i / width < height) by (nonlinear_arith)
        requires
            0 <= i < width * height,
            0 < width,
            (i / width) * width + i % width == i,
            0 <= i % width,
    ;
}

/// The product of two `u32` values fits in `u64`.
pub proof fn lemma_u32_product_fits(a: u32, b: u32)
    ensures
        (a as int) * (b as int) <= u64::MAX,
        0 <= (a as int) * (b as int),
{
    assert((a as int) * (b as int) <= (u32::MAX as int) * (u32::MAX as int)) by (nonlinear_arith)
        requires
            0 <= a <= u32::MAX,
            0 <= b <= u32::MAX,
    ;
    assert(0 <= (a as int) * (b as int)) by (nonlinear_arith)
        requires
            0 <= a,
            0 <= b,
    ;
}


/// `p` is a grid cell marked in the visit record `v`.
pub open spec fn visited_at(m: MaskModel, v: Seq<bool>, p: (int, int)) -> bool {
    m.in_grid(p) && v[m.index_of(p)]
}

/// Every set cell touching a visited cell is visited.
pub open spec fn visited_closed(m: MaskModel, v: Seq<bool>) -> bool {
    forall|r: (int, int), s: (int, int)|
        #![trigger visited_at(m, v, r), adjacent(r, s)]
        visited_at(m, v, r) && m.is_set(s) && adjacent(r, s) ==> visited_at(m, v, s)
}

pub open spec fn point_of(c: (u32, u32)) -> (int, int) {
    (c.0 as int, c.1 as int)
}

pub open spec fn on_stack(st: Seq<(u32, u32)>, p: (int, int)) -> bool {
    exists|i: int| 0 <= i < st.len() && point_of(st[i]) == p
}

proof fn lemma_visit(m: MaskModel, v: Seq<bool>, s: (int, int))
    requires
        m.in_grid(s),
        v.len() == m.cells.len(),
        m.cells.len() == m.width * m.height,
    ensures
        forall|p: (int, int)|
            m.in_grid(p) ==> (#[trigger] visited_at(m, v.update(m.index_of(s), true), p) <==> (
            visited_at(m, v, p) || p == s)),
        0 <= m.index_of(s) < v.len(),
{
    lemma_index_in_grid(m.width, m.height, s.0, s.1);
    assert forall|p: (int, int)|
        m.in_grid(p) implies (#[trigger] visited_at(m, v.update(m.index_of(s), true), p) <==> (
        visited_at(m, v, p) || p == s)) by {
        lemma_index_in_grid(m.width, m.height, p.0, p.1);
        if p != s && m.index_of(p) == m.index_of(s) {
            lemma_index_injective(m.width, p, s);
        }
    }
}

proof fn lemma_region_is_flood(m: MaskModel, start: (int, int), n: Set<(int, int)>)
    requires
        m.closed(n),
        n.contains(start),
        forall|p: (int, int)| n.contains(p) ==> m.connected(start, p),
    ensures
        m.region(start) == n,
{
    assert forall|q: (int, int)| m.region(start).contains(q) <==> n.contains(q) by {
        if m.connected(start, q) {
            assert(m.closed(n));
        }
    }
    assert(m.region(start) =~= n);
}

/// A boolean grid used to mark perceptually changed or content cells.
#[derive(Debug, PartialEq, Eq)]
pub struct Mask {
    width: u32,
    height: u32,
    values: Vec<bool>,
}

impl Mask {
    /// The cell storage matches the dimensions.
    pub closed spec fn wf(self) -> bool {
        self.values.len() == self.width * self.height
    }

    /// The grid this mask holds.
    pub closed spec fn model(self) -> MaskModel {
        MaskModel { width: self.width as int, height: self.height as int, cells: self.values@ }
    }

    /// A well-formed mask holds one cell per grid point.
    pub proof fn lemma_wf(&self)
        requires
            self.wf(),
        ensures
            self.model().cells.len() == self.model().width * self.model().height,
            0 <= self.model().width <= u32::MAX,
            0 <= self.model().height <= u32::MAX,
    {
    }

    /// Width in cells.
    pub fn width(&self) -> (result: u32)
        ensures
            result == self.model().width,
    {
        self.width
    }

    /// Height in cells.
    pub fn height(&self) -> (result: u32)
        ensures
            result == self.model().height,
    {
        self.height
    }

    /// Creates an all-false mask of `width * height` cells.
    ///
    /// Fails when the area does not fit in `usize` or its storage cannot be reserved.
    pub fn try_new(width: u32, height: u32) -> (result: Result<Self, SizeError>)
        ensures
            (width as int) * (height as int) > usize::MAX ==> result is Err,
            result matches Ok(mask) ==> {
                &&& mask.wf()
                &&& mask.model().width == width
                &&& mask.model().height == height
                &&& mask.model().cells.len() == width * height
                &&& forall|i: int| 0 <= i < width * height ==> !#[trigger] mask.model().cells[i]
            },
    {
        proof {
            lemma_u32_product_fits(width, height);
        }
        let area: u64 = (width as u64) * (height as u64);
        if area > usize::MAX as u64 {
            return Err(SizeError::ImageTooLarge);
        }
        let area: usize = area as usize;
        let mut values: Vec<bool> = Vec::new();
        if values.try_reserve(area).is_err() {
            return Err(SizeError::ImageTooLarge);
        }
        let mut filled: usize = 0;
        while filled < area
            invariant
                filled <= area,
                values@.len() == filled,
                forall|i: int| 0 <= i < filled ==> !#[trigger] values@[i],
            decreases area - filled,
        {
            values.push(false);
            filled += 1;
        }
        Ok(Mask { width, height, values })
    }

    /// Row-major index of an in-bounds cell.
    pub fn index(&self, x: u32, y: u32) -> (result: usize)
        requires
            self.wf(),
            x < self.model().width,
            y < self.model().height,
        ensures
            result == self.model().index_of((x as int, y as int)),
            result < self.model().cells.len(),
    {
        proof {
            lemma_index_in_grid(self.width as int, self.height as int, x as int, y as int);
        }
        (y as usize) * (self.width as usize) + (x as usize)
    }

    /// Whether one in-bounds cell is set.
    pub fn get(&self, x: u32, y: u32) -> (result: bool)
        requires
            self.wf(),
            x < self.model().width,
            y < self.model().height,
        ensures
            result == self.model().is_set((x as int, y as int)),
    {
        let index = self.index(x, y);
        self.values[index]
    }

    /// Sets one in-bounds cell.
    pub fn set(&mut self, x: u32, y: u32, value: bool)
        requires
            old(self).wf(),
            x < old(self).model().width,
            y < old(self).model().height,
        ensures
            final(self).wf(),
            final(self).model().width == old(self).model().width,
            final(self).model().height == old(self).model().height,
            final(self).model().cells == old(self).model().cells.update(
                old(self).model().index_of((x as int, y as int)),
                value,
            ),
    {
        let index = self.index(x, y);
        self.values.set(index, value);
    }

    /// Visits the eight-connected region containing `(start_x, start_y)` and returns its tight
    /// bounds and cell count.
    fn flood_component(
        &self,
        start_x: u32,
        start_y: u32,
        visited: &mut Vec<bool>,
        stack: &mut Vec<(u32, u32)>,
    ) -> (result: Component)
        requires
            self.wf(),
            old(visited)@.len() == self.model().cells.len(),
            self.model().is_set((start_x as int, start_y as int)),
            !visited_at(self.model(), old(visited)@, (start_x as int, start_y as int)),
            visited_closed(self.model(), old(visited)@),
        ensures
            final(visited)@.len() == old(visited)@.len(),
            forall|p: (int, int)|
                self.model().in_grid(p) ==> (#[trigger] visited_at(self.model(), final(visited)@, p) <==> (
                visited_at(self.model(), old(visited)@, p) || self.model().connected(
                    (start_x as int, start_y as int),
                    p,
                ))),
            forall|p: (int, int)|
                self.model().connected((start_x as int, start_y as int), p) ==> !visited_at(
                    self.model(),
                    old(visited)@,
                    p,
                ),
            result == self.model().component_of((start_x as int, start_y as int)),
            result.bounds.x + result.bounds.width <= self.model().width,
            result.bounds.y + result.bounds.height <= self.model().height,
    {
        let ghost m = self.model();
        let ghost start = (start_x as int, start_y as int);
        let ghost v0 = visited@;
        proof {
            self.lemma_wf();
            lemma_connected_reflexive(m, start);
        }
        stack.clear();
        stack.push((start_x, start_y));
        let mut area: u32 = 0;
        let mut minimum_x = start_x;
        let mut minimum_y = start_y;
        let mut maximum_x = start_x;
        let mut maximum_y = start_y;
        let start_index = self.index(start_x, start_y);
        proof {
            lemma_visit(m, v0, start);
            lemma_count_false_update(v0, start_index as int);
        }
        visited.set(start_index, true);
        let ghost mut n_set: Set<(int, int)> = Set::empty().insert(start);
        let ghost mut p_set: Set<(int, int)> = Set::empty();
        let ghost mut wit_min_x = start;
        let ghost mut wit_min_y = start;
        let ghost mut wit_max_x = start;
        let ghost mut wit_max_y = start;
        assert(on_stack(stack@, start)) by {
            assert(point_of(stack@[0]) == start);
        }

        while stack.len() > 0
            invariant
                self.wf(),
                m == self.model(),
                m.cells.len() == m.width * m.height,
                visited@.len() == v0.len(),
                v0.len() == m.cells.len(),
                visited_closed(m, v0),
                m.is_set(start),
                !visited_at(m, v0, start),
                start == (start_x as int, start_y as int),
                forall|p: (int, int)|
                    m.in_grid(p) ==> (#[trigger] visited_at(m, visited@, p) <==> (visited_at(m, v0, p)
                        || n_set.contains(p))),
                forall|p: (int, int)|
                    #[trigger] n_set.contains(p) ==> m.is_set(p) && !visited_at(m, v0, p)
                        && m.connected(start, p),
                n_set.contains(start),
                forall|i: int|
                    0 <= i < stack.len() ==> n_set.contains(point_of(#[trigger] stack@[i]))
                        && !p_set.contains(point_of(stack@[i])),
                forall|i: int, j: int| 0 <= i < j < stack.len() ==> stack@[i] != stack@[j],
                forall|p: (int, int)|
                    #[trigger] n_set.contains(p) ==> p_set.contains(p) || on_stack(stack@, p),
                forall|p: (int, int)| #[trigger] p_set.contains(p) ==> n_set.contains(p),
                forall|r: (int, int), s: (int, int)|
                    #![trigger p_set.contains(r), adjacent(r, s)]
                    p_set.contains(r) && m.is_set(s) && adjacent(r, s) ==> visited_at(m, visited@, s),
                p_set.finite(),
                area as int == if p_set.len() > u32::MAX { u32::MAX as int } else { p_set.len() as int },
                forall|q: (int, int)|
                    p_set.contains(q) || q == start ==> minimum_x <= q.0 <= maximum_x && minimum_y <= q.1
                        <= maximum_y,
                p_set.contains(wit_min_x) || wit_min_x == start,
                p_set.contains(wit_min_y) || wit_min_y == start,
                p_set.contains(wit_max_x) || wit_max_x == start,
                p_set.contains(wit_max_y) || wit_max_y == start,
                wit_min_x.0 == minimum_x,
                wit_min_y.1 == minimum_y,
                wit_max_x.0 == maximum_x,
                wit_max_y.1 == maximum_y,
            decreases 2 * count_false(visited@) + stack.len(),
        {
            let ghost measure = 2 * count_false(visited@) + stack.len();
            let ghost old_stack = stack@;
            let (x, y) = stack.pop().unwrap();
            let ghost cur = (x as int, y as int);
            proof {
                assert(old_stack[old_stack.len() - 1] == (x, y));
                assert(stack@ == old_stack.drop_last());
                assert(n_set.contains(cur) && !p_set.contains(cur));
                assert forall|i: int| 0 <= i < stack.len() implies point_of(#[trigger] stack@[i]) != cur by {
                    assert(old_stack[i] != old_stack[old_stack.len() - 1]);
                }
                assert forall|p: (int, int)| #[trigger] n_set.contains(p) implies p_set.insert(cur).contains(p)
                    || on_stack(stack@, p) by {
                    if !p_set.contains(p) && p != cur {
                        let i = choose|i: int| 0 <= i < old_stack.len() && point_of(old_stack[i]) == p;
                        assert(i != old_stack.len() - 1);
                        assert(point_of(stack@[i]) == p);
                    }
                }
                p_set = p_set.insert(cur);
            }
            area = area.saturating_add(1);
            if x < minimum_x {
                minimum_x = x;
                proof {
                    wit_min_x = cur;
                }
            }
            if y < minimum_y {
                minimum_y = y;
                proof {
                    wit_min_y = cur;
                }
            }
            if x > maximum_x {
                maximum_x = x;
                proof {
                    wit_max_x = cur;
                }
            }
            if y > maximum_y {
                maximum_y = y;
                proof {
                    wit_max_y = cur;
                }
            }
            let low_y = if y > 0 { y - 1 } else { 0 };
            let high_y = if y + 1 < self.height { y + 1 } else { y };
            let low_x = if x > 0 { x - 1 } else { 0 };
            let high_x = if x + 1 < self.width { x + 1 } else { x };
            let mut neighbor_y = low_y;
            while neighbor_y <= high_y
                invariant
                    self.wf(),
                    m == self.model(),
                    m.cells.len() == m.width * m.height,
                    visited@.len() == v0.len(),
                    v0.len() == m.cells.len(),
                    visited_closed(m, v0),
                    !visited_at(m, v0, start),
                    n_set.contains(start),
                    cur == (x as int, y as int),
                    m.in_grid(cur),
                    p_set.contains(cur),
                    low_y <= neighbor_y <= high_y + 1,
                    low_y == if y > 0 { y - 1 } else { 0 },
                    high_y == if y + 1 < m.height { y + 1 } else { y as int },
                    low_x == if x > 0 { x - 1 } else { 0 },
                    high_x == if x + 1 < m.width { x + 1 } else { x as int },
                    forall|p: (int, int)|
                        m.in_grid(p) ==> (#[trigger] visited_at(m, visited@, p) <==> (visited_at(m, v0, p)
                            || n_set.contains(p))),
                    forall|p: (int, int)|
                        #[trigger] n_set.contains(p) ==> m.is_set(p) && !visited_at(m, v0, p)
                            && m.connected(start, p),
                    forall|i: int|
                        0 <= i < stack.len() ==> n_set.contains(point_of(#[trigger] stack@[i]))
                            && !p_set.contains(point_of(stack@[i])),
                    forall|i: int, j: int| 0 <= i < j < stack.len() ==> stack@[i] != stack@[j],
                    forall|p: (int, int)|
                        #[trigger] n_set.contains(p) ==> p_set.contains(p) || on_stack(stack@, p),
                    forall|p: (int, int)| #[trigger] p_set.contains(p) ==> n_set.contains(p),
                    forall|r: (int, int), s: (int, int)|
                        #![trigger p_set.contains(r), adjacent(r, s)]
                        p_set.contains(r) && r != cur && m.is_set(s) && adjacent(r, s) ==> visited_at(m, visited@, s),
                    forall|s: (int, int)|
                        #![trigger visited_at(m, visited@, s)]
                        m.is_set(s) && adjacent(cur, s) && s.1 < neighbor_y ==> visited_at(m, visited@, s),
                    2 * count_false(visited@) + stack.len() < measure,
                decreases high_y + 1 - neighbor_y,
            {
                let mut neighbor_x = low_x;
                while neighbor_x <= high_x
                    invariant
                        self.wf(),
                        m == self.model(),
                        m.cells.len() == m.width * m.height,
                        visited@.len() == v0.len(),
                        v0.len() == m.cells.len(),
                        visited_closed(m, v0),
                        !visited_at(m, v0, start),
                        n_set.contains(start),
                        cur == (x as int, y as int),
                        m.in_grid(cur),
                        p_set.contains(cur),
                        low_y <= neighbor_y <= high_y,
                        low_x <= neighbor_x <= high_x + 1,
                        low_y == if y > 0 { y - 1 } else { 0 },
                        high_y == if y + 1 < m.height { y + 1 } else { y as int },
                        low_x == if x > 0 { x - 1 } else { 0 },
                        high_x == if x + 1 < m.width { x + 1 } else { x as int },
                        forall|p: (int, int)|
                            m.in_grid(p) ==> (#[trigger] visited_at(m, visited@, p) <==> (visited_at(m, v0, p)
                                || n_set.contains(p))),
                        forall|p: (int, int)|
                            #[trigger] n_set.contains(p) ==> m.is_set(p) && !visited_at(m, v0, p)
                                && m.connected(start, p),
                        forall|i: int|
                            0 <= i < stack.len() ==> n_set.contains(point_of(#[trigger] stack@[i]))
                                && !p_set.contains(point_of(stack@[i])),
                        forall|i: int, j: int| 0 <= i < j < stack.len() ==> stack@[i] != stack@[j],
                        forall|p: (int, int)|
                            #[trigger] n_set.contains(p) ==> p_set.contains(p) || on_stack(stack@, p),
                        forall|p: (int, int)| #[trigger] p_set.contains(p) ==> n_set.contains(p),
                        forall|r: (int, int), s: (int, int)|
                            #![trigger p_set.contains(r), adjacent(r, s)]
                            p_set.contains(r) && r != cur && m.is_set(s) && adjacent(r, s) ==> visited_at(m, visited@, s),
                        forall|s: (int, int)|
                            #![trigger visited_at(m, visited@, s)]
                            m.is_set(s) && adjacent(cur, s) && (s.1 < neighbor_y || (s.1 == neighbor_y && s.0 < neighbor_x))
                                ==> visited_at(m, visited@, s),
                        2 * count_false(visited@) + stack.len() < measure,
                    decreases high_x + 1 - neighbor_x,
                {
                    let ghost s = (neighbor_x as int, neighbor_y as int);
                    let index = self.index(neighbor_x, neighbor_y);
                    if !visited[index] && self.values[index] {
                        let ghost old_visited = visited@;
                        let ghost old_stack = stack@;
                        proof {
                            lemma_visit(m, old_visited, s);
                            lemma_count_false_update(old_visited, index as int);
                            assert(m.is_set(s));
                            assert(!visited_at(m, old_visited, s));
                            assert(n_set.contains(cur));
                            lemma_connected_step(m, start, cur, s);
                        }
                        visited.set(index, true);
                        stack.push((neighbor_x, neighbor_y));
                        proof {
                            n_set = n_set.insert(s);
                            assert(point_of(stack@[stack.len() - 1]) == s);
                            assert forall|i: int| 0 <= i < stack.len() - 1 implies #[trigger] stack@[i] != stack@[stack.len() - 1] by {
                                assert(point_of(old_stack[i]) != s);
                            }
                            assert forall|p: (int, int)| #[trigger] n_set.contains(p) implies p_set.contains(p)
                                || on_stack(stack@, p) by {
                                if p == s {
                                    assert(point_of(stack@[stack.len() - 1]) == s);
                                } else if !p_set.contains(p) {
                                    let i = choose|i: int| 0 <= i < old_stack.len() && point_of(old_stack[i]) == p;
                                    assert(point_of(stack@[i]) == p);
                                }
                            }
                        }
                    }
                    neighbor_x += 1;
                }
                neighbor_y += 1;
            }
        }
        proof {
            assert forall|p: (int, int)| #[trigger] n_set.contains(p) implies p_set.contains(p) by {
                if !p_set.contains(p) {
                    assert(on_stack(stack@, p));
                }
            }
            assert(p_set =~= n_set);
            assert forall|r: (int, int), s: (int, int)|
                #![trigger n_set.contains(r), adjacent(r, s)]
                n_set.contains(r) && m.is_set(s) && adjacent(r, s) implies n_set.contains(s) by {
                assert(p_set.contains(r));
                if visited_at(m, v0, s) {
                    assert(adjacent(s, r));
                    assert(visited_at(m, v0, r));
                }
            }
            assert(m.closed(n_set));
            lemma_region_is_flood(m, start, n_set);
            let b = Bounds {
                x: minimum_x,
                y: minimum_y,
                width: (maximum_x - minimum_x + 1) as u32,
                height: (maximum_y - minimum_y + 1) as u32,
            };
            assert(tight_bounds(n_set, b));
            let c = choose|c: Bounds| tight_bounds(m.region(start), c);
            lemma_tight_bounds_unique(n_set, b, c);
            assert(m.in_grid(wit_max_x));
            assert(m.in_grid(wit_max_y));
        }
        Component {
            bounds: Bounds {
                x: minimum_x,
                y: minimum_y,
                width: maximum_x - minimum_x + 1,
                height: maximum_y - minimum_y + 1,
            },
            area,
        }
    }

    /// Eight-connected components of set cells with at least `minimum_area` cells, in the
    /// row-major scan order of each component's first cell.
    ///
    /// Fails only when working storage cannot be reserved.
    pub fn components(&self, minimum_area: u32) -> (result: Result<Vec<Component>, SizeError>)
        requires
            self.wf(),
        ensures
            result matches Ok(found) ==> found@ == self.model().components(minimum_area),
            result matches Ok(found) ==> forall|i: int|
                0 <= i < found@.len() ==> (#[trigger] found@[i]).bounds.x + found@[i].bounds.width <= self.model().width
                    && found@[i].bounds.y + found@[i].bounds.height <= self.model().height,
    {
        let ghost m = self.model();
        proof {
            self.lemma_wf();
        }
        let count = self.values.len();
        let mut visited: Vec<bool> = Vec::new();
        if visited.try_reserve(count).is_err() {
            return Err(SizeError::ImageTooLarge);
        }
        let mut filled: usize = 0;
        while filled < count
            invariant
                filled <= count,
                visited@.len() == filled,
                forall|i: int| 0 <= i < filled ==> !#[trigger] visited@[i],
            decreases count - filled,
        {
            visited.push(false);
            filled += 1;
        }
        let mut stack: Vec<(u32, u32)> = Vec::new();
        if stack.try_reserve(count).is_err() {
            return Err(SizeError::ImageTooLarge);
        }
        let mut components: Vec<Component> = Vec::new();
        proof {
            assert forall|p: (int, int)| !#[trigger] visited_at(m, visited@, p) by {
                if m.in_grid(p) {
                    lemma_index_in_grid(m.width, m.height, p.0, p.1);
                }
            }
            assert forall|r: (int, int), s: (int, int)|
                #![trigger visited_at(m, visited@, r), adjacent(r, s)]
                visited_at(m, visited@, r) && m.is_set(s) && adjacent(r, s) implies visited_at(m, visited@, s) by {
                lemma_index_in_grid(m.width, m.height, r.0, r.1);
            }
        }
        let mut y: u32 = 0;
        while y < self.height
            invariant
                self.wf(),
                m == self.model(),
                m.cells.len() == m.width * m.height,
                visited@.len() == m.cells.len(),
                y <= m.height,
                components@ == m.components_before(minimum_area, y as int, 0),
                forall|i: int|
                    0 <= i < components@.len() ==> (#[trigger] components@[i]).bounds.x + components@[i].bounds.width <= m.width
                        && components@[i].bounds.y + components@[i].bounds.height <= m.height,
                forall|p: (int, int)|
                    #[trigger] visited_at(m, visited@, p) ==> m.is_set(p) && exists|s: (int, int)|
                        #[trigger] m.is_seed(s) && scan_before(s, (0, y as int)) && m.connected(s, p),
                forall|s: (int, int), p: (int, int)|
                    #![trigger m.is_seed(s), m.connected(s, p)]
                    m.is_seed(s) && scan_before(s, (0, y as int)) && m.connected(s, p) ==> visited_at(m, visited@, p),
                forall|p: (int, int)|
                    #[trigger] m.is_set(p) && scan_before(p, (0, y as int)) ==> visited_at(m, visited@, p),
                visited_closed(m, visited@),
            decreases m.height - y,
        {
            let mut x: u32 = 0;
            while x < self.width
                invariant
                    self.wf(),
                    m == self.model(),
                    m.cells.len() == m.width * m.height,
                    visited@.len() == m.cells.len(),
                    y < m.height,
                    x <= m.width,
                    components@ == m.components_before(minimum_area, y as int, x as int),
                    forall|i: int|
                        0 <= i < components@.len() ==> (#[trigger] components@[i]).bounds.x + components@[i].bounds.width <= m.width
                            && components@[i].bounds.y + components@[i].bounds.height <= m.height,
                    forall|p: (int, int)|
                        #[trigger] visited_at(m, visited@, p) ==> m.is_set(p) && exists|s: (int, int)|
                            #[trigger] m.is_seed(s) && scan_before(s, (x as int, y as int)) && m.connected(s, p),
                    forall|s: (int, int), p: (int, int)|
                        #![trigger m.is_seed(s), m.connected(s, p)]
                        m.is_seed(s) && scan_before(s, (x as int, y as int)) && m.connected(s, p) ==> visited_at(m, visited@, p),
                    forall|p: (int, int)|
                        #[trigger] m.is_set(p) && scan_before(p, (x as int, y as int)) ==> visited_at(m, visited@, p),
                    visited_closed(m, visited@),
                decreases m.width - x,
            {
                let ghost here = (x as int, y as int);
                let ghost next = (x as int + 1, y as int);
                let index = self.index(x, y);
                if visited[index] || !self.values[index] {
                    proof {
                        if m.is_seed(here) {
                            if visited_at(m, visited@, here) {
                                let s = choose|s: (int, int)|
                                    #[trigger] m.is_seed(s) && scan_before(s, here) && m.connected(s, here);
                                lemma_connected_symmetric(m, s, here);
                            }
                        }
                        assert(!m.is_seed(here));
                        assert forall|p: (int, int)|
                            #[trigger] visited_at(m, visited@, p) implies m.is_set(p) && exists|s: (int, int)|
                                #[trigger] m.is_seed(s) && scan_before(s, next) && m.connected(s, p) by {
                            let s = choose|s: (int, int)|
                                #[trigger] m.is_seed(s) && scan_before(s, here) && m.connected(s, p);
                            assert(scan_before(s, next));
                        }
                    }
                } else {
                    proof {
                        assert(m.is_set(here));
                        assert forall|q: (int, int)| #[trigger] m.connected(here, q) implies !scan_before(q, here) by {
                            if scan_before(q, here) {
                                lemma_connected_is_set(m, here, q);
                                assert(visited_at(m, visited@, q));
                                let s = choose|s: (int, int)|
                                    #[trigger] m.is_seed(s) && scan_before(s, here) && m.connected(s, q);
                                lemma_connected_symmetric(m, here, q);
                                lemma_connected_transitive(m, s, q, here);
                                assert(visited_at(m, visited@, here));
                            }
                        }
                        assert(m.is_seed(here));
                    }
                    let ghost before = visited@;
                    let component = self.flood_component(x, y, &mut visited, &mut stack);
                    proof {
                        assert forall|p: (int, int)|
                            #[trigger] visited_at(m, visited@, p) implies m.is_set(p) && exists|s: (int, int)|
                                #[trigger] m.is_seed(s) && scan_before(s, next) && m.connected(s, p) by {
                            if visited_at(m, before, p) {
                                let s = choose|s: (int, int)|
                                    #[trigger] m.is_seed(s) && scan_before(s, here) && m.connected(s, p);
                                assert(scan_before(s, next));
                            } else {
                                lemma_connected_is_set(m, here, p);
                                assert(m.is_seed(here) && scan_before(here, next) && m.connected(here, p));
                            }
                        }
                        assert forall|s: (int, int), p: (int, int)|
                            #![trigger m.is_seed(s), m.connected(s, p)]
                            m.is_seed(s) && scan_before(s, next) && m.connected(s, p) implies visited_at(m, visited@, p) by {
                            lemma_connected_is_set(m, s, p);
                            if s != here {
                                assert(visited_at(m, before, p));
                            }
                        }
                        assert forall|r: (int, int), s: (int, int)|
                            #![trigger visited_at(m, visited@, r), adjacent(r, s)]
                            visited_at(m, visited@, r) && m.is_set(s) && adjacent(r, s) implies visited_at(m, visited@, s) by {
                            if visited_at(m, before, r) {
                                assert(visited_at(m, before, s));
                            } else {
                                lemma_connected_step(m, here, r, s);
                            }
                        }
                    }
                    if component.area >= minimum_area {
                        if components.try_reserve(1).is_err() {
                            return Err(SizeError::ImageTooLarge);
                        }
                        components.push(component);
                    }
                }
                x += 1;
            }
            proof {
                assert forall|s: (int, int)| m.in_grid(s) implies (scan_before(s, (m.width, y as int)) <==> scan_before(s, (0, y as int + 1))) by {
                }
            }
            y += 1;
        }
        Ok(components)
    }
}

} // verus!
