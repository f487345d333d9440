//! The grid model: coordinates, the blocked-cell set with its protected
//! endpoints, and the toggle state transition.

use vstd::prelude::*;

verus! {

/// One grid coordinate; equality and hashing are by `(x, y)`.
#[derive(Clone, Copy, PartialEq, Eq, Structural, Hash, Debug)]
pub struct Pos {
    pub x: u8,
    pub y: u8,
}

impl Pos {
    pub fn new(x: u8, y: u8) -> (p: Pos)
        ensures
            p == (Pos { x, y }),
    {
        Pos { x, y }
    }

    /// Bounds-checked construction: `Some` exactly when `(x, y)` lies inside
    /// a `size` by `size` grid.
    pub fn try_new(x: i16, y: i16, size: u8) -> (r: Option<Pos>)
        ensures
            r is Some <==> 0 <= x < size && 0 <= y < size,
            r is Some ==> r->0 == (Pos { x: x as u8, y: y as u8 }),
    {
        if x < 0 || y < 0 || x >= size as i16 || y >= size as i16 {
            None
        } else {
            Some(Pos { x: x as u8, y: y as u8 })
        }
    }
}

/// One toggle intent aimed at integer coordinates, as handed over by the
/// input collaborator; out-of-range targets are dropped, not errors.
#[derive(Clone, Copy, PartialEq, Eq, Structural, Debug)]
pub struct ToggleRequest {
    pub x: i16,
    pub y: i16,
}

/// The mathematical model of a grid: its dimension, the two fixed
/// endpoints, and the set of blocked cells.
#[verifier::ext_equal]
pub struct GridModel {
    pub size: int,
    pub start: Pos,
    pub end: Pos,
    pub blocked: Set<Pos>,
}

impl GridModel {
    pub open spec fn in_bounds(self, x: int, y: int) -> bool {
        0 <= x < self.size && 0 <= y < self.size
    }

    pub open spec fn pos_in(self, c: Pos) -> bool {
        self.in_bounds(c.x as int, c.y as int)
    }

    /// Start and End are exempt from blocking.
    pub open spec fn protected(self, c: Pos) -> bool {
        c == self.start || c == self.end
    }

    /// The grid invariant: endpoints in bounds, distinct, and never
    /// blocked; every blocked cell in bounds.
    pub open spec fn wf(self) -> bool {
        &&& 0 < self.size <= 255
        &&& self.pos_in(self.start)
        &&& self.pos_in(self.end)
        &&& self.start != self.end
        &&& !self.blocked.contains(self.start)
        &&& !self.blocked.contains(self.end)
        &&& forall|c: Pos| self.blocked.contains(c) ==> self.pos_in(c)
    }

    /// The effect of one toggle request on the blocked set: out-of-bounds
    /// and protected targets are no-ops, any other target flips.
    pub open spec fn toggled(self, x: int, y: int) -> GridModel {
        if !self.in_bounds(x, y) {
            self
        } else {
            let c = Pos { x: x as u8, y: y as u8 };
            if self.protected(c) {
                self
            } else if self.blocked.contains(c) {
                GridModel { blocked: self.blocked.remove(c), ..self }
            } else {
                GridModel { blocked: self.blocked.insert(c), ..self }
            }
        }
    }

    /// The effect of a whole batch of toggle requests, applied in arrival
    /// order.
    pub open spec fn applied(self, reqs: Seq<ToggleRequest>) -> GridModel
        decreases reqs.len(),
    {
        if reqs.len() == 0 {
            self
        } else {
            self.applied(reqs.drop_last()).toggled(reqs.last().x as int, reqs.last().y as int)
        }
    }

    /// Row-major index of a cell.
    pub open spec fn idx(self, c: Pos) -> int {
        c.y * self.size + c.x
    }
}

/// The authoritative obstacle and endpoint state. The blocked set is held
/// as a row-major occupancy vector of length `size * size`.
pub struct Grid {
    size: u8,
    start: Pos,
    end: Pos,
    blocked: Vec<bool>,
}

impl View for Grid {
    type V = GridModel;

    closed spec fn view(&self) -> GridModel {
        GridModel {
            size: self.size as int,
            start: self.start,
            end: self.end,
            blocked: Set::new(
                |c: Pos|
                    c.x < self.size && c.y < self.size && self.blocked@[c.y * self.size + c.x],
            ),
        }
    }
}

impl Grid {
    /// Representation invariant tying the occupancy vector to the model.
    pub closed spec fn inv(self) -> bool {
        &&& self.blocked@.len() == self.size * self.size
        &&& self@.wf()
    }

    /// The representation invariant subsumes the model invariant.
    pub broadcast proof fn lemma_inv_wf(self)
        requires
            #[trigger] self.inv(),
        ensures
            self@.wf(),
    {
    }

    /// A new grid with an empty blocked set. Invalid endpoints are a fatal
    /// construction error, ruled out by the precondition.
    pub fn new(size: u8, start: Pos, end: Pos) -> (g: Grid)
        requires
            size > 0,
            start.x < size && start.y < size,
            end.x < size && end.y < size,
            start != end,
        ensures
            g.inv(),
            g@ == (GridModel { size: size as int, start, end, blocked: Set::<Pos>::empty() }),
    {
        proof {
            assert((size as int) * (size as int) <= 255 * 255) by (nonlinear_arith)
                requires
                    0 < size <= 255,
            {
            }
        }
        let n: usize = (size as usize) * (size as usize);
        let mut blocked: Vec<bool> = Vec::new();
        while blocked.len() < n
            invariant
                blocked@.len() <= n,
                forall|i: int| 0 <= i < blocked@.len() ==> !blocked@[i],
            decreases n - blocked@.len(),
        {
            blocked.push(false);
        }
        let g = Grid { size, start, end, blocked };
        proof {
            assert forall|c: Pos| !g@.blocked.contains(c) by {
                if c.x < size && c.y < size {
                    lemma_idx_bounds(g@, c);
                }
            };
            assert(g@.blocked =~= Set::<Pos>::empty());
            assert(g@ =~= (GridModel {
                size: size as int,
                start,
                end,
                blocked: Set::<Pos>::empty(),
            }));
        }
        g
    }

    pub fn size(&self) -> (s: u8)
        ensures
            s == self@.size,
    {
        self.size
    }

    pub fn start(&self) -> (c: Pos)
        ensures
            c == self@.start,
    {
        self.start
    }

    pub fn end(&self) -> (c: Pos)
        ensures
            c == self@.end,
    {
        self.end
    }

    /// True exactly when `c` lies within the grid bounds.
    pub fn contains(&self, c: Pos) -> (r: bool)
        ensures
            r == self@.pos_in(c),
    {
        c.x < self.size && c.y < self.size
    }

    /// True exactly when `c` is Start or End.
    pub fn is_protected(&self, c: Pos) -> (r: bool)
        ensures
            r == self@.protected(c),
    {
        c == self.start || c == self.end
    }

    /// Row-major index of an in-bounds cell.
    pub fn index_of(&self, c: Pos) -> (i: usize)
        requires
            self.inv(),
            self@.pos_in(c),
        ensures
            i == self@.idx(c),
    {
        proof {
            lemma_idx_bounds(self@, c);
            assert(self@.idx(c) < 255 * 255) by (nonlinear_arith)
                requires
                    0 <= c.x < self@.size,
                    0 <= c.y < self@.size,
                    self@.size <= 255,
                    self@.idx(c) == c.y * self@.size + c.x,
            {
            }
        }
        (c.y as usize) * (self.size as usize) + (c.x as usize)
    }

    /// Membership in the blocked set; false for out-of-bounds cells.
    pub fn is_blocked(&self, c: Pos) -> (r: bool)
        requires
            self.inv(),
        ensures
            r == self@.blocked.contains(c),
    {
        if c.x < self.size && c.y < self.size {
            let i = self.index_of(c);
            proof {
                lemma_idx_bounds(self@, c);
            }
            self.blocked[i]
        } else {
            false
        }
    }

    /// The only mutator: flips membership of `c` in the blocked set, unless
    /// `c` is out of bounds or protected, in which case nothing changes.
    pub fn toggle(&mut self, c: Pos)
        requires
            old(self).inv(),
        ensures
            final(self).inv(),
            final(self)@ == old(self)@.toggled(c.x as int, c.y as int),
    {
        let ghost m = self@;
        if c.x < self.size && c.y < self.size && !self.is_protected(c) {
            let i = self.index_of(c);
            proof {
                lemma_idx_bounds(self@, c);
            }
            let was = self.blocked[i];
            self.blocked[i] = !was;
            proof {
                let target = if was {
                    m.blocked.remove(c)
                } else {
                    m.blocked.insert(c)
                };
                assert forall|d: Pos| self@.blocked.contains(d) == target.contains(d) by {
                    if d.x < m.size && d.y < m.size {
                        lemma_idx_bounds(m, d);
                        if d != c && m.idx(d) == m.idx(c) {
                            lemma_idx_injective(m, d, c);
                        }
                    }
                };
                assert(self@.blocked =~= target);
                assert(self@ =~= m.toggled(c.x as int, c.y as int));
            }
        } else {
            proof {
                assert(self@ =~= m.toggled(c.x as int, c.y as int));
            }
        }
    }
}

/// Applies one toggle request to the grid: an out-of-bounds target is
/// dropped silently, any other target is handed to `Grid::toggle`.
pub fn apply_request(grid: &mut Grid, req: ToggleRequest)
    requires
        old(grid).inv(),
    ensures
        final(grid).inv(),
        final(grid)@ == old(grid)@.toggled(req.x as int, req.y as int),
{
    let size = grid.size();
    if let Some(c) = Pos::try_new(req.x, req.y, size) {
        grid.toggle(c);
    }
}

/// Drains a whole batch of toggle requests in arrival order, one at a
/// time; no two requests interleave.
pub fn apply_requests(grid: &mut Grid, reqs: &Vec<ToggleRequest>)
    requires
        old(grid).inv(),
    ensures
        final(grid).inv(),
        final(grid)@ == old(grid)@.applied(reqs@),
{
    let ghost m0 = grid@;
    let mut k: usize = 0;
    while k < reqs.len()
        invariant
            grid.inv(),
            k <= reqs@.len(),
            grid@ == m0.applied(reqs@.take(k as int)),
        decreases reqs@.len() - k,
    {
        apply_request(grid, reqs[k]);
        proof {
            assert(reqs@.take(k + 1).drop_last() =~= reqs@.take(k as int));
            assert(reqs@.take(k + 1).last() == reqs@[k as int]);
        }
        k = k + 1;
    }
    proof {
        assert(reqs@.take(reqs@.len() as int) =~= reqs@);
    }
}

/// Toggling never moves the endpoints or resizes the grid, and a toggle
/// aimed at a protected or out-of-bounds cell changes nothing at all.
pub proof fn lemma_toggled_frame(m: GridModel, x: int, y: int)
    ensures
        m.toggled(x, y).size == m.size,
        m.toggled(x, y).start == m.start,
        m.toggled(x, y).end == m.end,
        !m.in_bounds(x, y) ==> m.toggled(x, y) == m,
        m.in_bounds(x, y) && m.protected(Pos { x: x as u8, y: y as u8 }) ==> m.toggled(x, y)
            == m,
{
}

/// Two toggles aimed at the same cell cancel each other.
pub proof fn lemma_toggle_twice(m: GridModel, x: int, y: int)
    ensures
        m.toggled(x, y).toggled(x, y) == m,
{
    if m.in_bounds(x, y) {
        let c = Pos { x: x as u8, y: y as u8 };
        if !m.protected(c) {
            if m.blocked.contains(c) {
                assert(m.blocked.remove(c).insert(c) =~= m.blocked);
            } else {
                assert(m.blocked.insert(c).remove(c) =~= m.blocked);
            }
            assert(m.toggled(x, y).toggled(x, y) =~= m);
        }
    }
}

/// A batch of toggle requests all aimed at one cell, of even length,
/// leaves the grid exactly as it was: toggles pair up and cancel.
pub proof fn lemma_even_toggles_identity(m: GridModel, x: i16, y: i16, n: nat)
    requires
        n % 2 == 0,
    ensures
        m.applied(Seq::new(n, |i: int| ToggleRequest { x, y })) == m,
    decreases n,
{
    let reqs = Seq::new(n, |i: int| ToggleRequest { x, y });
    if n >= 2 {
        let shorter = Seq::new((n - 2) as nat, |i: int| ToggleRequest { x, y });
        lemma_even_toggles_identity(m, x, y, (n - 2) as nat);
        let r1 = reqs.drop_last();
        assert(m.applied(reqs) == m.applied(r1).toggled(x as int, y as int));
        assert(r1.last() == (ToggleRequest { x, y }));
        assert(m.applied(r1) == m.applied(r1.drop_last()).toggled(x as int, y as int));
        assert(r1.drop_last() =~= shorter);
        lemma_toggle_twice(m, x as int, y as int);
    }
}

/// However the toggle requests run, the endpoints stay where they are and
/// stay outside the blocked set: Start and End can never be blocked.
pub proof fn lemma_endpoints_never_blocked(m: GridModel, reqs: Seq<ToggleRequest>)
    requires
        !m.blocked.contains(m.start),
        !m.blocked.contains(m.end),
    ensures
        m.applied(reqs).size == m.size,
        m.applied(reqs).start == m.start,
        m.applied(reqs).end == m.end,
        !m.applied(reqs).blocked.contains(m.start),
        !m.applied(reqs).blocked.contains(m.end),
    decreases reqs.len(),
{
    if reqs.len() > 0 {
        lemma_endpoints_never_blocked(m, reqs.drop_last());
    }
}

/// A cell's row-major index lies within the occupancy vector.
pub proof fn lemma_idx_bounds(m: GridModel, c: Pos)
    requires
        0 < m.size,
        m.pos_in(c),
    ensures
        0 <= m.idx(c) < m.size * m.size,
{
    assert(c.y * m.size + c.x < m.size * m.size) by (nonlinear_arith)
        requires
            0 <= c.x < m.size,
            0 <= c.y < m.size,
    {
    }
}

/// Distinct in-bounds cells have distinct row-major indices.
pub proof fn lemma_idx_injective(m: GridModel, a: Pos, b: Pos)
    requires
        0 < m.size,
        m.pos_in(a),
        m.pos_in(b),
        m.idx(a) == m.idx(b),
    ensures
        a == b,
{
    assert(a.y == b.y && a.x == b.x) by (nonlinear_arith)
        requires
            0 <= a.x < m.size,
            0 <= a.y < m.size,
            0 <= b.x < m.size,
            0 <= b.y < m.size,
            a.y * m.size + a.x == b.y * m.size + b.x,
    {
    }
}

} // verus!
