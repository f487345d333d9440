//! The pathfinding engine: breadth-first search over the 4-connected grid
//! graph, recomputed from scratch against the current grid state.
//!
//! The search is specified against walks: a walk is a cell sequence that
//! begins at Start, moves one cardinal step at a time, and never steps onto
//! a blocked or out-of-bounds destination. The engine returns a walk to End
//! of minimal length, or reports that no walk to End exists.

use vstd::prelude::*;
use vstd::set_lib::lemma_len_subset;
use vstd::set_lib::lemma_int_range;
use vstd::set_lib::set_int_range;
use crate::grid::Grid;
use crate::grid::GridModel;
use crate::grid::Pos;
use crate::grid::lemma_idx_bounds;
use crate::grid::lemma_idx_injective;

verus! {

/// Two cells are cardinal (4-connected) neighbors.
pub open spec fn adjacent(a: Pos, b: Pos) -> bool {
    ||| a.x == b.x && a.y + 1 == b.y
    ||| a.x == b.x && b.y + 1 == a.y
    ||| a.y == b.y && a.x + 1 == b.x
    ||| a.y == b.y && b.x + 1 == a.x
}

/// A cell the search may step onto: in bounds and not blocked. The blocked
/// check only ever disqualifies destinations; Start is always a valid
/// source.
pub open spec fn step_ok(m: GridModel, c: Pos) -> bool {
    m.pos_in(c) && !m.blocked.contains(c)
}

/// `p` is a walk from Start to `c`: it begins at Start, each later cell is
/// a traversable cardinal neighbor of its predecessor, and it ends at `c`.
pub open spec fn walk_to(m: GridModel, p: Seq<Pos>, c: Pos) -> bool {
    &&& p.len() >= 1
    &&& p[0] == m.start
    &&& p[p.len() - 1] == c
    &&& forall|i: int|
        1 <= i < p.len() ==> adjacent(p[i - 1], #[trigger] p[i]) && step_ok(m, p[i])
}

/// A complete route: a walk from Start to End.
pub open spec fn is_route(m: GridModel, p: Seq<Pos>) -> bool {
    walk_to(m, p, m.end)
}

/// A walk to `b` extends by one traversable neighbor into a walk to `c`.
proof fn lemma_walk_extend(m: GridModel, p: Seq<Pos>, b: Pos, c: Pos)
    requires
        walk_to(m, p, b),
        adjacent(b, c),
        step_ok(m, c),
    ensures
        walk_to(m, p.push(c), c),
{
    let q = p.push(c);
    assert forall|i: int| 1 <= i < q.len() implies adjacent(q[i - 1], #[trigger] q[i])
        && step_ok(m, q[i]) by {
        if i < p.len() {
            assert(q[i] == p[i]);
            assert(q[i - 1] == p[i - 1]);
        } else {
            assert(q[i] == c);
            assert(q[i - 1] == p[p.len() - 1]);
        }
    };
}

/// A walk of two or more cells shrinks to a walk to its next-to-last cell.
proof fn lemma_walk_shrink(m: GridModel, p: Seq<Pos>, c: Pos)
    requires
        walk_to(m, p, c),
        p.len() >= 2,
    ensures
        walk_to(m, p.drop_last(), p[p.len() - 2]),
        adjacent(p[p.len() - 2], c),
        step_ok(m, c),
{
    let q = p.drop_last();
    assert(adjacent(p[p.len() - 2], p[p.len() - 1]) && step_ok(m, p[p.len() - 1]));
    assert forall|i: int| 1 <= i < q.len() implies adjacent(q[i - 1], #[trigger] q[i])
        && step_ok(m, q[i]) by {
        assert(q[i] == p[i]);
        assert(q[i - 1] == p[i - 1]);
    };
}

/// The indices at which the discovery vector is set.
pub open spec fn visited_ids(visited: Seq<bool>) -> Set<int> {
    Set::new(|i: int| 0 <= i < visited.len() && visited[i])
}

/// The discovered-index set is finite and no larger than the vector.
proof fn lemma_visited_card(visited: Seq<bool>)
    ensures
        visited_ids(visited).finite(),
        visited_ids(visited).len() <= visited.len(),
{
    lemma_int_range(0, visited.len() as int);
    assert(visited_ids(visited).subset_of(set_int_range(0, visited.len() as int)));
    lemma_len_subset(visited_ids(visited), set_int_range(0, visited.len() as int));
}

/// Setting one fresh index grows the discovered-index set by exactly one.
proof fn lemma_visited_mark(visited: Seq<bool>, i: int)
    requires
        0 <= i < visited.len(),
        !visited[i],
    ensures
        visited_ids(visited.update(i, true)) == visited_ids(visited).insert(i),
        visited_ids(visited.update(i, true)).len() == visited_ids(visited).len() + 1,
{
    lemma_visited_card(visited);
    assert(visited_ids(visited.update(i, true)) =~= visited_ids(visited).insert(i));
}

/// Soundness of one discovered cell: it is traversable, its recorded
/// distance is the exact shortest walk length from Start, and, unless it
/// is Start itself, its parent link points one step back along such a
/// walk.
pub open spec fn sound_at(
    m: GridModel,
    visited: Seq<bool>,
    dist: Seq<usize>,
    parent: Seq<Pos>,
    c: Pos,
) -> bool {
    let dc = dist[m.idx(c)] as int;
    &&& step_ok(m, c)
    &&& exists|p: Seq<Pos>| #[trigger] walk_to(m, p, c) && p.len() == dc + 1
    &&& forall|p: Seq<Pos>| #[trigger] walk_to(m, p, c) ==> p.len() >= dc + 1
    &&& c == m.start ==> dc == 0
    &&& c != m.start ==> {
        let pr = parent[m.idx(c)];
        &&& m.pos_in(pr)
        &&& visited[m.idx(pr)]
        &&& adjacent(pr, c)
        &&& dist[m.idx(pr)] + 1 == dc
    }
}

/// Soundness of every discovered cell.
pub open spec fn bfs_sound(
    m: GridModel,
    visited: Seq<bool>,
    dist: Seq<usize>,
    parent: Seq<Pos>,
) -> bool {
    forall|c: Pos|
        #![trigger m.idx(c)]
        m.pos_in(c) && visited[m.idx(c)] ==> sound_at(m, visited, dist, parent, c)
}

/// Completeness up to `d` steps: every cell with a walk of at most `d + 1`
/// cells has been discovered.
pub open spec fn bfs_complete(m: GridModel, visited: Seq<bool>, d: int) -> bool {
    forall|p: Seq<Pos>, c: Pos|
        #[trigger] walk_to(m, p, c) && p.len() <= d + 1 ==> visited[m.idx(c)]
}

/// The frontier holds exactly the discovered cells at distance `d`.
pub open spec fn frontier_exact(
    m: GridModel,
    visited: Seq<bool>,
    dist: Seq<usize>,
    frontier: Seq<Pos>,
    d: int,
) -> bool {
    &&& forall|j: int|
        0 <= j < frontier.len() ==> m.pos_in(#[trigger] frontier[j]) && visited[m.idx(
            frontier[j],
        )] && dist[m.idx(frontier[j])] == d
    &&& forall|c: Pos|
        #![trigger m.idx(c)]
        m.pos_in(c) && visited[m.idx(c)] && dist[m.idx(c)] == d ==> frontier.contains(c)
}

/// The relation maintained while one frontier level `d` is being expanded:
/// `visited0` is the discovery vector as the level began, `nf` collects
/// the cells first discovered during this level, all at distance `d + 1`.
pub open spec fn expanding(
    m: GridModel,
    visited0: Seq<bool>,
    dist0: Seq<usize>,
    visited: Seq<bool>,
    dist: Seq<usize>,
    parent: Seq<Pos>,
    nf: Seq<Pos>,
    d: int,
) -> bool {
    &&& visited0.len() == m.size * m.size
    &&& dist0.len() == m.size * m.size
    &&& visited.len() == m.size * m.size
    &&& dist.len() == m.size * m.size
    &&& parent.len() == m.size * m.size
    &&& bfs_sound(m, visited, dist, parent)
    &&& bfs_complete(m, visited, d)
    &&& visited0[m.idx(m.start)]
    &&& forall|i: int| 0 <= i < visited0.len() && #[trigger] visited0[i] ==> visited[i] && dist[i] == dist0[i]
    &&& forall|c: Pos|
        #![trigger m.idx(c)]
        m.pos_in(c) && visited0[m.idx(c)] ==> dist[m.idx(c)] <= d
    &&& forall|c: Pos|
        #![trigger m.idx(c)]
        m.pos_in(c) && visited[m.idx(c)] && !visited0[m.idx(c)] ==> nf.contains(c) && dist[m.idx(
            c,
        )] == d + 1
    &&& forall|j: int|
        0 <= j < nf.len() ==> m.pos_in(#[trigger] nf[j]) && visited[m.idx(nf[j])]
            && !visited0[m.idx(nf[j])]
}

/// Soundness survives discovering a fresh traversable neighbor `c` of the
/// frontier cell `b` at distance `d + 1`.
proof fn lemma_mark_sound(
    m: GridModel,
    v1: Seq<bool>,
    d1: Seq<usize>,
    pa1: Seq<Pos>,
    b: Pos,
    c: Pos,
    d: usize,
)
    requires
        m.wf(),
        v1.len() == m.size * m.size,
        d1.len() == m.size * m.size,
        pa1.len() == m.size * m.size,
        bfs_sound(m, v1, d1, pa1),
        bfs_complete(m, v1, d as int),
        v1[m.idx(m.start)],
        m.pos_in(b),
        v1[m.idx(b)],
        d1[m.idx(b)] == d,
        m.pos_in(c),
        !m.blocked.contains(c),
        adjacent(b, c),
        !v1[m.idx(c)],
        d < m.size * m.size,
        m.size * m.size <= 255 * 255,
    ensures
        bfs_sound(
            m,
            v1.update(m.idx(c), true),
            d1.update(m.idx(c), ((d + 1) as usize)),
            pa1.update(m.idx(c), b),
        ),
{
    let ic = m.idx(c);
    lemma_idx_bounds(m, c);
    lemma_idx_bounds(m, b);
    let v2 = v1.update(ic, true);
    let d2 = d1.update(ic, ((d + 1) as usize));
    let p2 = pa1.update(ic, b);
    assert(step_ok(m, c));
    assert(c != m.start);
    // a recorded shortest walk to b, extended by one step, reaches c
    assert(sound_at(m, v1, d1, pa1, b));
    let pb = choose|p: Seq<Pos>| #[trigger] walk_to(m, p, b) && p.len() == d1[m.idx(b)] + 1;
    lemma_walk_extend(m, pb, b, c);
    assert(walk_to(m, pb.push(c), c) && pb.push(c).len() == d + 2);
    // and no shorter walk reaches c, else c were already discovered
    assert forall|p: Seq<Pos>| #[trigger] walk_to(m, p, c) implies p.len() >= d + 2 by {
        if p.len() <= d + 1 {
            assert(v1[m.idx(c)]);
        }
    };
    assert(sound_at(m, v2, d2, p2, c));
    assert forall|c2: Pos|
        #![trigger m.idx(c2)]
        m.pos_in(c2) && v2[m.idx(c2)] implies sound_at(m, v2, d2, p2, c2) by {
        lemma_idx_bounds(m, c2);
        if c2 != c {
            if m.idx(c2) == ic {
                lemma_idx_injective(m, c2, c);
            }
            assert(v1[m.idx(c2)]);
            assert(sound_at(m, v1, d1, pa1, c2));
            let q2 = choose|p: Seq<Pos>|
                #[trigger] walk_to(m, p, c2) && p.len() == d1[m.idx(c2)] + 1;
            assert(walk_to(m, q2, c2) && q2.len() == d2[m.idx(c2)] + 1);
            if c2 != m.start {
                let pr2 = pa1[m.idx(c2)];
                lemma_idx_bounds(m, pr2);
                assert(v1[m.idx(pr2)]);
                assert(v2[m.idx(pr2)]);
                assert(d2[m.idx(pr2)] == d1[m.idx(pr2)]);
            }
        }
    };
}

/// Completeness survives discovering one more cell.
proof fn lemma_mark_complete(m: GridModel, v1: Seq<bool>, c: Pos, d: usize)
    requires
        m.wf(),
        v1.len() == m.size * m.size,
        bfs_complete(m, v1, d as int),
        m.pos_in(c),
    ensures
        bfs_complete(m, v1.update(m.idx(c), true), d as int),
{
    lemma_idx_bounds(m, c);
    let v2 = v1.update(m.idx(c), true);
    assert forall|p: Seq<Pos>, c2: Pos|
        #[trigger] walk_to(m, p, c2) && p.len() <= d + 1 implies v2[m.idx(c2)] by {
        assert(v1[m.idx(c2)]);
        if p.len() == 1 {
            assert(c2 == p[0]);
            assert(c2 == m.start);
        } else {
            assert(step_ok(m, p[p.len() - 1]));
            assert(p[p.len() - 1] == c2);
        }
        assert(m.pos_in(c2));
        lemma_idx_bounds(m, c2);
        assert(v2[m.idx(c2)]);
    };
}

/// The whole expansion relation survives discovering a fresh traversable
/// neighbor `c` of the frontier cell `b`.
proof fn lemma_mark_expanding(
    m: GridModel,
    visited0: Seq<bool>,
    dist0: Seq<usize>,
    v1: Seq<bool>,
    d1: Seq<usize>,
    pa1: Seq<Pos>,
    nf1: Seq<Pos>,
    b: Pos,
    c: Pos,
    d: usize,
)
    requires
        m.wf(),
        expanding(m, visited0, dist0, v1, d1, pa1, nf1, d as int),
        m.pos_in(b),
        visited0[m.idx(b)],
        d1[m.idx(b)] == d,
        m.pos_in(c),
        !m.blocked.contains(c),
        adjacent(b, c),
        !v1[m.idx(c)],
        d < m.size * m.size,
        m.size * m.size <= 255 * 255,
    ensures
        expanding(
            m,
            visited0,
            dist0,
            v1.update(m.idx(c), true),
            d1.update(m.idx(c), ((d + 1) as usize)),
            pa1.update(m.idx(c), b),
            nf1.push(c),
            d as int,
        ),
{
    let ic = m.idx(c);
    lemma_idx_bounds(m, c);
    lemma_idx_bounds(m, b);
    lemma_idx_bounds(m, m.start);
    assert(v1[m.idx(b)]);
    assert(v1[m.idx(m.start)]);
    lemma_mark_sound(m, v1, d1, pa1, b, c, d);
    lemma_mark_complete(m, v1, c, d);
    let v2 = v1.update(ic, true);
    let d2 = d1.update(ic, ((d + 1) as usize));
    let nf2 = nf1.push(c);
    assert forall|c2: Pos|
        #![trigger m.idx(c2)]
        m.pos_in(c2) && v2[m.idx(c2)] && !visited0[m.idx(c2)] implies nf2.contains(c2)
        && d2[m.idx(c2)] == d + 1 by {
        lemma_idx_bounds(m, c2);
        if c2 == c {
            assert(nf2[nf2.len() - 1] == c);
        } else {
            if m.idx(c2) == ic {
                lemma_idx_injective(m, c2, c);
            }
            assert(v1[m.idx(c2)]);
            assert(nf1.contains(c2));
            let k = choose|k: int| 0 <= k < nf1.len() && nf1[k] == c2;
            assert(nf2[k] == c2);
        }
    };
    assert forall|j: int| 0 <= j < nf2.len() implies m.pos_in(#[trigger] nf2[j])
        && v2[m.idx(nf2[j])] && !visited0[m.idx(nf2[j])] by {
        if j < nf1.len() {
            assert(nf2[j] == nf1[j]);
            lemma_idx_bounds(m, nf1[j]);
        } else {
            assert(nf2[j] == c);
        }
    };
    assert forall|i: int| 0 <= i < visited0.len() && #[trigger] visited0[i] implies v2[i] && d2[i]
        == dist0[i] by {
        assert(v1[i]);
        assert(d1[i] == dist0[i]);
    };
    assert forall|c2: Pos|
        #![trigger m.idx(c2)]
        m.pos_in(c2) && visited0[m.idx(c2)] implies d2[m.idx(c2)] <= d by {
        lemma_idx_bounds(m, c2);
        assert(v1[m.idx(c2)]);
        assert(d2[m.idx(c2)] == d1[m.idx(c2)]);
    };
}

/// After a whole frontier level `d` has been expanded, completeness
/// reaches one step further: every cell a walk of at most `d + 2` cells
/// reaches has been discovered.
proof fn lemma_round_complete(
    m: GridModel,
    visited0: Seq<bool>,
    dist0: Seq<usize>,
    visited: Seq<bool>,
    dist: Seq<usize>,
    parent: Seq<Pos>,
    nf: Seq<Pos>,
    frontier: Seq<Pos>,
    d: usize,
)
    requires
        m.wf(),
        expanding(m, visited0, dist0, visited, dist, parent, nf, d as int),
        forall|j: int|
            0 <= j < frontier.len() ==> m.pos_in(#[trigger] frontier[j]) && visited0[m.idx(
                frontier[j],
            )] && dist0[m.idx(frontier[j])] == d,
        forall|c: Pos|
            #![trigger m.idx(c)]
            m.pos_in(c) && visited0[m.idx(c)] && dist0[m.idx(c)] == d ==> frontier.contains(c),
        forall|j: int, c: Pos|
            #![trigger adjacent(frontier[j], c)]
            0 <= j < frontier.len() && adjacent(frontier[j], c) && step_ok(m, c) ==> visited[m.idx(
                c,
            )],
    ensures
        bfs_complete(m, visited, d + 1),
{
    assert forall|p: Seq<Pos>, c: Pos|
        #[trigger] walk_to(m, p, c) && p.len() <= d + 2 implies visited[m.idx(c)] by {
        if p.len() <= d + 1 {
            assert(visited[m.idx(c)]);
        } else {
            lemma_walk_shrink(m, p, c);
            let b2 = p[p.len() - 2];
            let p2 = p.drop_last();
            assert(walk_to(m, p2, b2) && p2.len() == d + 1);
            assert(visited[m.idx(b2)]);
            if p2.len() == 1 {
                assert(b2 == p2[0]);
                assert(b2 == m.start);
            } else {
                assert(adjacent(p[p2.len() - 2], #[trigger] p[p2.len() - 1]) && step_ok(
                    m,
                    p[p2.len() - 1],
                ));
                assert(step_ok(m, b2));
            }
            assert(m.pos_in(b2));
            lemma_idx_bounds(m, b2);
            assert(sound_at(m, visited, dist, parent, b2));
            assert(dist[m.idx(b2)] <= d);
            assert(visited0[m.idx(b2)]);
            if dist[m.idx(b2)] == d {
                assert(dist0[m.idx(b2)] == d);
                assert(frontier.contains(b2));
                let j = choose|j: int| 0 <= j < frontier.len() && frontier[j] == b2;
                assert(adjacent(frontier[j], c) && step_ok(m, c));
                assert(visited[m.idx(c)]);
            } else {
                let q = choose|q: Seq<Pos>|
                    #[trigger] walk_to(m, q, b2) && q.len() == dist[m.idx(b2)] + 1;
                lemma_walk_extend(m, q, b2, c);
                assert(walk_to(m, q.push(c), c) && q.push(c).len() <= d + 1);
                assert(visited[m.idx(c)]);
            }
        }
    };
}

/// Once a whole level found nothing new, the search has discovered every
/// cell that any walk at all can reach.
proof fn lemma_exhausted(
    m: GridModel,
    visited: Seq<bool>,
    dist: Seq<usize>,
    parent: Seq<Pos>,
    d: usize,
    p: Seq<Pos>,
    c: Pos,
)
    requires
        m.wf(),
        visited.len() == m.size * m.size,
        dist.len() == m.size * m.size,
        parent.len() == m.size * m.size,
        bfs_sound(m, visited, dist, parent),
        bfs_complete(m, visited, d + 1),
        forall|c2: Pos|
            #![trigger m.idx(c2)]
            m.pos_in(c2) && visited[m.idx(c2)] ==> dist[m.idx(c2)] <= d,
        walk_to(m, p, c),
    ensures
        visited[m.idx(c)],
    decreases p.len(),
{
    if p.len() > d + 2 {
        lemma_walk_shrink(m, p, c);
        let b2 = p[p.len() - 2];
        let p2 = p.drop_last();
        lemma_exhausted(m, visited, dist, parent, d, p2, b2);
        assert(adjacent(p[p2.len() - 2], #[trigger] p[p2.len() - 1]) && step_ok(
            m,
            p[p2.len() - 1],
        ));
        assert(step_ok(m, b2));
        lemma_idx_bounds(m, b2);
        assert(sound_at(m, visited, dist, parent, b2));
        let q = choose|q: Seq<Pos>| #[trigger] walk_to(m, q, b2) && q.len() == dist[m.idx(b2)] + 1;
        lemma_walk_extend(m, q, b2, c);
        assert(walk_to(m, q.push(c), c) && q.push(c).len() <= d + 2);
    }
}

/// Considers one neighbor candidate `(cx, cy)` of the frontier cell `b`
/// while level `d` is expanded: a traversable, not yet discovered
/// candidate is discovered at distance `d + 1` with parent `b` and joins
/// the next frontier; anything else is left alone.
#[verifier::rlimit(100)]
fn visit_candidate(
    grid: &Grid,
    visited: &mut Vec<bool>,
    dist: &mut Vec<usize>,
    parent: &mut Vec<Pos>,
    nf: &mut Vec<Pos>,
    b: Pos,
    cx: i16,
    cy: i16,
    d: usize,
    Ghost(visited0): Ghost<Seq<bool>>,
    Ghost(dist0): Ghost<Seq<usize>>,
)
    requires
        grid.inv(),
        expanding(
            grid@,
            visited0,
            dist0,
            old(visited)@,
            old(dist)@,
            old(parent)@,
            old(nf)@,
            d as int,
        ),
        grid@.pos_in(b),
        visited0[grid@.idx(b)],
        dist0[grid@.idx(b)] == d,
        d < grid@.size * grid@.size,
        (cx == b.x && (cy == b.y + 1 || cy + 1 == b.y)) || (cy == b.y && (cx == b.x + 1 || cx + 1
            == b.x)),
    ensures
        expanding(
            grid@,
            visited0,
            dist0,
            final(visited)@,
            final(dist)@,
            final(parent)@,
            final(nf)@,
            d as int,
        ),
        forall|i: int|
            0 <= i < old(visited)@.len() && #[trigger] old(visited)@[i] ==> final(visited)@[i]
                && final(dist)@[i] == old(dist)@[i] && final(parent)@[i] == old(parent)@[i],
        visited_ids(final(visited)@).len() - final(nf)@.len() == visited_ids(old(visited)@).len()
            - old(nf)@.len(),
        0 <= cx < grid@.size && 0 <= cy < grid@.size && !grid@.blocked.contains(
            (Pos { x: cx as u8, y: cy as u8 }),
        ) ==> final(visited)@[grid@.idx((Pos { x: cx as u8, y: cy as u8 }))],
{
    let ghost m = grid@;
    proof {
        grid.lemma_inv_wf();
        assert(m.size * m.size <= 255 * 255) by (nonlinear_arith)
            requires
                0 < m.size <= 255,
        {
        }
        lemma_idx_bounds(m, b);
        assert(old(visited)@[m.idx(b)] && old(dist)@[m.idx(b)] == dist0[m.idx(b)]);
    }
    let size = grid.size();
    if let Some(c) = Pos::try_new(cx, cy, size) {
        if !grid.is_blocked(c) {
            let ic = grid.index_of(c);
            proof {
                lemma_idx_bounds(m, c);
            }
            if !visited[ic] {
                let ghost v1 = visited@;
                let ghost d1 = dist@;
                let ghost pa1 = parent@;
                let ghost nf1 = nf@;
                visited[ic] = true;
                dist[ic] = d + 1;
                parent[ic] = b;
                nf.push(c);
                proof {
                    lemma_visited_mark(v1, ic as int);
                    lemma_mark_expanding(m, visited0, dist0, v1, d1, pa1, nf1, b, c, d);
                    assert(visited@ == v1.update(m.idx(c), true));
                    assert(dist@ == d1.update(m.idx(c), ((d + 1) as usize)));
                    assert(parent@ == pa1.update(m.idx(c), b));
                }
            }
        }
    }
}

/// Walks the parent links back from End and returns the recorded shortest
/// walk, Start first.
fn reconstruct(grid: &Grid, visited: &Vec<bool>, dist: &Vec<usize>, parent: &Vec<Pos>) -> (p: Vec<
    Pos,
>)
    requires
        grid.inv(),
        visited@.len() == grid@.size * grid@.size,
        dist@.len() == grid@.size * grid@.size,
        parent@.len() == grid@.size * grid@.size,
        bfs_sound(grid@, visited@, dist@, parent@),
        visited@[grid@.idx(grid@.start)],
        visited@[grid@.idx(grid@.end)],
    ensures
        walk_to(grid@, p@, grid@.end),
        p@.len() == dist@[grid@.idx(grid@.end)] + 1,
{
    let ghost m = grid@;
    proof {
        grid.lemma_inv_wf();
    }
    let start = grid.start();
    let end = grid.end();
    let mut cur: Pos = end;
    let mut p: Vec<Pos> = Vec::new();
    p.push(end);
    while cur != start
        invariant
            grid.inv(),
            m == grid@,
            visited@.len() == m.size * m.size,
            dist@.len() == m.size * m.size,
            parent@.len() == m.size * m.size,
            bfs_sound(m, visited@, dist@, parent@),
            start == m.start,
            end == m.end,
            m.pos_in(cur),
            visited@[m.idx(cur)],
            p@.len() >= 1,
            p@[0] == cur,
            p@[p@.len() - 1] == m.end,
            p@.len() + dist@[m.idx(cur)] == dist@[m.idx(m.end)] + 1,
            forall|i: int|
                1 <= i < p@.len() ==> adjacent(p@[i - 1], #[trigger] p@[i]) && step_ok(m, p@[i]),
        decreases dist@[m.idx(cur)],
    {
        let ic = grid.index_of(cur);
        proof {
            lemma_idx_bounds(m, cur);
            assert(sound_at(m, visited@, dist@, parent@, cur));
        }
        let pr = parent[ic];
        proof {
            lemma_idx_bounds(m, pr);
            assert(sound_at(m, visited@, dist@, parent@, pr));
        }
        let ghost p_old = p@;
        p.insert(0, pr);
        proof {
            assert forall|i: int| 1 <= i < p@.len() implies adjacent(p@[i - 1], #[trigger] p@[i])
                && step_ok(m, p@[i]) by {
                if i == 1 {
                    assert(p@[0] == pr);
                    assert(p@[1] == p_old[0]);
                } else {
                    assert(p@[i] == p_old[i - 1]);
                    assert(p@[i - 1] == p_old[i - 2]);
                }
            };
        }
        cur = pr;
    }
    proof {
        assert(sound_at(m, visited@, dist@, parent@, m.start));
    }
    p
}

/// The search state just after initialization — only Start discovered, at
/// distance zero, forming the whole frontier — satisfies the invariants.
proof fn lemma_init(
    m: GridModel,
    visited: Seq<bool>,
    dist: Seq<usize>,
    parent: Seq<Pos>,
    frontier: Seq<Pos>,
)
    requires
        m.wf(),
        visited.len() == m.size * m.size,
        dist.len() == m.size * m.size,
        parent.len() == m.size * m.size,
        forall|i: int| 0 <= i < visited.len() ==> (#[trigger] visited[i] <==> i == m.idx(m.start)),
        forall|i: int| 0 <= i < dist.len() ==> #[trigger] dist[i] == 0,
        frontier =~= seq![m.start],
    ensures
        bfs_sound(m, visited, dist, parent),
        bfs_complete(m, visited, 0),
        frontier_exact(m, visited, dist, frontier, 0),
        visited[m.idx(m.start)],
        forall|c: Pos|
            #![trigger m.idx(c)]
            m.pos_in(c) && visited[m.idx(c)] ==> dist[m.idx(c)] <= 0,
{
    assert forall|c: Pos|
        #![trigger m.idx(c)]
        m.pos_in(c) && visited[m.idx(c)] implies dist[m.idx(c)] <= 0 by {
        lemma_idx_bounds(m, c);
    };
    lemma_idx_bounds(m, m.start);
    assert(walk_to(m, seq![m.start], m.start));
    assert forall|c: Pos|
        #![trigger m.idx(c)]
        m.pos_in(c) && visited[m.idx(c)] implies sound_at(m, visited, dist, parent, c) by {
        lemma_idx_bounds(m, c);
        lemma_idx_injective(m, c, m.start);
        assert(c == m.start);
        assert(walk_to(m, seq![m.start], m.start) && seq![m.start].len() == dist[m.idx(c)] + 1);
    };
    assert forall|p: Seq<Pos>, c: Pos|
        #[trigger] walk_to(m, p, c) && p.len() <= 1 implies visited[m.idx(c)] by {
        assert(c == p[0]);
        assert(c == m.start);
    };
    assert(frontier[0] == m.start);
    assert forall|c: Pos|
        #![trigger m.idx(c)]
        m.pos_in(c) && visited[m.idx(c)] && dist[m.idx(c)] == 0 implies frontier.contains(c) by {
        lemma_idx_bounds(m, c);
        lemma_idx_injective(m, c, m.start);
        assert(frontier[0] == c);
    };
}

/// Recomputes the route from scratch: breadth-first expansion from Start,
/// goal test on dequeue, neighbors tried north, south, west, east.
/// Returns a shortest walk from Start to End over the current blocked set,
/// or `None` exactly when no walk reaches End.
#[verifier::rlimit(100)]
pub fn shortest_path(grid: &Grid) -> (r: Option<Vec<Pos>>)
    requires
        grid.inv(),
    ensures
        match r {
            Some(p) => is_route(grid@, p@) && (forall|q: Seq<Pos>|
                is_route(grid@, q) ==> p@.len() <= q.len()),
            None => forall|q: Seq<Pos>| !is_route(grid@, q),
        },
{
    let ghost m = grid@;
    proof {
        grid.lemma_inv_wf();
        assert(m.size * m.size <= 255 * 255) by (nonlinear_arith)
            requires
                0 < m.size <= 255,
        {
        }
    }
    let size = grid.size();
    let n: usize = (size as usize) * (size as usize);
    let start = grid.start();
    let end = grid.end();
    let mut visited: Vec<bool> = filled(n, false);
    let mut dist: Vec<usize> = filled(n, 0);
    let mut parent: Vec<Pos> = filled(n, start);
    let istart = grid.index_of(start);
    proof {
        lemma_idx_bounds(m, start);
    }
    let ghost vinit = visited@;
    visited[istart] = true;
    let mut frontier: Vec<Pos> = Vec::new();
    frontier.push(start);
    let mut d: usize = 0;
    proof {
        lemma_visited_mark(vinit, istart as int);
        assert(visited_ids(vinit) =~= Set::<int>::empty());
        assert(frontier@ =~= seq![m.start]);
        lemma_init(m, visited@, dist@, parent@, frontier@);
    }
    loop
        invariant
            grid.inv(),
            m == grid@,
            m.wf(),
            n == m.size * m.size,
            n <= 255 * 255,
            size == m.size,
            start == m.start,
            end == m.end,
            visited@.len() == n,
            dist@.len() == n,
            parent@.len() == n,
            bfs_sound(m, visited@, dist@, parent@),
            bfs_complete(m, visited@, d as int),
            frontier_exact(m, visited@, dist@, frontier@, d as int),
            frontier@.len() >= 1,
            forall|c: Pos|
                #![trigger m.idx(c)]
                m.pos_in(c) && visited@[m.idx(c)] ==> dist@[m.idx(c)] <= d,
            visited@[m.idx(m.start)],
            d < visited_ids(visited@).len(),
        decreases n - visited_ids(visited@).len(),
    {
        let iend = grid.index_of(end);
        proof {
            lemma_idx_bounds(m, end);
        }
        if visited[iend] {
            let p = reconstruct(grid, &visited, &dist, &parent);
            proof {
                assert(sound_at(m, visited@, dist@, parent@, m.end));
            }
            return Some(p);
        }
        let ghost visited0 = visited@;
        let ghost dist0 = dist@;
        let ghost card0 = visited_ids(visited@).len();
        proof {
            lemma_visited_card(visited@);
        }
        let mut nf: Vec<Pos> = Vec::new();
        let mut j: usize = 0;
        while j < frontier.len()
            invariant
                grid.inv(),
                m == grid@,
                m.wf(),
                n == m.size * m.size,
                n <= 255 * 255,
                size == m.size,
                j <= frontier@.len(),
                d < card0,
                card0 <= n,
                expanding(m, visited0, dist0, visited@, dist@, parent@, nf@, d as int),
                visited_ids(visited@).len() == card0 + nf@.len(),
                !visited0[m.idx(m.end)],
                forall|j2: int|
                    0 <= j2 < frontier@.len() ==> m.pos_in(#[trigger] frontier@[j2])
                        && visited0[m.idx(frontier@[j2])] && dist0[m.idx(frontier@[j2])] == d,
                forall|c: Pos|
                    #![trigger m.idx(c)]
                    m.pos_in(c) && visited0[m.idx(c)] && dist0[m.idx(c)] == d
                        ==> frontier@.contains(c),
                forall|j2: int, c: Pos|
                    #![trigger adjacent(frontier@[j2], c)]
                    0 <= j2 < j && adjacent(frontier@[j2], c) && step_ok(m, c)
                        ==> visited@[m.idx(c)],
            decreases frontier@.len() - j,
        {
            let b = frontier[j];
            let ghost va = visited@;
            let bx = b.x as i16;
            let by = b.y as i16;
            visit_candidate(
                grid,
                &mut visited,
                &mut dist,
                &mut parent,
                &mut nf,
                b,
                bx,
                by + 1,
                d,
                Ghost(visited0),
                Ghost(dist0),
            );
            visit_candidate(
                grid,
                &mut visited,
                &mut dist,
                &mut parent,
                &mut nf,
                b,
                bx,
                by - 1,
                d,
                Ghost(visited0),
                Ghost(dist0),
            );
            visit_candidate(
                grid,
                &mut visited,
                &mut dist,
                &mut parent,
                &mut nf,
                b,
                bx - 1,
                by,
                d,
                Ghost(visited0),
                Ghost(dist0),
            );
            visit_candidate(
                grid,
                &mut visited,
                &mut dist,
                &mut parent,
                &mut nf,
                b,
                bx + 1,
                by,
                d,
                Ghost(visited0),
                Ghost(dist0),
            );
            proof {
                assert forall|j2: int, c: Pos|
                    #![trigger adjacent(frontier@[j2], c)]
                    0 <= j2 < j + 1 && adjacent(frontier@[j2], c) && step_ok(m, c)
                        implies visited@[m.idx(c)] by {
                    lemma_idx_bounds(m, c);
                    if j2 < j {
                        assert(va[m.idx(c)]);
                    } else {
                        assert(frontier@[j2] == b);
                        assert((c.x == b.x && (c.y == b.y + 1 || c.y + 1 == b.y)) || (c.y == b.y
                            && (c.x == b.x + 1 || c.x + 1 == b.x)));
                    }
                };
            }
            j = j + 1;
        }
        proof {
            lemma_round_complete(
                m,
                visited0,
                dist0,
                visited@,
                dist@,
                parent@,
                nf@,
                frontier@,
                d,
            );
        }
        if nf.len() == 0 {
            proof {
                assert(!visited@[m.idx(m.end)]);
                assert forall|q: Seq<Pos>| !is_route(m, q) by {
                    if walk_to(m, q, m.end) {
                        assert forall|c2: Pos|
                            #![trigger m.idx(c2)]
                            m.pos_in(c2) && visited@[m.idx(c2)] implies dist@[m.idx(c2)] <= d by {
                            lemma_idx_bounds(m, c2);
                            assert(visited0[m.idx(c2)]);
                        };
                        lemma_exhausted(m, visited@, dist@, parent@, d, q, m.end);
                    }
                };
            }
            return None;
        }
        proof {
            lemma_visited_card(visited@);
            assert forall|j2: int| 0 <= j2 < nf@.len() implies m.pos_in(#[trigger] nf@[j2])
                && visited@[m.idx(nf@[j2])] && dist@[m.idx(nf@[j2])] == d + 1 by {
                lemma_idx_bounds(m, nf@[j2]);
            };
            assert forall|c: Pos|
                #![trigger m.idx(c)]
                m.pos_in(c) && visited@[m.idx(c)] && dist@[m.idx(c)] == d + 1 implies nf@.contains(
                c,
            ) by {
                lemma_idx_bounds(m, c);
                assert(!visited0[m.idx(c)]);
            };
            assert forall|c: Pos|
                #![trigger m.idx(c)]
                m.pos_in(c) && visited@[m.idx(c)] implies dist@[m.idx(c)] <= d + 1 by {
                lemma_idx_bounds(m, c);
            };
        }
        frontier = nf;
        d = d + 1;
    }
}

/// A vector of `n` copies of `val`.
fn filled<T: Copy>(n: usize, val: T) -> (v: Vec<T>)
    ensures
        v@.len() == n,
        forall|i: int| 0 <= i < n ==> v@[i] == val,
{
    let mut v: Vec<T> = Vec::new();
    while v.len() < n
        invariant
            v@.len() <= n,
            forall|i: int| 0 <= i < v@.len() ==> v@[i] == val,
        decreases n - v@.len(),
    {
        v.push(val);
    }
    v
}

} // verus!
