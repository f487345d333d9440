//! The tick orchestrator: owns the world state, queues toggle requests as
//! they arrive, and, once per tick, drains the whole queue through the
//! toggle handler before recomputing the route, which is then published
//! together with the grid state.

use vstd::prelude::*;
use crate::engine::is_route;
use crate::engine::shortest_path;
use crate::grid::Grid;
use crate::grid::GridModel;
use crate::grid::Pos;
use crate::grid::ToggleRequest;
use crate::grid::apply_requests;
use crate::grid::lemma_endpoints_never_blocked;

verus! {

/// What the published route must be, relative to a grid state: a shortest
/// route when one exists, the explicit no-path marker exactly when none
/// does.
pub open spec fn path_current(m: GridModel, p: Option<Seq<Pos>>) -> bool {
    match p {
        Some(q) => is_route(m, q) && (forall|r: Seq<Pos>| is_route(m, r) ==> q.len() <= r.len()),
        None => forall|r: Seq<Pos>| !is_route(m, r),
    }
}

/// The world state: the authoritative grid, the pending toggle queue, and
/// the most recently published route.
pub struct World {
    grid: Grid,
    pending: Vec<ToggleRequest>,
    path: Option<Vec<Pos>>,
}

impl World {
    pub closed spec fn inv(self) -> bool {
        self.grid.inv()
    }

    pub closed spec fn grid_model(self) -> GridModel {
        self.grid@
    }

    pub closed spec fn pending_spec(self) -> Seq<ToggleRequest> {
        self.pending@
    }

    pub closed spec fn path_spec(self) -> Option<Seq<Pos>> {
        match self.path {
            Some(p) => Some(p@),
            None => None,
        }
    }

    /// A new world around an empty grid; no route is published until the
    /// first tick runs.
    pub fn new(size: u8, start: Pos, end: Pos) -> (w: World)
        requires
            size > 0,
            start.x < size && start.y < size,
            end.x < size && end.y < size,
            start != end,
        ensures
            w.inv(),
            w.grid_model() == (GridModel {
                size: size as int,
                start,
                end,
                blocked: Set::<Pos>::empty(),
            }),
            w.pending_spec() == Seq::<ToggleRequest>::empty(),
            w.path_spec() is None,
    {
        let w = World { grid: Grid::new(size, start, end), pending: Vec::new(), path: None };
        proof {
            assert(w.pending_spec() =~= Seq::<ToggleRequest>::empty());
        }
        w
    }

    /// Accepts one toggle intent into the queue; nothing else changes
    /// until the next tick drains it.
    pub fn queue_toggle(&mut self, req: ToggleRequest)
        requires
            old(self).inv(),
        ensures
            final(self).inv(),
            final(self).grid_model() == old(self).grid_model(),
            final(self).pending_spec() == old(self).pending_spec().push(req),
            final(self).path_spec() == old(self).path_spec(),
    {
        self.pending.push(req);
    }

    /// One scheduling tick: first every queued request is applied, in
    /// arrival order and never partially; only then is the route
    /// recomputed against the resulting grid and published.
    pub fn tick(&mut self)
        requires
            old(self).inv(),
        ensures
            final(self).inv(),
            final(self).grid_model() == old(self).grid_model().applied(old(self).pending_spec()),
            final(self).grid_model().start == old(self).grid_model().start,
            final(self).grid_model().end == old(self).grid_model().end,
            final(self).grid_model().size == old(self).grid_model().size,
            final(self).pending_spec() == Seq::<ToggleRequest>::empty(),
            path_current(final(self).grid_model(), final(self).path_spec()),
    {
        proof {
            self.grid.lemma_inv_wf();
            lemma_endpoints_never_blocked(self.grid@, self.pending@);
        }
        apply_requests(&mut self.grid, &self.pending);
        self.pending.clear();
        self.path = shortest_path(&self.grid);
        proof {
            assert(self.pending_spec() =~= Seq::<ToggleRequest>::empty());
        }
    }

    /// The grid as published to the rendering collaborator.
    pub fn grid(&self) -> (g: &Grid)
        ensures
            g@ == self.grid_model(),
            self.inv() ==> g.inv(),
    {
        &self.grid
    }

    /// The route as published to the rendering collaborator: `None` is the
    /// explicit no-path marker.
    pub fn path(&self) -> (p: &Option<Vec<Pos>>)
        ensures
            p is Some <==> self.path_spec() is Some,
            p is Some ==> p->0@ == self.path_spec()->0,
    {
        &self.path
    }
}

} // verus!
