//! The search as a program runs it: endpoints, frontier and expanded nodes kept
//! between steps, and the changes that key presses make to them.

use vstd::prelude::*;

use rand::rngs::ThreadRng;
use rand::Rng;

use crate::astar::{
    astar_engine, in_grid, lemma_neighbors, lemma_select_lowest_score, select, spec_neighbors,
    step_expanded, step_fits, step_frontier, step_status, AStarPayload, AStarStatus,
};
use crate::coordinate::{cell, Coordinate, TOTAL_X, TOTAL_Y};

verus! {

/// The random number generator type `rand::rngs::ThreadRng`, held opaque.
#[verifier::external_type_specification]
#[verifier::external_body]
pub struct ExThreadRng(ThreadRng);

/// Calls `rand::thread_rng`, which hands out the generator of the current
/// thread. Nothing is stated of the generator.
#[verifier::external_body]
fn thread_rng() -> (rng: ThreadRng) {
    rand::thread_rng()
}

/// Calls `rand::Rng::gen_range` on the range `lo..hi`. The crate's source
/// panics on an empty range, hence `lo < hi`; it samples a value of the range,
/// which is all that is stated: which one is left to chance.
#[verifier::external_body]
fn gen_range(rng: &mut ThreadRng, lo: i32, hi: i32) -> (r: i32)
    requires
        lo < hi,
    ensures
        lo <= r < hi,
{
    rng.gen_range(lo..hi)
}

/// `c` lies on the grid, with a cost far below `i32::MAX` and a score above
/// `i32::MIN`.
pub open spec fn bounded(c: Coordinate) -> bool {
    &&& in_grid(c)
    &&& c.cost < 1_000_000
    &&& c.score > i32::MIN
}

/// The search's state between steps.
pub struct SearchState {
    pub start: Coordinate,
    pub end: Coordinate,
    pub frontier: Vec<Coordinate>,
    pub expanded: Vec<Coordinate>,
    pub sped_up: bool,
}

/// The label of the key that changes the pace, given whether the pace is fast.
pub fn speed_label(sped_up: bool) -> (label: &'static str)
    ensures
        sped_up ==> label@ == "<w> Slow down\n"@,
        !sped_up ==> label@ == "<w> Speed up\n"@,
{
    if sped_up {
        "<w> Slow down\n"
    } else {
        "<w> Speed up\n"
    }
}

impl Default for SearchState {
    fn default() -> (s: Self)
        ensures
            s.start == cell(0, 0),
            s.end == cell(0, 0),
            s.frontier@ == Seq::<Coordinate>::empty(),
            s.expanded@ == Seq::<Coordinate>::empty(),
            !s.sped_up,
    {
        SearchState::new(Coordinate::default(), Coordinate::default())
    }
}

impl SearchState {
    /// A search from `start` to `end` with nothing in the frontier yet, at the
    /// normal pace.
    pub fn new(start: Coordinate, end: Coordinate) -> (s: Self)
        ensures
            s.start == start,
            s.end == end,
            s.frontier@ == Seq::<Coordinate>::empty(),
            s.expanded@ == Seq::<Coordinate>::empty(),
            !s.sped_up,
    {
        SearchState { start, end, frontier: Vec::new(), expanded: Vec::new(), sped_up: false }
    }

    /// Puts the start into the frontier.
    pub fn seed(&mut self)
        ensures
            final(self).frontier@ == old(self).frontier@.push(old(self).start),
            final(self).expanded@ == old(self).expanded@,
            final(self).start == old(self).start,
            final(self).end == old(self).end,
            final(self).sped_up == old(self).sped_up,
    {
        let last_node = self.start;
        self.frontier.push(last_node);
    }

    /// Switches between the normal and the fast pace; returns whether the pace
    /// is now fast.
    pub fn toggle_speed(&mut self) -> (sped_up: bool)
        ensures
            sped_up == !old(self).sped_up,
            final(self).sped_up == sped_up,
            final(self).frontier@ == old(self).frontier@,
            final(self).expanded@ == old(self).expanded@,
            final(self).start == old(self).start,
            final(self).end == old(self).end,
    {
        self.sped_up = !self.sped_up;
        self.sped_up
    }

    /// Starts over from `start` toward `end`: nothing is expanded and the
    /// frontier holds the start.
    pub fn reset_endpoints(&mut self, start: Coordinate, end: Coordinate)
        ensures
            final(self).start == start,
            final(self).end == end,
            final(self).expanded@ == Seq::<Coordinate>::empty(),
            final(self).frontier@ == seq![start],
            final(self).sped_up == old(self).sped_up,
    {
        self.expanded.clear();
        self.frontier.clear();
        self.end = end;
        self.start = start;
        self.frontier.push(start);
        assert(self.frontier@ =~= seq![start]);
    }

    /// Starts over between a new goal and a new start, each drawn at random on
    /// the grid, the goal first: nothing is expanded and the frontier holds the
    /// start.
    pub fn randomize_endpoints(&mut self)
        ensures
            final(self).expanded@ == Seq::<Coordinate>::empty(),
            final(self).frontier@ == seq![final(self).start],
            0 <= final(self).start.x < TOTAL_X,
            0 <= final(self).start.y < TOTAL_Y,
            0 <= final(self).end.x < TOTAL_X,
            0 <= final(self).end.y < TOTAL_Y,
            final(self).start == cell(final(self).start.x as int, final(self).start.y as int),
            final(self).end == cell(final(self).end.x as int, final(self).end.y as int),
            final(self).sped_up == old(self).sped_up,
    {
        let mut rng = thread_rng();
        let end = Coordinate {
            x: gen_range(&mut rng, 0, TOTAL_X),
            y: gen_range(&mut rng, 0, TOTAL_Y),
            ..Default::default()
        };
        let start = Coordinate {
            x: gen_range(&mut rng, 0, TOTAL_X),
            y: gen_range(&mut rng, 0, TOTAL_Y),
            ..Default::default()
        };
        self.reset_endpoints(start, end);
    }

    /// A test that `step` can be called: the end and every frontier node lie on
    /// the grid, and no frontier node's cost or score is near the bounds of
    /// `i32`. Then `step`'s arithmetic cannot overflow.
    pub fn step_in_range(&self) -> (ok: bool)
        ensures
            ok == (in_grid(self.end) && forall|k: int|
                0 <= k < self.frontier@.len() ==> #[trigger] bounded(self.frontier@[k])),
            ok ==> step_fits(self.frontier@, self.expanded@, self.end),
    {
        if !(0 <= self.end.x && self.end.x < TOTAL_X && 0 <= self.end.y && self.end.y < TOTAL_Y) {
            return false;
        }
        let mut i: usize = 0;
        while i < self.frontier.len()
            invariant
                i <= self.frontier.len(),
                forall|k: int| 0 <= k < i ==> #[trigger] bounded(self.frontier@[k]),
            decreases self.frontier.len() - i,
        {
            let c = self.frontier[i];
            if !(0 <= c.x && c.x < TOTAL_X && 0 <= c.y && c.y < TOTAL_Y && c.cost < 1_000_000
                && c.score > i32::MIN) {
                assert(!bounded(self.frontier@[i as int]));
                return false;
            }
            i = i + 1;
        }
        proof {
            let f = self.frontier@;
            if f.len() > 0 {
                let node = select(f);
                lemma_select_lowest_score(f);
                let j = choose|j: int| 0 <= j < f.len() && f[j] == node;
                assert(bounded(f[j]));
                lemma_neighbors(node);
                assert forall|k: int| 0 <= k < spec_neighbors(node).len() implies in_grid(
                    #[trigger] spec_neighbors(node)[k],
                ) by {}
            }
        }
        true
    }

    /// One step of the search toward `end`. The step's outcome is kept only when
    /// the search goes on (`Pending`); on `Found` or `Failed` nothing changes.
    pub fn step(&mut self) -> (status: AStarStatus)
        requires
            step_fits(old(self).frontier@, old(self).expanded@, old(self).end),
        ensures
            status == step_status(old(self).frontier@, old(self).end),
            status == AStarStatus::Pending ==> {
                &&& final(self).frontier@ == step_frontier(
                    old(self).frontier@,
                    old(self).expanded@,
                    old(self).end,
                )
                &&& final(self).expanded@ == step_expanded(old(self).frontier@, old(self).expanded@)
            },
            status != AStarStatus::Pending ==> {
                &&& final(self).frontier@ == old(self).frontier@
                &&& final(self).expanded@ == old(self).expanded@
            },
            final(self).start == old(self).start,
            final(self).end == old(self).end,
            final(self).sped_up == old(self).sped_up,
    {
        let mut payload = AStarPayload {
            goal: self.end,
            expanded: self.expanded.clone(),
            frontier: self.frontier.clone(),
        };
        assert(payload.expanded@ =~= self.expanded@);
        assert(payload.frontier@ =~= self.frontier@);
        let status = astar_engine(&mut payload);
        match status {
            AStarStatus::Pending => {
                self.expanded = payload.expanded;
                self.frontier = payload.frontier;
            },
            _ => {},
        }
        status
    }
}

} // verus!
