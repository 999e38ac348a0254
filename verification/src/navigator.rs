//! The edge-triggered controller around the search engine. It watches the
//! selected goal, re-runs the search only when the goal changes, and owns
//! the shared path buffer that the agent stepper consumes. On every
//! re-trigger the old path is discarded wholesale before the new search's
//! outcome is stored, so stale waypoints never persist.

use vstd::prelude::*;
use crate::agent::{AgentPos, step_spec, POS_LIMIT, SPEED_LIMIT};
use crate::coord::Coord;
use crate::grid::Grid;
use crate::search::{SearchState, SState, find_path, found_path, search_failed};

verus! {

/// Watches the goal, owns the path.
pub struct Navigator {
    state: SearchState,
    last_goal: Option<Coord>,
    path: Vec<Coord>,
}

impl Navigator {
    pub closed spec fn wf(self) -> bool {
        self.state.wf()
    }

    /// The goal seen at the last trigger, if any.
    pub closed spec fn goal_spec(self) -> Option<Coord> {
        self.last_goal
    }

    /// The pending waypoints, goal first; the next waypoint is the last.
    pub closed spec fn path_spec(self) -> Seq<Coord> {
        self.path@
    }

    /// The search working set left by the last search.
    pub closed spec fn state_spec(self) -> SState {
        self.state@
    }

    pub fn new() -> (r: Navigator)
        ensures
            r.wf(),
            r.goal_spec() is None,
            r.path_spec() == Seq::<Coord>::empty(),
    {
        let n = Navigator { state: SearchState::new(), last_goal: None, path: Vec::new() };
        proof {
            assert(n.path_spec() =~= Seq::<Coord>::empty());
        }
        n
    }

    /// Observe the currently selected goal. Nothing happens while the goal
    /// stays what it was. On a change — the edge — the previously computed
    /// path is cleared and a fresh search runs from `source`: afterwards
    /// the buffer holds exactly the new search's path, or nothing when no
    /// path exists. Returns whether a search ran.
    pub fn observe_goal(&mut self, grid: &Grid, source: Coord, goal: Coord) -> (retriggered:
        bool)
        requires
            old(self).wf(),
            grid@.wf(),
            grid@.in_bounds(source),
        ensures
            final(self).wf(),
            retriggered == (old(self).goal_spec() != Option::Some(goal)),
            !retriggered ==> final(self).goal_spec() == old(self).goal_spec()
                && final(self).path_spec() == old(self).path_spec() && final(self).state_spec()
                == old(self).state_spec(),
            retriggered ==> final(self).goal_spec() == Option::Some(goal) && (found_path(
                grid@,
                source,
                goal,
                final(self).state_spec(),
                final(self).path_spec(),
            ) || (final(self).path_spec() == Seq::<Coord>::empty() && search_failed(
                grid@,
                source,
                goal,
                final(self).state_spec(),
            ))),
    {
        let unchanged: bool = match self.last_goal {
            Option::Some(g0) => g0 == goal,
            Option::None => false,
        };
        if unchanged {
            return false;
        }
        self.last_goal = Some(goal);
        // drop the stale path before the new search runs
        self.path.clear();
        match find_path(grid, &mut self.state, source, goal) {
            Result::Ok(p) => {
                self.path = p;
            },
            Result::Err(_) => {
                proof {
                    assert(self.path_spec() =~= Seq::<Coord>::empty());
                }
            },
        }
        true
    }

    pub fn path_len(&self) -> (r: usize)
        ensures
            r == self.path_spec().len(),
    {
        self.path.len()
    }

    /// The waypoint at position `i`, goal first.
    pub fn waypoint(&self, i: usize) -> (r: Coord)
        requires
            i < self.path_spec().len(),
        ensures
            r == self.path_spec()[i as int],
    {
        self.path[i]
    }

    /// The waypoint the agent is to move toward next, if any.
    pub fn next_waypoint(&self) -> (r: Option<Coord>)
        ensures
            match r {
                Option::Some(c) => self.path_spec().len() > 0 && c == self.path_spec().last(),
                Option::None => self.path_spec().len() == 0,
            },
    {
        let n = self.path.len();
        if n == 0 {
            None
        } else {
            Some(self.path[n - 1])
        }
    }

    /// Whether `c` lies on the pending path; read by the cell recolouring
    /// collaborator.
    pub fn path_contains(&self, c: Coord) -> (r: bool)
        ensures
            r == self.path_spec().contains(c),
    {
        let n = self.path.len();
        let mut i: usize = 0;
        while i < n
            invariant
                0 <= i <= n,
                n == self.path@.len(),
                forall|j: int| 0 <= j < i ==> self.path@[j] != c,
            decreases n - i,
        {
            if self.path[i] == c {
                return true;
            }
            i = i + 1;
        }
        false
    }

    /// Advance the agent one tick against the owned path.
    pub fn step_agent(&mut self, pos: &mut AgentPos, speed: i64, eps: i64)
        requires
            old(self).wf(),
            0 <= speed <= SPEED_LIMIT,
            0 <= eps,
            -POS_LIMIT <= old(pos).x <= POS_LIMIT,
            -POS_LIMIT <= old(pos).y <= POS_LIMIT,
        ensures
            final(self).wf(),
            (final(self).path_spec(), *final(pos)) == step_spec(
                old(self).path_spec(),
                *old(pos),
                speed as int,
                eps as int,
            ),
            final(self).goal_spec() == old(self).goal_spec(),
            final(self).state_spec() == old(self).state_spec(),
            -POS_LIMIT <= final(pos).x <= POS_LIMIT,
            -POS_LIMIT <= final(pos).y <= POS_LIMIT,
    {
        crate::agent::step_agent(&mut self.path, pos, speed, eps);
    }
}

} // verus!
