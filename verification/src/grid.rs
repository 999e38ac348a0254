//! The bounded grid: static bounds plus externally-set per-cell obstruction.

use vstd::prelude::*;
use crate::coord::Coord;

verus! {

/// Mathematical view of a grid: its bounds and the set of obstructed cells.
pub struct GridView {
    pub width: int,
    pub height: int,
    pub obstructed: Set<Coord>,
}

impl GridView {
    pub open spec fn in_bounds(self, c: Coord) -> bool {
        0 <= c.x < self.width && 0 <= c.y < self.height
    }

    pub open spec fn walkable(self, c: Coord) -> bool {
        self.in_bounds(c) && !self.obstructed.contains(c)
    }

    pub open spec fn wf(self) -> bool {
        0 <= self.width <= i32::MAX && 0 <= self.height <= i32::MAX
    }
}

/// A rectangular grid of cells. Obstruction state is written by the wall
/// placing collaborator and only read by the search.
pub struct Grid {
    width: i32,
    height: i32,
    obstructed: Vec<Coord>,
}

impl View for Grid {
    type V = GridView;

    closed spec fn view(&self) -> GridView {
        GridView {
            width: self.width as int,
            height: self.height as int,
            obstructed: self.obstructed@.to_set(),
        }
    }
}

impl Grid {
    pub fn new(width: i32, height: i32) -> (r: Grid)
        requires
            0 <= width,
            0 <= height,
        ensures
            r@ == (GridView {
                width: width as int,
                height: height as int,
                obstructed: Set::<Coord>::empty(),
            }),
            r@.wf(),
    {
        let g = Grid { width, height, obstructed: Vec::new() };
        proof {
            assert(g@.obstructed =~= Set::<Coord>::empty());
        }
        g
    }

    pub fn width(&self) -> (r: i32)
        ensures
            r == self@.width,
    {
        self.width
    }

    pub fn height(&self) -> (r: i32)
        ensures
            r == self@.height,
    {
        self.height
    }

    /// Mark a cell obstructed (a wall placed on it).
    pub fn set_obstructed(&mut self, c: Coord)
        ensures
            final(self)@ == (GridView { obstructed: old(self)@.obstructed.insert(c), ..old(self)@ }),
    {
        self.obstructed.push(c);
        proof {
            broadcast use vstd::seq_lib::lemma_seq_contains_after_push;

            assert(self.obstructed@ == old(self).obstructed@.push(c));
            assert(self.obstructed@.to_set() =~= old(self)@.obstructed.insert(c));
        }
    }

    /// Whether `c` lies inside the bounds and carries no obstruction.
    pub fn is_walkable(&self, c: Coord) -> (r: bool)
        ensures
            r == self@.walkable(c),
    {
        if c.x < 0 || c.y < 0 || c.x >= self.width || c.y >= self.height {
            return false;
        }
        let n: usize = self.obstructed.len();
        let mut i: usize = 0;
        while i < n
            invariant
                0 <= i <= n,
                n == self.obstructed@.len(),
                self@.in_bounds(c),
                forall|j: int| 0 <= j < i ==> self.obstructed@[j] != c,
            decreases n - i,
        {
            if self.obstructed[i] == c {
                return false;
            }
            i = i + 1;
        }
        true
    }
}

} // verus!
