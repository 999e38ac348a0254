//! Grid coordinates, 4-directional adjacency and the Manhattan heuristic.

use vstd::prelude::*;

verus! {

/// A cell of the grid, identified by value: two integer axes.
#[derive(Clone, Copy, PartialEq, Eq, Structural, Hash, Debug)]
pub struct Coord {
    pub x: i32,
    pub y: i32,
}

pub open spec fn abs_int(v: int) -> int {
    if v < 0 {
        -v
    } else {
        v
    }
}

/// Manhattan distance between two cells, over unbounded integers.
pub open spec fn manhattan(a: Coord, b: Coord) -> int {
    abs_int(a.x - b.x) + abs_int(a.y - b.y)
}

/// Two cells are adjacent when they differ by exactly one step along one axis.
pub open spec fn adjacent(a: Coord, b: Coord) -> bool {
    manhattan(a, b) == 1
}

/// The four orthogonal neighbours of `c`, in the fixed order used by the
/// search: north, south, east, west.
pub open spec fn adjacents_spec(c: Coord) -> Seq<Coord> {
    seq![
        Coord { x: c.x, y: (c.y + 1) as i32 },
        Coord { x: c.x, y: (c.y - 1) as i32 },
        Coord { x: (c.x + 1) as i32, y: c.y },
        Coord { x: (c.x - 1) as i32, y: c.y },
    ]
}

/// When `c` is away from the extremes of the coordinate type, each of its
/// four listed neighbours really is adjacent to it.
pub proof fn lemma_adjacents_adjacent(c: Coord)
    requires
        i32::MIN < c.x < i32::MAX,
        i32::MIN < c.y < i32::MAX,
    ensures
        forall|i: int|
            0 <= i < adjacents_spec(c).len() ==> adjacent(c, #[trigger] adjacents_spec(c)[i])
                && adjacent(adjacents_spec(c)[i], c),
{
}

/// The four orthogonal neighbours of a cell, matching `adjacents_spec`.
pub fn adjacents(c: Coord) -> (r: Vec<Coord>)
    requires
        i32::MIN < c.x < i32::MAX,
        i32::MIN < c.y < i32::MAX,
    ensures
        r@ == adjacents_spec(c),
{
    let mut r: Vec<Coord> = Vec::new();
    r.push(Coord { x: c.x, y: c.y + 1 });
    r.push(Coord { x: c.x, y: c.y - 1 });
    r.push(Coord { x: c.x + 1, y: c.y });
    r.push(Coord { x: c.x - 1, y: c.y });
    proof {
        assert(r@ =~= adjacents_spec(c));
    }
    r
}

/// An adjacent cell is one of the four listed neighbours.
pub proof fn lemma_adjacent_is_neighbour(c: Coord, n: Coord)
    requires
        i32::MIN < c.x < i32::MAX,
        i32::MIN < c.y < i32::MAX,
        adjacent(c, n),
    ensures
        exists|j: int| 0 <= j < 4 && adjacents_spec(c)[j] == n,
{
    if n.y == c.y + 1 {
        assert(adjacents_spec(c)[0] == n);
    } else if n.y == c.y - 1 {
        assert(adjacents_spec(c)[1] == n);
    } else if n.x == c.x + 1 {
        assert(adjacents_spec(c)[2] == n);
    } else {
        assert(adjacents_spec(c)[3] == n);
    }
}

/// The admissible search heuristic: plain Manhattan distance from `next_step`
/// to `goal`. Never overestimates the true remaining cost on a unit-cost
/// 4-directional grid.
pub fn heuristic(goal: Coord, next_step: Coord) -> (r: i64)
    ensures
        r == manhattan(goal, next_step),
        0 <= r <= 0x2_0000_0000,
{
    let dx: i64 = goal.x as i64 - next_step.x as i64;
    let dx: i64 = if dx < 0 {
        -dx
    } else {
        dx
    };
    let dy: i64 = goal.y as i64 - next_step.y as i64;
    let dy: i64 = if dy < 0 {
        -dy
    } else {
        dy
    };
    dx + dy
}

} // verus!
