//! The agent stepper: each tick it advances a continuous position toward
//! the path's next waypoint and pops the waypoint once the agent is within
//! a small epsilon of it. Positions are kept in thousandths of a cell, so
//! every tick is exact integer arithmetic: the simulation is reproducible.
//!
//! Movement is axis-ordered: the tick's speed budget is spent along the x
//! axis first, then whatever remains along the y axis. Between the centres
//! of adjacent cells, where paths lead, this is the straight line.

use vstd::prelude::*;
use crate::coord::Coord;

verus! {

/// One cell is a thousand position units.
pub const MILLI_PER_CELL: i64 = 1000;

/// Positions the stepper accepts; wide enough for any cell centre, narrow
/// enough that every tick stays inside `i64`.
pub const POS_LIMIT: i64 = 0x40_0000_0000_0000;

/// Largest per-tick speed, in thousandths of a cell.
pub const SPEED_LIMIT: i64 = 0x40_0000_0000_0000;

/// A continuous agent position, in thousandths of a cell.
#[derive(Clone, Copy, PartialEq, Eq, Structural, Debug)]
pub struct AgentPos {
    pub x: i64,
    pub y: i64,
}

/// The centre of a cell, in position units.
pub open spec fn cell_pos_spec(c: Coord) -> AgentPos {
    AgentPos { x: (c.x * MILLI_PER_CELL) as i64, y: (c.y * MILLI_PER_CELL) as i64 }
}

/// Manhattan distance between two positions, in position units.
pub open spec fn pos_dist(a: AgentPos, b: AgentPos) -> int {
    crate::coord::abs_int(a.x - b.x) + crate::coord::abs_int(a.y - b.y)
}

/// Move one axis value toward a target, spending at most `budget`; yields
/// the new value and the unspent budget.
pub open spec fn axis_step(v: int, t: int, budget: int) -> (int, int) {
    if t >= v {
        if t - v <= budget {
            (t, budget - (t - v))
        } else {
            (v + budget, 0)
        }
    } else {
        if v - t <= budget {
            (t, budget - (v - t))
        } else {
            (v - budget, 0)
        }
    }
}

/// One stepper tick. An empty path means an idle agent. Otherwise the next
/// waypoint is the path's last element: within `eps` of it, the waypoint is
/// popped and the position kept; farther away, the position moves toward it
/// by at most `speed`, x axis first.
pub open spec fn step_spec(path: Seq<Coord>, pos: AgentPos, speed: int, eps: int) -> (
    Seq<Coord>,
    AgentPos,
) {
    if path.len() == 0 {
        (path, pos)
    } else {
        let t = cell_pos_spec(path.last());
        if pos_dist(pos, t) <= eps {
            (path.drop_last(), pos)
        } else {
            let (nx, rem) = axis_step(pos.x as int, t.x as int, speed);
            let (ny, unused) = axis_step(pos.y as int, t.y as int, rem);
            (path, AgentPos { x: nx as i64, y: ny as i64 })
        }
    }
}

/// The centre of a cell, in position units.
pub fn cell_pos(c: Coord) -> (r: AgentPos)
    ensures
        r == cell_pos_spec(c),
        -POS_LIMIT <= r.x <= POS_LIMIT,
        -POS_LIMIT <= r.y <= POS_LIMIT,
{
    AgentPos { x: c.x as i64 * MILLI_PER_CELL, y: c.y as i64 * MILLI_PER_CELL }
}

fn axis_step_exec(v: i64, t: i64, budget: i64) -> (r: (i64, i64))
    requires
        -POS_LIMIT <= v <= POS_LIMIT,
        -POS_LIMIT <= t <= POS_LIMIT,
        0 <= budget <= SPEED_LIMIT,
    ensures
        (r.0 as int, r.1 as int) == axis_step(v as int, t as int, budget as int),
        -POS_LIMIT <= r.0 <= POS_LIMIT,
        0 <= r.1 <= budget,
{
    if t >= v {
        if t - v <= budget {
            (t, budget - (t - v))
        } else {
            (v + budget, 0)
        }
    } else {
        if v - t <= budget {
            (t, budget - (v - t))
        } else {
            (v - budget, 0)
        }
    }
}

/// One executable stepper tick, following `step_spec` exactly.
pub fn step_agent(path: &mut Vec<Coord>, pos: &mut AgentPos, speed: i64, eps: i64)
    requires
        0 <= speed <= SPEED_LIMIT,
        0 <= eps,
        -POS_LIMIT <= old(pos).x <= POS_LIMIT,
        -POS_LIMIT <= old(pos).y <= POS_LIMIT,
    ensures
        (final(path)@, *final(pos)) == step_spec(old(path)@, *old(pos), speed as int, eps as int),
        -POS_LIMIT <= final(pos).x <= POS_LIMIT,
        -POS_LIMIT <= final(pos).y <= POS_LIMIT,
{
    let n = path.len();
    if n == 0 {
        return ;
    }
    let next: Coord = path[n - 1];
    proof {
        assert(next == old(path)@.last());
    }
    let t = cell_pos(next);
    let dx: i64 = if pos.x >= t.x {
        pos.x - t.x
    } else {
        t.x - pos.x
    };
    let dy: i64 = if pos.y >= t.y {
        pos.y - t.y
    } else {
        t.y - pos.y
    };
    if dx <= eps && dy <= eps - dx {
        path.pop();
        proof {
            assert(final(path)@ =~= old(path)@.drop_last());
        }
        return ;
    }
    let (nx, rem) = axis_step_exec(pos.x, t.x, speed);
    let (ny, _unused) = axis_step_exec(pos.y, t.y, rem);
    pos.x = nx;
    pos.y = ny;
}

} // verus!
