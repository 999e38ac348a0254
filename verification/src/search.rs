//! The search engine: A* relaxation over the grid, run to completion.
//!
//! The whole search is specified by a deterministic step-indexed model:
//! `run(g, goal, seeded(source), k)` is the search after `k` turns of the
//! loop. The executable engine is proved to follow that model exactly, so
//! identical inputs always give identical results.
//!
//! The engine closes each expanded cell: once a coordinate has been popped
//! and its neighbours relaxed, it is never relaxed again. With the Manhattan
//! heuristic (admissible and consistent on a unit-cost 4-directional grid) a
//! popped cell already carries its cheapest cost, so closing it never changes
//! the outcome, and it gives the loop its termination measure: every turn
//! visits a cell never visited before.

use vstd::prelude::*;
use crate::coord::{Coord, adjacent, adjacents, adjacents_spec, heuristic, manhattan};
use crate::coord_map::CoordMap;
use crate::frontier::{FEntry, Frontier, fr_has, fr_push, find_idx, lemma_find_idx, min_idx, lemma_min_idx};
use crate::grid::{Grid, GridView};

verus! {

/// Cost of one step between adjacent cells.
pub const EDGE_COST: i64 = 1;

/// Largest cost-so-far value the search will record. Strictly above the
/// cell count of any grid whose bounds fit an `i32`, so the cap is never
/// reached, while keeping every cost and priority well inside `i64`.
pub const MAX_COST: i64 = 0x4000_0000_0000_0000;

/// The working set of one search: frontier, cost-so-far, predecessor map,
/// and the set of already expanded cells.
#[verifier::ext_equal]
pub struct SState {
    pub frontier: Seq<FEntry>,
    pub cost: Map<Coord, i64>,
    pub came: Map<Coord, Option<Coord>>,
    pub visited: Map<Coord, bool>,
}

/// The state every search starts from: all tables cleared, then seeded with
/// the source at cost zero and no predecessor.
pub open spec fn seeded(source: Coord) -> SState {
    SState {
        frontier: seq![FEntry { c: source, pri: 0 }],
        cost: Map::empty().insert(source, 0),
        came: Map::empty().insert(source, None),
        visited: Map::empty(),
    }
}

/// One relaxation: if `n` is walkable and not yet expanded, and stepping
/// from `cur` improves its known cost, record the better cost and
/// predecessor and queue `n` at cost plus Manhattan heuristic.
pub open spec fn relax(g: GridView, goal: Coord, s: SState, cur: Coord, n: Coord) -> SState {
    if !g.walkable(n) || s.visited.dom().contains(n) || !s.cost.dom().contains(cur) {
        s
    } else {
        let nc = s.cost[cur] + EDGE_COST;
        if nc <= MAX_COST && (!s.cost.dom().contains(n) || nc < s.cost[n]) {
            SState {
                frontier: fr_push(s.frontier, n, (nc + manhattan(goal, n)) as i64),
                cost: s.cost.insert(n, nc as i64),
                came: s.came.insert(n, Some(cur)),
                visited: s.visited,
            }
        } else {
            s
        }
    }
}

/// Relax the four neighbours of `cur`: north, south, east, west.
pub open spec fn relax_all(g: GridView, goal: Coord, s: SState, cur: Coord) -> SState {
    let a = adjacents_spec(cur);
    relax(g, goal, relax(g, goal, relax(g, goal, relax(g, goal, s, cur, a[0]), cur, a[1]), cur, a[2]), cur, a[3])
}

/// Where a search stands: still working, goal popped, or frontier exhausted.
pub enum Status {
    Running(SState),
    Found(SState),
    Exhausted(SState),
}

/// One turn of the search loop: pop the deterministic minimum; either the
/// goal was reached (frontier is then cleared), or the popped cell is
/// marked expanded and its neighbours are relaxed.
pub open spec fn step(g: GridView, goal: Coord, s: SState) -> Status {
    if s.frontier.len() == 0 {
        Status::Exhausted(s)
    } else {
        let m = min_idx(s.frontier);
        let cur = s.frontier[m].c;
        let s1 = SState { frontier: s.frontier.remove(m), ..s };
        if cur == goal {
            Status::Found(SState { frontier: Seq::empty(), ..s1 })
        } else {
            let s2 = SState { visited: s1.visited.insert(cur, true), ..s1 };
            Status::Running(relax_all(g, goal, s2, cur))
        }
    }
}

/// The search after `k` turns from state `s`. Once finished it stays put.
pub open spec fn run(g: GridView, goal: Coord, s: SState, k: nat) -> Status
    decreases k,
{
    if k == 0 {
        Status::Running(s)
    } else {
        match run(g, goal, s, (k - 1) as nat) {
            Status::Running(s2) => step(g, goal, s2),
            done => done,
        }
    }
}

/// Everything the search maintains, spelled out:
/// - frontier coordinates are distinct, have a recorded cost, are not yet
///   expanded, and each is the source or a walkable cell first reached from
///   the source or another walkable cell;
/// - expanded cells are the source or walkable;
/// - recorded costs lie between zero and the cap;
/// - a cell with no predecessor is the source, a recorded predecessor is
///   always an adjacent cell, and every cell with a predecessor entry is
///   the source or walkable.
pub open spec fn inv(g: GridView, source: Coord, s: SState) -> bool {
    &&& forall|i: int, j: int|
        0 <= i < j < s.frontier.len() ==> (#[trigger] s.frontier[i]).c != (
        #[trigger] s.frontier[j]).c
    &&& forall|i: int|
        0 <= i < s.frontier.len() ==> {
            let c = (#[trigger] s.frontier[i]).c;
            &&& s.cost.dom().contains(c)
            &&& !s.visited.dom().contains(c)
            &&& (c == source || (g.walkable(c) && exists|p: Coord|
                adjacent(p, c) && (p == source || g.walkable(p))))
        }
    &&& forall|c: Coord| #[trigger] s.visited.dom().contains(c) ==> c == source || g.walkable(c)
    &&& forall|c: Coord| #[trigger] s.cost.dom().contains(c) ==> 0 <= s.cost[c] <= MAX_COST
    &&& forall|c: Coord|
        #[trigger] s.came.dom().contains(c) ==> match s.came[c] {
            Option::None => c == source,
            Option::Some(p) => adjacent(p, c),
        }
    &&& forall|c: Coord| #[trigger] s.came.dom().contains(c) ==> c == source || g.walkable(c)
}

/// The predecessor chains are grounded: predecessor entries and cost
/// entries cover the same cells, and each recorded predecessor carries a
/// strictly smaller cost, so every chain descends toward the source and
/// never cycles.
pub open spec fn chain_inv(s: SState) -> bool {
    &&& s.cost.dom().finite()
    &&& s.came.dom() == s.cost.dom()
    &&& forall|c: Coord|
        #[trigger] s.came.dom().contains(c) ==> match s.came[c] {
            Option::None => true,
            Option::Some(p) => s.cost.dom().contains(p) && s.cost[p] < s.cost[c],
        }
}

/// Relaxation keeps the chains grounded.
proof fn lemma_relax_chain(g: GridView, goal: Coord, s: SState, cur: Coord, n: Coord)
    requires
        chain_inv(s),
    ensures
        chain_inv(relax(g, goal, s, cur, n)),
{
}

/// One turn of the model keeps the chains grounded.
proof fn lemma_step_chain(g: GridView, goal: Coord, s: SState)
    requires
        chain_inv(s),
    ensures
        match step(g, goal, s) {
            Status::Running(s2) => chain_inv(s2),
            Status::Found(s2) => chain_inv(s2),
            Status::Exhausted(s2) => chain_inv(s2),
        },
{
    if s.frontier.len() > 0 {
        let m = min_idx(s.frontier);
        let cur = s.frontier[m].c;
        if cur != goal {
            let s2 = SState {
                frontier: s.frontier.remove(m),
                visited: s.visited.insert(cur, true),
                ..s
            };
            let a = adjacents_spec(cur);
            let r0 = relax(g, goal, s2, cur, a[0]);
            lemma_relax_chain(g, goal, s2, cur, a[0]);
            let r1 = relax(g, goal, r0, cur, a[1]);
            lemma_relax_chain(g, goal, r0, cur, a[1]);
            let r2 = relax(g, goal, r1, cur, a[2]);
            lemma_relax_chain(g, goal, r1, cur, a[2]);
            lemma_relax_chain(g, goal, r2, cur, a[3]);
        }
    }
}

/// The chains stay grounded at every turn of the search.
pub proof fn lemma_run_chain(g: GridView, source: Coord, goal: Coord, k: nat)
    ensures
        match run(g, goal, seeded(source), k) {
            Status::Running(s) => chain_inv(s),
            Status::Found(s) => chain_inv(s),
            Status::Exhausted(s) => chain_inv(s),
        },
    decreases k,
{
    if k == 0 {
        assert(chain_inv(seeded(source)));
    } else {
        lemma_run_chain(g, source, goal, (k - 1) as nat);
        match run(g, goal, seeded(source), (k - 1) as nat) {
            Status::Running(s) => {
                lemma_step_chain(g, goal, s);
            },
            _ => {},
        }
    }
}

/// The seeded state satisfies the invariant.
pub proof fn lemma_seeded_inv(g: GridView, source: Coord)
    ensures
        inv(g, source, seeded(source)),
{
    let s = seeded(source);
    assert(s.frontier.len() == 1);
    assert(s.frontier[0].c == source);
}

/// Relaxation preserves the invariant and leaves the expanded set alone.
pub proof fn lemma_relax_inv(g: GridView, source: Coord, goal: Coord, s: SState, cur: Coord, n: Coord)
    requires
        inv(g, source, s),
        cur == source || g.walkable(cur),
        adjacent(cur, n),
    ensures
        inv(g, source, relax(g, goal, s, cur, n)),
        relax(g, goal, s, cur, n).visited == s.visited,
        forall|c: Coord| s.cost.dom().contains(c) ==> #[trigger] relax(
            g,
            goal,
            s,
            cur,
            n,
        ).cost.dom().contains(c),
{
    let s2 = relax(g, goal, s, cur, n);
    if s2 != s {
        let nc = s.cost[cur] + EDGE_COST;
        lemma_find_idx(s.frontier, n);
        let fi = find_idx(s.frontier, n);
        assert forall|i: int, j: int| 0 <= i < j < s2.frontier.len() implies (
        #[trigger] s2.frontier[i]).c != (#[trigger] s2.frontier[j]).c by {
            if fi < s.frontier.len() {
                assert(s2.frontier[i].c == s.frontier[i].c);
                assert(s2.frontier[j].c == s.frontier[j].c);
            } else {
                if j < s.frontier.len() {
                    assert(s2.frontier[i].c == s.frontier[i].c);
                    assert(s2.frontier[j].c == s.frontier[j].c);
                } else {
                    assert(s2.frontier[j].c == n);
                    assert(s2.frontier[i].c == s.frontier[i].c);
                }
            }
        }
        assert forall|i: int| 0 <= i < s2.frontier.len() implies {
            let c = (#[trigger] s2.frontier[i]).c;
            &&& s2.cost.dom().contains(c)
            &&& !s2.visited.dom().contains(c)
            &&& (c == source || (g.walkable(c) && exists|p: Coord|
                adjacent(p, c) && (p == source || g.walkable(p))))
        } by {
            let c = s2.frontier[i].c;
            if fi < s.frontier.len() {
                assert(s2.frontier[i].c == s.frontier[i].c);
            } else if i < s.frontier.len() {
                assert(s2.frontier[i].c == s.frontier[i].c);
            } else {
                assert(c == n);
            }
            if c == n {
                assert(adjacent(cur, n) && (cur == source || g.walkable(cur)));
            }
        }
    }
}

/// Popping the deterministic minimum and marking it expanded preserves the
/// invariant; the popped coordinate is fresh, costed, and on the grid.
pub proof fn lemma_visit_inv(g: GridView, source: Coord, s: SState)
    requires
        inv(g, source, s),
        s.frontier.len() > 0,
    ensures
        ({
            let m = min_idx(s.frontier);
            let cur = s.frontier[m].c;
            let s2 = SState {
                frontier: s.frontier.remove(m),
                visited: s.visited.insert(cur, true),
                ..s
            };
            &&& inv(g, source, s2)
            &&& s.cost.dom().contains(cur)
            &&& !s.visited.dom().contains(cur)
            &&& (cur == source || g.walkable(cur))
        }),
{
    lemma_min_idx(s.frontier);
    let m = min_idx(s.frontier);
    let cur = s.frontier[m].c;
    let s2 = SState { frontier: s.frontier.remove(m), visited: s.visited.insert(cur, true), ..s };
    assert forall|i: int| 0 <= i < s2.frontier.len() implies {
        let c = (#[trigger] s2.frontier[i]).c;
        &&& s2.cost.dom().contains(c)
        &&& !s2.visited.dom().contains(c)
        &&& (c == source || (g.walkable(c) && exists|p: Coord|
            adjacent(p, c) && (p == source || g.walkable(p))))
    } by {
        if i < m {
            assert(s2.frontier[i] == s.frontier[i]);
            assert(s.frontier[i].c != s.frontier[m].c);
        } else {
            assert(s2.frontier[i] == s.frontier[i + 1]);
            assert(s.frontier[i + 1].c != s.frontier[m].c);
        }
    }
    assert forall|i: int, j: int| 0 <= i < j < s2.frontier.len() implies (
    #[trigger] s2.frontier[i]).c != (#[trigger] s2.frontier[j]).c by {
        let i2: int = if i < m { i } else { i + 1 };
        let j2: int = if j < m { j } else { j + 1 };
        assert(s2.frontier[i] == s.frontier[i2]);
        assert(s2.frontier[j] == s.frontier[j2]);
    }
}

/// The invariant holds at every turn of the search.
pub proof fn lemma_run_inv(g: GridView, source: Coord, goal: Coord, k: nat)
    requires
        g.wf(),
        g.in_bounds(source),
    ensures
        match run(g, goal, seeded(source), k) {
            Status::Running(s) => inv(g, source, s),
            Status::Found(s) => inv(g, source, s),
            Status::Exhausted(s) => inv(g, source, s),
        },
    decreases k,
{
    if k == 0 {
        lemma_seeded_inv(g, source);
    } else {
        lemma_run_inv(g, source, goal, (k - 1) as nat);
        match run(g, goal, seeded(source), (k - 1) as nat) {
            Status::Running(s) => {
                lemma_step_inv(g, source, goal, s);
            },
            _ => {},
        }
    }
}

/// One turn of the model preserves the invariant.
pub proof fn lemma_step_inv(g: GridView, source: Coord, goal: Coord, s: SState)
    requires
        g.wf(),
        g.in_bounds(source),
        inv(g, source, s),
    ensures
        match step(g, goal, s) {
            Status::Running(s2) => inv(g, source, s2),
            Status::Found(s2) => inv(g, source, s2),
            Status::Exhausted(s2) => inv(g, source, s2),
        },
{
    if s.frontier.len() > 0 {
        lemma_min_idx(s.frontier);
        let m = min_idx(s.frontier);
        let cur = s.frontier[m].c;
        lemma_visit_inv(g, source, s);
        if cur == goal {
            let s1 = SState { frontier: s.frontier.remove(m), ..s };
            let sf = SState { frontier: Seq::empty(), ..s1 };
            assert(inv(g, source, sf));
        } else {
            let s2 = SState {
                frontier: s.frontier.remove(m),
                visited: s.visited.insert(cur, true),
                ..s
            };
            assert(i32::MIN < cur.x < i32::MAX && i32::MIN < cur.y < i32::MAX);
            crate::coord::lemma_adjacents_adjacent(cur);
            let a = adjacents_spec(cur);
            let r0 = relax(g, goal, s2, cur, a[0]);
            lemma_relax_inv(g, source, goal, s2, cur, a[0]);
            let r1 = relax(g, goal, r0, cur, a[1]);
            lemma_relax_inv(g, source, goal, r0, cur, a[1]);
            let r2 = relax(g, goal, r1, cur, a[2]);
            lemma_relax_inv(g, source, goal, r1, cur, a[2]);
            lemma_relax_inv(g, source, goal, r2, cur, a[3]);
        }
    }
}

/// A cell index within the bounds is unique to its cell.
proof fn lemma_cell_index_injective(a: Coord, b: Coord, w: int, h: int)
    requires
        0 <= a.x < w,
        0 <= a.y < h,
        0 <= b.x < w,
        0 <= b.y < h,
        a.y * w + a.x == b.y * w + b.x,
    ensures
        a == b,
{
    assert(a.y == b.y && a.x == b.x) by (nonlinear_arith)
        requires
            0 <= a.x < w,
            0 <= b.x < w,
            a.y * w + a.x == b.y * w + b.x,
    ;
}

/// A cell index within the bounds stays below the cell count.
proof fn lemma_cell_index_range(c: Coord, w: int, h: int)
    requires
        0 <= c.x < w,
        0 <= c.y < h,
    ensures
        0 <= c.y * w + c.x < w * h,
{
    assert(0 <= c.y * w + c.x < w * h) by (nonlinear_arith)
        requires
            0 <= c.x < w,
            0 <= c.y < h,
    ;
}

/// Distinct coordinates that all lie in a `w` by `h` box, except for at most
/// one designated outsider, number at most `w * h + 1`.
pub proof fn lemma_bounded_distinct_coords(s: Seq<Coord>, w: int, h: int, extra: Coord)
    requires
        s.no_duplicates(),
        0 <= w,
        0 <= h,
        forall|i: int|
            0 <= i < s.len() ==> (0 <= (#[trigger] s[i]).x < w && 0 <= s[i].y < h) || s[i] == extra,
    ensures
        s.len() <= w * h + 1,
{
    let f = |c: Coord| if c == extra { w * h } else { c.y * w + c.x };
    let t = s.map_values(f);
    assert forall|i: int, j: int| 0 <= i < j < t.len() implies t[i] != t[j] by {
        assert(s[i] != s[j]);
        if s[i] != extra && s[j] != extra {
            lemma_cell_index_range(s[i], w, h);
            lemma_cell_index_range(s[j], w, h);
            if t[i] == t[j] {
                lemma_cell_index_injective(s[i], s[j], w, h);
            }
        } else if s[i] == extra {
            lemma_cell_index_range(s[j], w, h);
        } else {
            lemma_cell_index_range(s[i], w, h);
        }
    }
    assert(t.no_duplicates());
    assert forall|x: int| t.to_set().contains(x) implies vstd::set_lib::set_int_range(
        0,
        w * h + 1,
    ).contains(x) by {
        let i = choose|i: int| 0 <= i < t.len() && t[i] == x;
        if s[i] != extra {
            lemma_cell_index_range(s[i], w, h);
        }
    }
    t.unique_seq_to_set();
    vstd::set_lib::lemma_int_range(0, w * h + 1);
    vstd::set_lib::lemma_len_subset(t.to_set(), vstd::set_lib::set_int_range(0, w * h + 1));
}

/// An expanded set that respects the invariant fits in the grid.
proof fn lemma_visited_count_bound(g: GridView, source: Coord, m: CoordMap<bool>)
    requires
        m.wf(),
        g.wf(),
        g.in_bounds(source),
        forall|c: Coord| #[trigger] m@.dom().contains(c) ==> c == source || g.walkable(c),
    ensures
        m.key_count() <= g.width * g.height + 1,
{
    m.lemma_keys_seq();
    assert forall|i: int|
        0 <= i < m.keys_seq().len() implies (0 <= (#[trigger] m.keys_seq()[i]).x < g.width && 0
        <= m.keys_seq()[i].y < g.height) || m.keys_seq()[i] == source by {
        assert(m@.dom().contains(m.keys_seq()[i]));
    }
    lemma_bounded_distinct_coords(m.keys_seq(), g.width, g.height, source);
}

/// A finite set enumerates as a duplicate-free sequence of its elements.
proof fn lemma_set_to_seq_props<A>(s: Set<A>)
    requires
        s.finite(),
    ensures
        s.to_seq().len() == s.len(),
        s.to_seq().no_duplicates(),
        forall|x: A| s.to_seq().contains(x) <==> s.contains(x),
    decreases s.len(),
{
    if s.len() == 0 {
        assert(forall|x: A| !s.contains(x));
    } else {
        let x = s.choose();
        let rest = s.remove(x);
        lemma_set_to_seq_props(rest);
        let t = s.to_seq();
        assert(t == Seq::<A>::empty().push(x) + rest.to_seq());
        assert forall|y: A| t.contains(y) implies s.contains(y) by {
            let i = choose|i: int| 0 <= i < t.len() && t[i] == y;
            if i > 0 {
                assert(rest.to_seq()[i - 1] == y);
                assert(rest.to_seq().contains(y));
            }
        }
        assert forall|y: A| s.contains(y) implies t.contains(y) by {
            if y == x {
                assert(t[0] == y);
            } else {
                assert(rest.contains(y));
                let i = choose|i: int| 0 <= i < rest.to_seq().len() && rest.to_seq()[i] == y;
                assert(t[i + 1] == y);
            }
        }
        assert forall|i: int, j: int| 0 <= i < j < t.len() implies t[i] != t[j] by {
            if i == 0 {
                assert(t[j] == rest.to_seq()[j - 1]);
                assert(rest.to_seq().contains(t[j]));
                assert(rest.contains(t[j]));
            } else {
                assert(t[i] == rest.to_seq()[i - 1]);
                assert(t[j] == rest.to_seq()[j - 1]);
            }
        }
    }
}

/// A finite set of cells that all lie on the grid, except for at most the
/// source, fits in the grid.
proof fn lemma_bounded_coord_set(g: GridView, source: Coord, s: Set<Coord>)
    requires
        g.wf(),
        s.finite(),
        forall|c: Coord| #[trigger] s.contains(c) ==> c == source || g.walkable(c),
    ensures
        s.len() <= g.width * g.height + 1,
{
    lemma_set_to_seq_props(s);
    let t = s.to_seq();
    assert forall|i: int|
        0 <= i < t.len() implies (0 <= (#[trigger] t[i]).x < g.width && 0 <= t[i].y < g.height)
        || t[i] == source by {
        assert(t.contains(t[i]));
        assert(s.contains(t[i]));
    }
    lemma_bounded_distinct_coords(t, g.width, g.height, source);
}

/// While a search is still running, or once its frontier has drained, the
/// tables also say: the source is costed; expanded cells are costed; every
/// costed cell is expanded or still queued; no recorded cost exceeds the
/// number of expanded cells; every walkable neighbour of an expanded cell
/// is costed; and the goal is never expanded.
pub open spec fn inv_active(g: GridView, source: Coord, goal: Coord, s: SState) -> bool {
    &&& s.visited.dom().finite()
    &&& s.cost.dom().contains(source)
    &&& forall|c: Coord| #[trigger] s.visited.dom().contains(c) ==> s.cost.dom().contains(c)
    &&& forall|c: Coord|
        #[trigger] s.cost.dom().contains(c) ==> s.visited.dom().contains(c) || fr_has(
            s.frontier,
            c,
        )
    &&& forall|c: Coord|
        #[trigger] s.cost.dom().contains(c) ==> s.cost[c] <= s.visited.dom().len()
    &&& forall|v: Coord, n: Coord|
        #![trigger s.visited.dom().contains(v), g.walkable(n)]
        s.visited.dom().contains(v) && adjacent(v, n) && g.walkable(n) ==> s.cost.dom().contains(
            n,
        )
    &&& !s.visited.dom().contains(goal)
}

/// What one relaxation does to the tables, spelled out for the closure
/// argument: membership only grows, values stay under the bound, a fresh
/// cost entry is queued, and a walkable unexpanded neighbour ends costed.
proof fn lemma_relax_active(g: GridView, goal: Coord, s: SState, cur: Coord, n: Coord, bound: int)
    requires
        s.cost.dom().contains(cur),
        0 <= s.cost[cur],
        s.cost[cur] + 1 <= bound,
        bound <= MAX_COST,
        forall|c: Coord| #[trigger] s.cost.dom().contains(c) ==> s.cost[c] <= bound,
    ensures
        ({
            let r = relax(g, goal, s, cur, n);
            &&& r.visited == s.visited
            &&& r.cost.dom().contains(cur) && r.cost[cur] == s.cost[cur]
            &&& forall|c: Coord|
                s.cost.dom().contains(c) ==> #[trigger] r.cost.dom().contains(c)
            &&& forall|c: Coord|
                s.cost.dom().contains(c) ==> #[trigger] r.cost[c] <= s.cost[c]
            &&& forall|c: Coord|
                #[trigger] r.cost.dom().contains(c) ==> s.cost.dom().contains(c) || c == n
            &&& forall|c: Coord| #[trigger] r.cost.dom().contains(c) ==> r.cost[c] <= bound
            &&& forall|d: Coord| fr_has(s.frontier, d) ==> #[trigger] fr_has(r.frontier, d)
            &&& forall|c: Coord|
                #[trigger] r.cost.dom().contains(c) && !s.cost.dom().contains(c) ==> fr_has(
                    r.frontier,
                    c,
                )
            &&& (g.walkable(n) && !s.visited.dom().contains(n)) ==> r.cost.dom().contains(n)
        }),
{
    let r = relax(g, goal, s, cur, n);
    if g.walkable(n) && !s.visited.dom().contains(n) {
        let nc = s.cost[cur] + EDGE_COST;
        if nc <= MAX_COST && (!s.cost.dom().contains(n) || nc < s.cost[n]) {
            crate::frontier::lemma_fr_push_has(s.frontier, n, (nc + manhattan(goal, n)) as i64);
        }
    }
    assert(r.visited == s.visited);
    assert(r.cost.dom().contains(cur) && r.cost[cur] == s.cost[cur]);
    assert(forall|c: Coord| s.cost.dom().contains(c) ==> #[trigger] r.cost.dom().contains(c));
    assert(forall|c: Coord| s.cost.dom().contains(c) ==> #[trigger] r.cost[c] <= s.cost[c]);
    assert(forall|c: Coord| #[trigger] r.cost.dom().contains(c) ==> s.cost.dom().contains(c) || c == n);
    assert(forall|c: Coord| #[trigger] r.cost.dom().contains(c) ==> r.cost[c] <= bound);
    assert(forall|d: Coord| fr_has(s.frontier, d) ==> #[trigger] fr_has(r.frontier, d));
    assert(forall|c: Coord| #[trigger] r.cost.dom().contains(c) && !s.cost.dom().contains(c) ==> fr_has(r.frontier, c));
    assert((g.walkable(n) && !s.visited.dom().contains(n)) ==> r.cost.dom().contains(n));
}

/// One turn of the model preserves the active invariant.
proof fn lemma_step_active(g: GridView, source: Coord, goal: Coord, s: SState)
    requires
        g.wf(),
        g.in_bounds(source),
        inv(g, source, s),
        inv_active(g, source, goal, s),
    ensures
        match step(g, goal, s) {
            Status::Running(s2) => inv_active(g, source, goal, s2),
            Status::Found(_) => true,
            Status::Exhausted(s2) => inv_active(g, source, goal, s2) && s2.frontier.len() == 0,
        },
{
    if s.frontier.len() == 0 {
        return ;
    }
    lemma_min_idx(s.frontier);
    let m = min_idx(s.frontier);
    let cur = s.frontier[m].c;
    if cur == goal {
        return ;
    }
    let sv = SState {
        frontier: s.frontier.remove(m),
        visited: s.visited.insert(cur, true),
        ..s
    };
    let bound = sv.visited.dom().len() as int;
    assert(sv.visited.dom().len() == s.visited.dom().len() + 1);
    // the bound respects the cap: the expanded set fits in the grid
    lemma_bounded_coord_set(g, source, sv.visited.dom());
    assert(g.width * g.height + 1 <= MAX_COST - 1) by (nonlinear_arith)
        requires
            0 <= g.width <= 0x7fff_ffff,
            0 <= g.height <= 0x7fff_ffff,
    ;
    // any frontier survivor keeps its membership after the pop
    assert forall|c: Coord|
        fr_has(s.frontier, c) && c != cur implies #[trigger] fr_has(sv.frontier, c) by {
        let i = choose|i: int| 0 <= i < s.frontier.len() && (#[trigger] s.frontier[i]).c == c;
        if i < m {
            assert(sv.frontier[i].c == c);
        } else {
            assert(sv.frontier[i - 1].c == c);
        }
    }
    crate::coord::lemma_adjacents_adjacent(cur);
    let a = adjacents_spec(cur);
    let r0 = relax(g, goal, sv, cur, a[0]);
    lemma_relax_active(g, goal, sv, cur, a[0], bound);
    let r1 = relax(g, goal, r0, cur, a[1]);
    lemma_relax_active(g, goal, r0, cur, a[1], bound);
    let r2 = relax(g, goal, r1, cur, a[2]);
    lemma_relax_active(g, goal, r1, cur, a[2], bound);
    let r3 = relax(g, goal, r2, cur, a[3]);
    lemma_relax_active(g, goal, r2, cur, a[3], bound);
    assert(step(g, goal, s) == Status::Running(r3));
    // closure: the walkable neighbours of every expanded cell are costed
    assert forall|v: Coord, n: Coord|
        #![trigger r3.visited.dom().contains(v), g.walkable(n)]
        r3.visited.dom().contains(v) && adjacent(v, n) && g.walkable(n) implies r3
        .cost
        .dom()
        .contains(n) by {
        if v == cur {
            crate::coord::lemma_adjacent_is_neighbour(cur, n);
            let j = choose|j: int| 0 <= j < 4 && adjacents_spec(cur)[j] == n;
            if s.visited.dom().contains(n) {
                assert(s.cost.dom().contains(n));
            } else {
                assert(!sv.visited.dom().contains(n));
            }
        } else {
            assert(s.visited.dom().contains(v));
            assert(s.cost.dom().contains(n));
        }
    }
    // every costed cell is expanded or still queued
    assert forall|c: Coord|
        #[trigger] r3.cost.dom().contains(c) implies r3.visited.dom().contains(c) || fr_has(
            r3.frontier,
            c,
        ) by {
        if s.cost.dom().contains(c) {
            if !s.visited.dom().contains(c) && c != cur {
                assert(fr_has(s.frontier, c));
                assert(fr_has(sv.frontier, c));
            }
        }
    }
}

/// The active invariant holds at every running or exhausted turn; an
/// exhausted state has an empty frontier.
pub proof fn lemma_run_active(g: GridView, source: Coord, goal: Coord, k: nat)
    requires
        g.wf(),
        g.in_bounds(source),
    ensures
        match run(g, goal, seeded(source), k) {
            Status::Running(s) => inv_active(g, source, goal, s),
            Status::Found(_) => true,
            Status::Exhausted(s) => inv_active(g, source, goal, s) && s.frontier.len() == 0,
        },
    decreases k,
{
    if k == 0 {
        let s = seeded(source);
        assert(s.frontier[0].c == source);
        assert(fr_has(s.frontier, source));
    } else {
        lemma_run_active(g, source, goal, (k - 1) as nat);
        lemma_run_inv(g, source, goal, (k - 1) as nat);
        match run(g, goal, seeded(source), (k - 1) as nat) {
            Status::Running(s) => {
                lemma_step_active(g, source, goal, s);
            },
            _ => {},
        }
    }
}

/// Every cell a walk from the source reaches is expanded once the frontier
/// has drained.
proof fn lemma_walk_visited(g: GridView, source: Coord, s: SState, b: Coord, w: Seq<Coord>)
    requires
        g.wf(),
        forall|c: Coord| #[trigger] s.cost.dom().contains(c) ==> s.visited.dom().contains(c)
            || fr_has(s.frontier, c),
        forall|v: Coord, n: Coord|
            #![trigger s.visited.dom().contains(v), g.walkable(n)]
            s.visited.dom().contains(v) && adjacent(v, n) && g.walkable(n)
                ==> s.cost.dom().contains(n),
        s.cost.dom().contains(source),
        s.frontier.len() == 0,
        is_walk(g, source, b, w),
    ensures
        s.visited.dom().contains(b),
    decreases w.len(),
{
    assert(forall|c: Coord| !fr_has(s.frontier, c));
    if w.len() == 1 {
        assert(s.visited.dom().contains(source));
    } else {
        let w2 = w.drop_last();
        let prev = w2.last();
        assert(is_walk(g, source, prev, w2)) by {
            assert(forall|i: int| 0 <= i < w2.len() ==> w2[i] == w[i]);
            assert(w2[0] == source);
        }
        lemma_walk_visited(g, source, s, prev, w2);
        assert(adjacent(w[w.len() - 2], w[w.len() - 1]));
        assert(g.walkable(b));
        assert(s.cost.dom().contains(b));
    }
}

/// An exhausted search is honest: when the frontier drains before the goal
/// pops, no walk through walkable cells leads from the source to the goal.
pub proof fn lemma_exhausted_means_unreachable(
    g: GridView,
    source: Coord,
    goal: Coord,
    k: nat,
    st: SState,
)
    requires
        g.wf(),
        g.in_bounds(source),
        run(g, goal, seeded(source), k) == Status::Exhausted(st),
    ensures
        !reachable(g, source, goal),
{
    lemma_run_active(g, source, goal, k);
    if reachable(g, source, goal) {
        let w = choose|w: Seq<Coord>| is_walk(g, source, goal, w);
        lemma_walk_visited(g, source, st, goal, w);
    }
}

/// Success is owed exactly on reachable goals: a completed search returns a
/// path if and only if the goal can be reached from the source through
/// walkable cells.
pub proof fn lemma_search_complete(
    g: GridView,
    source: Coord,
    goal: Coord,
    st: SState,
    r: Result<Vec<Coord>, PathError>,
)
    requires
        g.wf(),
        g.in_bounds(source),
        search_post(g, source, goal, st, r),
    ensures
        (r matches Result::Ok(_)) <==> reachable(g, source, goal),
{
    match r {
        Result::Ok(path) => {
            lemma_found_path_reachable(g, source, goal, st, path@);
        },
        Result::Err(_) => {
            lemma_failed_means_exhausted(g, source, goal, st);
            let k = choose|k: nat|
                #[trigger] run(g, goal, seeded(source), k) == Status::Exhausted(st);
            lemma_exhausted_means_unreachable(g, source, goal, k, st);
        },
    }
}

/// Which error a search reports.
#[derive(Clone, Copy, PartialEq, Eq, Structural, Debug)]
pub enum PathError {
    NoPathFound,
}

/// The mutable working set of the search engine.
pub struct SearchState {
    frontier: Frontier,
    cost: CoordMap<i64>,
    came: CoordMap<Option<Coord>>,
    visited: CoordMap<bool>,
}

impl View for SearchState {
    type V = SState;

    closed spec fn view(&self) -> SState {
        SState {
            frontier: self.frontier@,
            cost: self.cost@,
            came: self.came@,
            visited: self.visited@,
        }
    }
}

impl SearchState {
    pub closed spec fn wf(self) -> bool {
        self.cost.wf() && self.came.wf() && self.visited.wf()
    }

    pub fn new() -> (r: SearchState)
        ensures
            r.wf(),
            r@.frontier.len() == 0,
            r@.cost == Map::<Coord, i64>::empty(),
            r@.came == Map::<Coord, Option<Coord>>::empty(),
            r@.visited == Map::<Coord, bool>::empty(),
    {
        SearchState {
            frontier: Frontier::new(),
            cost: CoordMap::new(),
            came: CoordMap::new(),
            visited: CoordMap::new(),
        }
    }

    /// Clear every table, then seed them with the source: the source is
    /// queued at priority zero, costs zero, and has no predecessor. The
    /// outcome depends on the source alone, so repeating a reset changes
    /// nothing.
    pub fn reset(&mut self, source: Coord)
        requires
            old(self).wf(),
        ensures
            final(self).wf(),
            final(self)@ == seeded(source),
    {
        self.frontier.clear();
        self.cost.clear();
        self.came.clear();
        self.visited.clear();
        self.frontier.push(source, 0);
        self.cost.insert(source, 0);
        self.came.insert(source, None);
        proof {
            lemma_find_idx(Seq::<FEntry>::empty(), source);
            assert(self@.frontier =~= seeded(source).frontier);
            assert(self@ =~= seeded(source));
        }
    }

    /// How many coordinates are queued in the frontier.
    pub fn frontier_len(&self) -> (r: usize)
        ensures
            r == self@.frontier.len(),
    {
        self.frontier.len()
    }

    /// The frontier entry at position `i`, oldest first.
    pub fn frontier_entry(&self, i: usize) -> (r: (Coord, i64))
        requires
            i < self@.frontier.len(),
        ensures
            r.0 == self@.frontier[i as int].c,
            r.1 == self@.frontier[i as int].pri,
    {
        let e = self.frontier.entry(i);
        (e.c, e.pri)
    }

    /// How many cells carry a recorded cost.
    pub fn cost_len(&self) -> (r: usize)
        requires
            self.wf(),
        ensures
            r == self@.cost.dom().len(),
    {
        proof {
            self.cost.lemma_dom_len();
        }
        self.cost.len()
    }

    /// How many cells carry a recorded predecessor entry.
    pub fn came_len(&self) -> (r: usize)
        requires
            self.wf(),
        ensures
            r == self@.came.dom().len(),
    {
        proof {
            self.came.lemma_dom_len();
        }
        self.came.len()
    }

    /// The recorded cost from the source to `c`, if any.
    pub fn cost_of(&self, c: Coord) -> (r: Option<i64>)
        requires
            self.wf(),
        ensures
            match r {
                Option::Some(v) => self@.cost.dom().contains(c) && self@.cost[c] == v,
                Option::None => !self@.cost.dom().contains(c),
            },
    {
        self.cost.get(c)
    }

    /// The recorded predecessor entry of `c`, if any. An inner `None` marks
    /// the root of the search tree: the source.
    pub fn predecessor(&self, c: Coord) -> (r: Option<Option<Coord>>)
        requires
            self.wf(),
        ensures
            match r {
                Option::Some(v) => self@.came.dom().contains(c) && self@.came[c] == v,
                Option::None => !self@.came.dom().contains(c),
            },
    {
        self.came.get(c)
    }
}

/// A completed search from `source` reached `goal`, leaving state `st`, and
/// walking the predecessors back extracted `path`.
pub open spec fn found_path(
    g: GridView,
    source: Coord,
    goal: Coord,
    st: SState,
    path: Seq<Coord>,
) -> bool {
    exists|k: nat|
        #[trigger] run(g, goal, seeded(source), k) == Status::Found(st)
            && crate::extract::extract_fuel(st.came, source, goal, st.came.dom().len())
            == Option::Some(Option::Some(path))
}

/// A completed search from `source` failed, leaving state `st`: either the
/// frontier ran dry before the goal was popped, or the backward walk from
/// the goal did not reach the source.
pub open spec fn search_failed(g: GridView, source: Coord, goal: Coord, st: SState) -> bool {
    exists|k: nat|
        {
            ||| #[trigger] run(g, goal, seeded(source), k) == Status::Exhausted(st)
            ||| (run(g, goal, seeded(source), k) == Status::Found(st) && !(
            crate::extract::extract_fuel(st.came, source, goal, st.came.dom().len())
                matches Option::Some(Option::Some(_))))
        }
}

/// What one whole search run says of its result.
pub open spec fn search_post(
    g: GridView,
    source: Coord,
    goal: Coord,
    st: SState,
    r: Result<Vec<Coord>, PathError>,
) -> bool {
    match r {
        Result::Ok(path) => found_path(g, source, goal, st, path@),
        Result::Err(e) => e == PathError::NoPathFound && search_failed(g, source, goal, st),
    }
}

/// Once finished, the search stays finished with the same outcome.
pub proof fn lemma_run_stable(g: GridView, goal: Coord, s0: SState, k: nat, j: nat)
    requires
        !(run(g, goal, s0, k) matches Status::Running(_)),
        k <= j,
    ensures
        run(g, goal, s0, j) == run(g, goal, s0, k),
    decreases j - k,
{
    if j > k {
        lemma_run_stable(g, goal, s0, k, (j - 1) as nat);
    }
}

/// Determinism of the model: two completed runs of one search agree.
pub proof fn lemma_run_deterministic(g: GridView, goal: Coord, s0: SState, k1: nat, k2: nat)
    requires
        !(run(g, goal, s0, k1) matches Status::Running(_)),
        !(run(g, goal, s0, k2) matches Status::Running(_)),
    ensures
        run(g, goal, s0, k1) == run(g, goal, s0, k2),
{
    if k1 <= k2 {
        lemma_run_stable(g, goal, s0, k1, k2);
    } else {
        lemma_run_stable(g, goal, s0, k2, k1);
    }
}

/// Determinism of the whole search: with the same grid, source and goal,
/// two successful searches leave the same state and return the same path.
pub proof fn lemma_search_deterministic(
    g: GridView,
    source: Coord,
    goal: Coord,
    st1: SState,
    st2: SState,
    p1: Seq<Coord>,
    p2: Seq<Coord>,
)
    requires
        found_path(g, source, goal, st1, p1),
        found_path(g, source, goal, st2, p2),
    ensures
        st1 == st2,
        p1 == p2,
{
    let k1 = choose|k: nat|
        #[trigger] run(g, goal, seeded(source), k) == Status::Found(st1)
            && crate::extract::extract_fuel(st1.came, source, goal, st1.came.dom().len())
            == Option::Some(Option::Some(p1));
    let k2 = choose|k: nat|
        #[trigger] run(g, goal, seeded(source), k) == Status::Found(st2)
            && crate::extract::extract_fuel(st2.came, source, goal, st2.came.dom().len())
            == Option::Some(Option::Some(p2));
    lemma_run_deterministic(g, goal, seeded(source), k1, k2);
}

/// Determinism at the search's contract: two completed searches with the
/// same grid, source and goal leave the same state and agree on the
/// outcome, down to the path returned.
pub proof fn lemma_search_outcomes_agree(
    g: GridView,
    source: Coord,
    goal: Coord,
    st1: SState,
    st2: SState,
    r1: Result<Vec<Coord>, PathError>,
    r2: Result<Vec<Coord>, PathError>,
)
    requires
        search_post(g, source, goal, st1, r1),
        search_post(g, source, goal, st2, r2),
    ensures
        st1 == st2,
        match (r1, r2) {
            (Result::Ok(p1), Result::Ok(p2)) => p1@ == p2@,
            (Result::Err(e1), Result::Err(e2)) => e1 == e2,
            _ => false,
        },
{
    let s0 = seeded(source);
    match r1 {
        Result::Ok(p1) => {
            let k1 = choose|k: nat|
                #[trigger] run(g, goal, s0, k) == Status::Found(st1)
                    && crate::extract::extract_fuel(st1.came, source, goal, st1.came.dom().len())
                    == Option::Some(Option::Some(p1@));
            match r2 {
                Result::Ok(p2) => {
                    lemma_search_deterministic(g, source, goal, st1, st2, p1@, p2@);
                },
                Result::Err(_) => {
                    let k2 = choose|k: nat|
                        {
                            ||| #[trigger] run(g, goal, s0, k) == Status::Exhausted(st2)
                            ||| (run(g, goal, s0, k) == Status::Found(st2) && !(
                            crate::extract::extract_fuel(
                                st2.came,
                                source,
                                goal,
                                st2.came.dom().len(),
                            ) matches Option::Some(Option::Some(_))))
                        };
                    lemma_run_deterministic(g, goal, s0, k1, k2);
                },
            }
        },
        Result::Err(_) => {
            let k1 = choose|k: nat|
                {
                    ||| #[trigger] run(g, goal, s0, k) == Status::Exhausted(st1)
                    ||| (run(g, goal, s0, k) == Status::Found(st1) && !(
                    crate::extract::extract_fuel(st1.came, source, goal, st1.came.dom().len())
                        matches Option::Some(Option::Some(_))))
                };
            match r2 {
                Result::Ok(p2) => {
                    let k2 = choose|k: nat|
                        #[trigger] run(g, goal, s0, k) == Status::Found(st2)
                            && crate::extract::extract_fuel(
                            st2.came,
                            source,
                            goal,
                            st2.came.dom().len(),
                        ) == Option::Some(Option::Some(p2@));
                    lemma_run_deterministic(g, goal, s0, k1, k2);
                },
                Result::Err(_) => {
                    let k2 = choose|k: nat|
                        {
                            ||| #[trigger] run(g, goal, s0, k) == Status::Exhausted(st2)
                            ||| (run(g, goal, s0, k) == Status::Found(st2) && !(
                            crate::extract::extract_fuel(
                                st2.came,
                                source,
                                goal,
                                st2.came.dom().len(),
                            ) matches Option::Some(Option::Some(_))))
                        };
                    lemma_run_deterministic(g, goal, s0, k1, k2);
                },
            }
        },
    }
}

/// A goal whose four neighbours are all unwalkable, and which is neither
/// the source nor adjacent to it, never enters the frontier, so no turn of
/// the search pops it.
pub proof fn lemma_enclosed_goal_never_found(g: GridView, source: Coord, goal: Coord, k: nat)
    requires
        g.wf(),
        g.in_bounds(source),
        goal != source,
        !adjacent(source, goal),
        forall|p: Coord| adjacent(p, goal) ==> !g.walkable(p),
    ensures
        !(run(g, goal, seeded(source), k) matches Status::Found(_)),
    decreases k,
{
    if k > 0 {
        lemma_enclosed_goal_never_found(g, source, goal, (k - 1) as nat);
        lemma_run_inv(g, source, goal, (k - 1) as nat);
        match run(g, goal, seeded(source), (k - 1) as nat) {
            Status::Running(s) => {
                if s.frontier.len() > 0 {
                    lemma_min_idx(s.frontier);
                    let m = min_idx(s.frontier);
                    let cur = s.frontier[m].c;
                    if cur == goal {
                        let p = choose|p: Coord|
                            adjacent(p, goal) && (p == source || g.walkable(p));
                        assert(!g.walkable(p));
                        assert(p != source);
                        assert(false);
                    }
                }
            },
            _ => {},
        }
    }
}

/// No-path correctness: with the goal fully enclosed, every completed
/// search reports that no path was found.
pub proof fn lemma_enclosed_goal_fails(
    g: GridView,
    source: Coord,
    goal: Coord,
    st: SState,
    r: Result<Vec<Coord>, PathError>,
)
    requires
        g.wf(),
        g.in_bounds(source),
        goal != source,
        !adjacent(source, goal),
        forall|p: Coord| adjacent(p, goal) ==> !g.walkable(p),
        search_post(g, source, goal, st, r),
    ensures
        r matches Result::Err(e) && e == PathError::NoPathFound,
{
    match r {
        Result::Ok(path) => {
            let k = choose|k: nat|
                #[trigger] run(g, goal, seeded(source), k) == Status::Found(st)
                    && crate::extract::extract_fuel(st.came, source, goal, st.came.dom().len())
                    == Option::Some(Option::Some(path@));
            lemma_enclosed_goal_never_found(g, source, goal, k);
        },
        Result::Err(_) => {},
    }
}

/// The cells whose recorded cost does not exceed `v`.
pub open spec fn cells_below(s: SState, v: i64) -> Set<Coord> {
    s.cost.dom().filter(|c: Coord| s.cost[c] <= v)
}

/// Extraction cannot run out of fuel on grounded chains: from any recorded
/// cell, one fuel unit per recorded cell reaches the source, because each
/// backward step strictly lowers the recorded cost.
pub proof fn lemma_extract_succeeds(s: SState, source: Coord, cur: Coord, fuel: nat)
    requires
        chain_inv(s),
        forall|c: Coord|
            #[trigger] s.came.dom().contains(c) ==> (s.came[c] is None ==> c == source),
        cur == source || s.cost.dom().contains(cur),
        cur == source || fuel >= cells_below(s, s.cost[cur]).len(),
    ensures
        crate::extract::extract_fuel(s.came, source, cur, fuel) matches Option::Some(
            Option::Some(_),
        ),
    decreases fuel,
{
    if cur != source {
        let below = cells_below(s, s.cost[cur]);
        s.cost.dom().lemma_len_filter(|c: Coord| s.cost[c] <= s.cost[cur]);
        assert(below.contains(cur));
        assert(below.len() >= 1) by {
            vstd::set_lib::lemma_len_subset(below.remove(cur).insert(cur), below);
        }
        match s.came[cur] {
            Option::Some(p) => {
                let pbelow = cells_below(s, s.cost[p]);
                assert(pbelow.subset_of(below.remove(cur)));
                vstd::set_lib::lemma_len_subset(pbelow, below.remove(cur));
                lemma_extract_succeeds(s, source, p, (fuel - 1) as nat);
            },
            Option::None => {},
        }
    }
}

/// A found outcome has a last running turn: the step that popped the goal.
proof fn lemma_found_last_step(g: GridView, goal: Coord, s0: SState, k: nat, st: SState)
    requires
        run(g, goal, s0, k) == Status::Found(st),
    ensures
        exists|j: nat, s: SState|
            #![trigger run(g, goal, s0, j), step(g, goal, s)]
            j < k && run(g, goal, s0, j) == Status::Running(s) && step(g, goal, s)
                == Status::Found(st),
    decreases k,
{
    match run(g, goal, s0, (k - 1) as nat) {
        Status::Running(s) => {
            assert(run(g, goal, s0, (k - 1) as nat) == Status::Running(s) && step(g, goal, s)
                == Status::Found(st));
        },
        Status::Found(_) => {
            lemma_found_last_step(g, goal, s0, (k - 1) as nat, st);
        },
        Status::Exhausted(_) => {},
    }
}

/// A search that found the goal always extracts a path: the goal carries a
/// recorded cost, and its chain descends to the source within one step per
/// recorded cell.
pub proof fn lemma_found_extracts(g: GridView, source: Coord, goal: Coord, k: nat, st: SState)
    requires
        g.wf(),
        g.in_bounds(source),
        run(g, goal, seeded(source), k) == Status::Found(st),
    ensures
        crate::extract::extract_fuel(st.came, source, goal, st.came.dom().len())
            matches Option::Some(Option::Some(_)),
{
    lemma_run_chain(g, source, goal, k);
    lemma_run_inv(g, source, goal, k);
    if goal != source {
        lemma_found_last_step(g, goal, seeded(source), k, st);
        let (j, s): (nat, SState) = choose|j: nat, s: SState|
            #![trigger run(g, goal, seeded(source), j), step(g, goal, s)]
            j < k && run(g, goal, seeded(source), j) == Status::Running(s) && step(g, goal, s)
                == Status::Found(st);
        lemma_run_inv(g, source, goal, j);
        lemma_min_idx(s.frontier);
        assert(s.cost.dom().contains(goal));
        assert(st.cost == s.cost && st.came == s.came);
        s.cost.dom().lemma_len_filter(|c: Coord| s.cost[c] <= s.cost[goal]);
        vstd::set_lib::lemma_len_subset(cells_below(st, st.cost[goal]), st.cost.dom());
        lemma_extract_succeeds(st, source, goal, st.came.dom().len());
    }
}

/// A walk across the grid: it starts at `a`, ends at `b`, each step moves
/// to an adjacent cell, and every cell after the first is walkable.
pub open spec fn is_walk(g: GridView, a: Coord, b: Coord, w: Seq<Coord>) -> bool {
    &&& w.len() > 0
    &&& w[0] == a
    &&& w.last() == b
    &&& forall|i: int| 0 <= i < w.len() - 1 ==> adjacent(#[trigger] w[i], w[i + 1])
    &&& forall|i: int| 1 <= i < w.len() ==> g.walkable(#[trigger] w[i])
}

/// `b` can be reached from `a` through walkable cells.
pub open spec fn reachable(g: GridView, a: Coord, b: Coord) -> bool {
    exists|w: Seq<Coord>| is_walk(g, a, b, w)
}

/// A failure always comes from an exhausted frontier: a run that found the
/// goal extracts a path, so the extraction disjunct of failure never holds.
pub proof fn lemma_failed_means_exhausted(
    g: GridView,
    source: Coord,
    goal: Coord,
    st: SState,
)
    requires
        g.wf(),
        g.in_bounds(source),
        search_failed(g, source, goal, st),
    ensures
        exists|k: nat| #[trigger] run(g, goal, seeded(source), k) == Status::Exhausted(st),
{
    let s0 = seeded(source);
    let k = choose|k: nat|
        {
            ||| #[trigger] run(g, goal, s0, k) == Status::Exhausted(st)
            ||| (run(g, goal, s0, k) == Status::Found(st) && !(crate::extract::extract_fuel(
                st.came,
                source,
                goal,
                st.came.dom().len(),
            ) matches Option::Some(Option::Some(_))))
        };
    if run(g, goal, s0, k) == Status::Found(st) {
        lemma_found_extracts(g, source, goal, k, st);
    }
    assert(run(g, goal, s0, k) == Status::Exhausted(st));
}

/// A returned path shows the goal reachable: prefixing the source to the
/// path read backward gives a walk from source to goal.
pub proof fn lemma_found_path_reachable(
    g: GridView,
    source: Coord,
    goal: Coord,
    st: SState,
    path: Seq<Coord>,
)
    requires
        g.wf(),
        g.in_bounds(source),
        found_path(g, source, goal, st, path),
    ensures
        reachable(g, source, goal),
{
    lemma_found_path_shape(g, source, goal, st, path);
    let n = path.len() as int;
    if n == 0 {
        let w = seq![source];
        assert(is_walk(g, source, goal, w));
    } else {
        let w = Seq::new((n + 1) as nat, |i: int| if i == 0 { source } else { path[n - i] });
        assert(w[0] == source);
        assert(w.last() == path[0]);
        assert forall|i: int| 0 <= i < w.len() - 1 implies adjacent(#[trigger] w[i], w[i + 1]) by {
            if i == 0 {
                assert(w[1] == path.last());
            } else {
                assert(w[i] == path[n - i] && w[i + 1] == path[n - i - 1]);
                assert(adjacent(path[(n - i - 1) + 1], path[n - i - 1]));
            }
        }
        assert forall|i: int| 1 <= i < w.len() implies g.walkable(#[trigger] w[i]) by {
            assert(w[i] == path[n - i]);
        }
        assert(is_walk(g, source, goal, w));
    }
}

/// The shape of an extracted path: it starts at the walked-from cell, each
/// entry's recorded predecessor is the next entry (or, for the last entry,
/// the source), and the source itself never appears.
pub proof fn lemma_extracted_path_shape(
    came: Map<Coord, Option<Coord>>,
    source: Coord,
    cur: Coord,
    fuel: nat,
    path: Seq<Coord>,
)
    requires
        forall|c: Coord| #[trigger] came.dom().contains(c) ==> match came[c] {
            Option::None => c == source,
            Option::Some(p) => adjacent(p, c),
        },
        crate::extract::extract_fuel(came, source, cur, fuel) == Option::Some(
            Option::Some(path),
        ),
    ensures
        (path.len() == 0) <==> (cur == source),
        path.len() > 0 ==> path[0] == cur,
        forall|i: int|
            0 <= i < path.len() ==> (#[trigger] path[i]) != source && came.dom().contains(
                path[i],
            ),
        forall|i: int|
            0 <= i < path.len() - 1 ==> came[#[trigger] path[i]] == Option::Some(path[i + 1]),
        path.len() > 0 ==> came[path.last()] == Option::Some(source),
    decreases fuel,
{
    if cur != source {
        match came[cur] {
            Option::Some(p) => {
                let sub = crate::extract::extract_fuel(came, source, p, (fuel - 1) as nat);
                match sub {
                    Option::Some(Option::Some(tail)) => {
                        lemma_extracted_path_shape(came, source, p, (fuel - 1) as nat, tail);
                        assert(path == seq![cur] + tail);
                        assert(path[0] == cur);
                        assert forall|i: int| 0 <= i < path.len() implies (#[trigger] path[i])
                            != source && came.dom().contains(path[i]) by {
                            if i > 0 {
                                assert(path[i] == tail[i - 1]);
                            }
                        }
                        assert forall|i: int| 0 <= i < path.len() - 1 implies came[#[trigger] path[i]]
                            == Option::Some(path[i + 1]) by {
                            if i > 0 {
                                assert(path[i] == tail[i - 1]);
                                assert(path[i + 1] == tail[i]);
                            } else {
                                if tail.len() == 0 {
                                } else {
                                    assert(path[1] == tail[0]);
                                    assert(tail[0] == p);
                                }
                            }
                        }
                        if tail.len() == 0 {
                            assert(p == source);
                            assert(path.last() == cur);
                        } else {
                            assert(path.last() == tail.last());
                        }
                    },
                    _ => {},
                }
            },
            Option::None => {},
        }
    }
}

/// The shape of a returned path, at the search's contract: goal-first, each
/// step moves between adjacent cells, every cell on it is walkable, the
/// source never appears on it, and its tail end touches the source. An
/// empty path is returned exactly when the goal is the source.
pub proof fn lemma_found_path_shape(
    g: GridView,
    source: Coord,
    goal: Coord,
    st: SState,
    path: Seq<Coord>,
)
    requires
        g.wf(),
        g.in_bounds(source),
        found_path(g, source, goal, st, path),
    ensures
        (path.len() == 0) <==> (goal == source),
        path.len() > 0 ==> path[0] == goal,
        forall|i: int| 0 <= i < path.len() ==> (#[trigger] path[i]) != source,
        forall|i: int| 0 <= i < path.len() ==> g.walkable(#[trigger] path[i]),
        forall|i: int| 0 <= i < path.len() - 1 ==> adjacent(path[i + 1], #[trigger] path[i]),
        path.len() > 0 ==> adjacent(source, path.last()),
{
    let k = choose|k: nat|
        #[trigger] run(g, goal, seeded(source), k) == Status::Found(st)
            && crate::extract::extract_fuel(st.came, source, goal, st.came.dom().len())
            == Option::Some(Option::Some(path));
    lemma_run_inv(g, source, goal, k);
    lemma_extracted_path_shape(st.came, source, goal, st.came.dom().len(), path);
    assert forall|i: int| 0 <= i < path.len() implies g.walkable(#[trigger] path[i]) by {
        assert(st.came.dom().contains(path[i]));
    }
    assert forall|i: int|
        0 <= i < path.len() - 1 implies adjacent(path[i + 1], #[trigger] path[i]) by {
        assert(st.came.dom().contains(path[i]));
        assert(st.came[path[i]] == Option::Some(path[i + 1]));
    }
    if path.len() > 0 {
        assert(st.came.dom().contains(path.last()));
    }
}

/// Admissibility, lower half: an extracted path steps through adjacent
/// cells only, one cell per unit of cost, so it is never shorter than the
/// Manhattan distance from source to goal.
pub proof fn lemma_extracted_path_at_least_manhattan(
    came: Map<Coord, Option<Coord>>,
    source: Coord,
    cur: Coord,
    fuel: nat,
    path: Seq<Coord>,
)
    requires
        forall|c: Coord| #[trigger] came.dom().contains(c) ==> match came[c] {
            Option::None => c == source,
            Option::Some(p) => adjacent(p, c),
        },
        crate::extract::extract_fuel(came, source, cur, fuel) == Option::Some(
            Option::Some(path),
        ),
    ensures
        path.len() >= manhattan(source, cur),
    decreases fuel,
{
    if cur != source {
        match came[cur] {
            Option::Some(p) => {
                let sub = crate::extract::extract_fuel(came, source, p, (fuel - 1) as nat);
                match sub {
                    Option::Some(Option::Some(tail)) => {
                        lemma_extracted_path_at_least_manhattan(
                            came,
                            source,
                            p,
                            (fuel - 1) as nat,
                            tail,
                        );
                        assert(manhattan(source, cur) <= manhattan(source, p) + 1);
                    },
                    _ => {},
                }
            },
            Option::None => {},
        }
    }
}

/// Admissibility, lower half, at the search's contract: a path a completed
/// search returns is never shorter than the source-to-goal Manhattan
/// distance.
pub proof fn lemma_found_path_at_least_manhattan(
    g: GridView,
    source: Coord,
    goal: Coord,
    st: SState,
    path: Seq<Coord>,
)
    requires
        g.wf(),
        g.in_bounds(source),
        found_path(g, source, goal, st, path),
    ensures
        path.len() >= manhattan(source, goal),
{
    let k = choose|k: nat|
        #[trigger] run(g, goal, seeded(source), k) == Status::Found(st)
            && crate::extract::extract_fuel(st.came, source, goal, st.came.dom().len())
            == Option::Some(Option::Some(path));
    lemma_run_inv(g, source, goal, k);
    lemma_extracted_path_at_least_manhattan(st.came, source, goal, st.came.dom().len(), path);
}

/// One executable relaxation, following the model's `relax` exactly.
fn do_relax(
    grid: &Grid,
    state: &mut SearchState,
    Ghost(source): Ghost<Coord>,
    cur: Coord,
    n: Coord,
    goal: Coord,
)
    requires
        old(state).wf(),
        grid@.wf(),
        inv(grid@, source, old(state)@),
        cur == source || grid@.walkable(cur),
        adjacent(cur, n),
        old(state)@.cost.dom().contains(cur),
    ensures
        final(state).wf(),
        final(state)@ == relax(grid@, goal, old(state)@, cur, n),
        inv(grid@, source, final(state)@),
        final(state)@.cost.dom().contains(cur),
        final(state).visited == old(state).visited,
{
    proof {
        lemma_relax_inv(grid@, source, goal, old(state)@, cur, n);
    }
    if !grid.is_walkable(n) {
        return ;
    }
    if state.visited.contains_key(n) {
        return ;
    }
    let cc: i64 = match state.cost.get(cur) {
        Option::Some(v) => v,
        Option::None => {
            return ;
        },
    };
    proof {
        assert(0 <= cc <= MAX_COST);
    }
    let nc: i64 = cc + EDGE_COST;
    if nc > MAX_COST {
        return ;
    }
    let improve: bool = match state.cost.get(n) {
        Option::None => true,
        Option::Some(oc) => nc < oc,
    };
    if !improve {
        return ;
    }
    let h = heuristic(goal, n);
    let pri: i64 = nc + h;
    state.frontier.push(n, pri);
    state.cost.insert(n, nc);
    state.came.insert(n, Option::Some(cur));
    proof {
        assert(pri == ((old(state)@.cost[cur] + EDGE_COST) + manhattan(goal, n)) as i64);
        assert(state@ =~= relax(grid@, goal, old(state)@, cur, n));
    }
}

/// Run one full search: reset the state to the seeded source, expand the
/// frontier in deterministic order until the goal pops or the frontier runs
/// dry, and extract the path. The result and the final state follow the
/// step-indexed model exactly, so identical inputs give identical results.
pub fn find_path(grid: &Grid, state: &mut SearchState, source: Coord, goal: Coord) -> (r: Result<
    Vec<Coord>,
    PathError,
>)
    requires
        grid@.wf(),
        old(state).wf(),
        grid@.in_bounds(source),
    ensures
        final(state).wf(),
        search_post(grid@, source, goal, final(state)@, r),
{
    state.reset(source);
    let ghost g = grid@;
    let ghost init = seeded(source);
    let ghost mut k: nat = 0;
    loop
        invariant
            state.wf(),
            grid@ == g,
            g.wf(),
            g.in_bounds(source),
            init == seeded(source),
            run(g, goal, init, k) == Status::Running(state@),
        decreases g.width * g.height + 1 - state.visited.key_count(),
    {
        proof {
            lemma_run_inv(g, source, goal, k);
            assert(inv(g, source, state@));
            assert(state@.visited == state.visited@);
            lemma_visited_count_bound(g, source, state.visited);
        }
        if state.frontier.is_empty() {
            proof {
                k = k + 1;
                assert(run(g, goal, init, k) == Status::Exhausted(state@));
            }
            return Result::Err(PathError::NoPathFound);
        }
        let ghost s_pre = state@;
        let (cur, _pri) = state.frontier.pop_min();
        proof {
            lemma_visit_inv(g, source, s_pre);
        }
        if cur == goal {
            state.frontier.clear();
            proof {
                k = k + 1;
                assert(state@ =~= (SState {
                    frontier: Seq::empty(),
                    ..(SState { frontier: s_pre.frontier.remove(min_idx(s_pre.frontier)), ..s_pre })
                }));
                assert(run(g, goal, init, k) == Status::Found(state@));
            }
            let r = crate::extract::extract_path(&state.came, source, goal);
            return r;
        }
        state.visited.insert(cur, true);
        let ghost s2 = SState {
            frontier: s_pre.frontier.remove(min_idx(s_pre.frontier)),
            visited: s_pre.visited.insert(cur, true),
            ..s_pre
        };
        proof {
            assert(state@ =~= s2);
            crate::coord::lemma_adjacents_adjacent(cur);
        }
        let adj = adjacents(cur);
        do_relax(grid, state, Ghost(source), cur, adj[0], goal);
        do_relax(grid, state, Ghost(source), cur, adj[1], goal);
        do_relax(grid, state, Ghost(source), cur, adj[2], goal);
        do_relax(grid, state, Ghost(source), cur, adj[3], goal);
        proof {
            k = k + 1;
            assert(state@ == relax_all(g, goal, s2, cur));
            assert(run(g, goal, init, k) == Status::Running(state@));
            lemma_run_inv(g, source, goal, k);
            lemma_visited_count_bound(g, source, state.visited);
        }
    }
}

} // verus!
