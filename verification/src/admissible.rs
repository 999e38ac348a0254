//! Admissibility of the search: on an unobstructed grid, a completed search
//! always succeeds between in-bounds cells, and the returned path is exactly
//! as long as the Manhattan distance from source to goal.
//!
//! The argument is the classic one, specialized to the straight staircase
//! between source and goal: every cell of that staircase keeps the invariant
//! that the search has either expanded it cheaply or queued it cheaply, so
//! nothing the search pops — the goal included — ever carries a priority
//! above the staircase's total length.

use vstd::prelude::*;
use crate::coord::{Coord, abs_int, adjacent, manhattan};
use crate::frontier::{fr_has, find_idx, lemma_find_idx, min_idx, lemma_min_idx};
use crate::grid::GridView;
use crate::coord::adjacents_spec;
use crate::search::{chain_inv, inv, inv_active, is_walk, lemma_found_path_at_least_manhattan, lemma_relax_inv, lemma_run_active, lemma_run_chain, lemma_run_inv, lemma_search_complete, lemma_visit_inv, reachable, relax, run, search_post, seeded, step, PathError, SState, Status, EDGE_COST, MAX_COST};

verus! {

/// A grid with no obstruction anywhere inside its bounds.
pub open spec fn unobstructed(g: GridView) -> bool {
    forall|c: Coord| g.in_bounds(c) ==> #[trigger] g.walkable(c)
}

/// One signed unit step.
pub open spec fn sgn(d: int) -> int {
    if d > 0 {
        1
    } else if d < 0 {
        -1
    } else {
        0
    }
}

/// The `j`-th cell of the straight staircase from `a` to `b`: first along
/// the x axis, then along the y axis.
pub open spec fn canon(a: Coord, b: Coord, j: int) -> Coord {
    let dx = abs_int(b.x - a.x);
    if j <= dx {
        Coord { x: (a.x + j * sgn(b.x - a.x)) as i32, y: a.y }
    } else {
        Coord { x: b.x, y: (a.y + (j - dx) * sgn(b.y - a.y)) as i32 }
    }
}

/// The staircase starts at `a`, ends at `b`, steps between adjacent cells,
/// loses one unit of remaining distance per step, and stays inside the
/// bounding box of its two ends.
pub proof fn lemma_canon(a: Coord, b: Coord, j: int)
    requires
        0 <= j <= manhattan(a, b),
    ensures
        canon(a, b, 0) == a,
        canon(a, b, manhattan(a, b)) == b,
        manhattan(canon(a, b, j), b) == manhattan(a, b) - j,
        j < manhattan(a, b) ==> adjacent(canon(a, b, j), canon(a, b, j + 1)),
        a.x <= canon(a, b, j).x <= b.x || b.x <= canon(a, b, j).x <= a.x,
        a.y <= canon(a, b, j).y <= b.y || b.y <= canon(a, b, j).y <= a.y,
{
    let dx = abs_int(b.x - a.x);
    if b.x >= a.x {
        assert(sgn(b.x - a.x) == if b.x == a.x { 0int } else { 1int });
        if j <= dx {
            assert(canon(a, b, j).x == a.x + j * sgn(b.x - a.x));
        }
    } else {
        assert(sgn(b.x - a.x) == -1);
        if j <= dx {
            assert(canon(a, b, j).x == a.x - j);
        }
    }
    if b.y >= a.y {
        assert(sgn(b.y - a.y) == if b.y == a.y { 0int } else { 1int });
        if j > dx {
            assert(canon(a, b, j).y == a.y + (j - dx) * sgn(b.y - a.y));
        }
    } else {
        assert(sgn(b.y - a.y) == -1);
        if j > dx {
            assert(canon(a, b, j).y == a.y - (j - dx));
        }
    }
}

/// Priorities are honest: the source costs zero, its seed entry is queued
/// at zero, and every other queued entry sits at exactly its cell's cost
/// plus the remaining Manhattan distance to the goal.
pub open spec fn pri_honest(source: Coord, goal: Coord, s: SState) -> bool {
    &&& s.cost.dom().contains(source) && s.cost[source] == 0
    &&& forall|i: int|
        0 <= i < s.frontier.len() ==> {
            let e = #[trigger] s.frontier[i];
            &&& (e.c == source ==> e.pri == 0)
            &&& (e.c != source ==> e.pri == s.cost[e.c] + manhattan(goal, e.c))
        }
}

/// The staircase stays cheap: an expanded staircase cell costs at most its
/// index, and its successor on the staircase is already costed at most one
/// more.
pub open spec fn stair_inv(source: Coord, goal: Coord, s: SState) -> bool {
    let m = manhattan(source, goal);
    &&& forall|j: int|
        0 <= j <= m && s.visited.dom().contains(#[trigger] canon(source, goal, j))
            ==> s.cost.dom().contains(canon(source, goal, j)) && s.cost[canon(source, goal, j)]
            <= j
    &&& forall|j: int|
        0 <= j < m && s.visited.dom().contains(#[trigger] canon(source, goal, j))
            ==> s.cost.dom().contains(canon(source, goal, j + 1)) && s.cost[canon(
            source,
            goal,
            j + 1,
        )] <= j + 1
}

/// What keeps the popped priorities honest, tracked while the search runs.
pub open spec fn k_inv(g: GridView, source: Coord, goal: Coord, s: SState) -> bool {
    pri_honest(source, goal, s) && stair_inv(source, goal, s)
}

/// Relaxation, descriptively: it keeps the expanded set, only grows the
/// cost table, only lowers recorded costs, and touches no cell but its
/// target.
proof fn lemma_relax_facts(g: GridView, goal: Coord, s: SState, cur: Coord, n: Coord)
    ensures
        ({
            let r = relax(g, goal, s, cur, n);
            &&& r.visited == s.visited
            &&& forall|c: Coord|
                s.cost.dom().contains(c) ==> #[trigger] r.cost.dom().contains(c)
            &&& forall|c: Coord|
                s.cost.dom().contains(c) ==> #[trigger] r.cost[c] <= s.cost[c]
            &&& forall|c: Coord|
                #[trigger] r.cost.dom().contains(c) ==> s.cost.dom().contains(c) || c == n
        }),
{
}

/// Relaxing a walkable, unexpanded neighbour within the cap leaves it
/// costed at one more than the expanded cell, or cheaper.
proof fn lemma_relax_progress(g: GridView, goal: Coord, s: SState, cur: Coord, n: Coord)
    requires
        s.cost.dom().contains(cur),
        s.cost[cur] + 1 <= MAX_COST,
        g.walkable(n),
        !s.visited.dom().contains(n),
    ensures
        ({
            let r = relax(g, goal, s, cur, n);
            r.cost.dom().contains(n) && r.cost[n] <= s.cost[cur] + 1
        }),
{
}

/// Relaxation keeps the priorities honest: it never touches the source's
/// entries, and it requeues the relaxed cell at its fresh cost plus
/// distance.
proof fn lemma_relax_k1(g: GridView, source: Coord, goal: Coord, s: SState, cur: Coord, n: Coord)
    requires
        inv(g, source, s),
        pri_honest(source, goal, s),
    ensures
        pri_honest(source, goal, relax(g, goal, s, cur, n)),
{
    let r = relax(g, goal, s, cur, n);
    if r != s {
        let nc = s.cost[cur] + EDGE_COST;
        lemma_find_idx(s.frontier, n);
        let fi = find_idx(s.frontier, n);
        assert(n != source);
        assert forall|i: int| 0 <= i < r.frontier.len() implies {
            let e = #[trigger] r.frontier[i];
            &&& (e.c == source ==> e.pri == 0)
            &&& (e.c != source ==> e.pri == r.cost[e.c] + manhattan(goal, e.c))
        } by {
            if fi < s.frontier.len() {
                if i != fi {
                    assert(r.frontier[i] == s.frontier[i]);
                    assert(s.frontier[i].c != s.frontier[fi].c);
                    assert(s.frontier[fi].c == n);
                }
            } else {
                if i < s.frontier.len() {
                    assert(r.frontier[i] == s.frontier[i]);
                    assert(s.frontier[i].c != n);
                }
            }
        }
    }
}

/// The least staircase index not yet expanded; it exists because the goal,
/// the staircase's last cell, is never expanded.
proof fn first_unexpanded(source: Coord, goal: Coord, s: SState, j: int) -> (i: int)
    requires
        0 <= j <= manhattan(source, goal),
        forall|j2: int| 0 <= j2 < j ==> s.visited.dom().contains(#[trigger] canon(source, goal, j2)),
        !s.visited.dom().contains(goal),
    ensures
        j <= i <= manhattan(source, goal),
        !s.visited.dom().contains(canon(source, goal, i)),
        forall|j2: int| 0 <= j2 < i ==> s.visited.dom().contains(#[trigger] canon(source, goal, j2)),
    decreases manhattan(source, goal) - j,
{
    lemma_canon(source, goal, manhattan(source, goal));
    if !s.visited.dom().contains(canon(source, goal, j)) {
        j
    } else {
        first_unexpanded(source, goal, s, j + 1)
    }
}

/// Nothing pops above the staircase's total: some staircase cell is always
/// queued at a priority at most the full Manhattan distance.
proof fn lemma_pop_bound(g: GridView, source: Coord, goal: Coord, s: SState)
    requires
        inv(g, source, s),
        inv_active(g, source, goal, s),
        k_inv(g, source, goal, s),
        s.frontier.len() > 0,
    ensures
        s.frontier[min_idx(s.frontier)].pri <= manhattan(source, goal),
{
    let m = manhattan(source, goal);
    lemma_min_idx(s.frontier);
    let i = first_unexpanded(source, goal, s, 0);
    let pi = canon(source, goal, i);
    lemma_canon(source, goal, i);
    if i == 0 {
        assert(pi == source);
    } else {
        lemma_canon(source, goal, i - 1);
        assert(s.visited.dom().contains(canon(source, goal, i - 1)));
        assert(s.cost.dom().contains(pi) && s.cost[pi] <= i);
    }
    assert(s.cost.dom().contains(pi));
    assert(fr_has(s.frontier, pi));
    let ei = choose|ei: int| 0 <= ei < s.frontier.len() && (#[trigger] s.frontier[ei]).c == pi;
    if pi == source {
        assert(s.frontier[ei].pri == 0);
    } else {
        assert(manhattan(goal, pi) == m - i);
        assert(s.frontier[ei].pri <= m);
    }
    assert(s.frontier[min_idx(s.frontier)].pri <= s.frontier[ei].pri);
}

/// Shared facts about one expanding turn: the popped cell is costed within
/// any staircase index it occupies.
proof fn lemma_popped_within_budget(g: GridView, source: Coord, goal: Coord, s: SState)
    requires
        g.wf(),
        g.in_bounds(source),
        g.in_bounds(goal),
        inv(g, source, s),
        inv_active(g, source, goal, s),
        k_inv(g, source, goal, s),
        s.frontier.len() > 0,
    ensures
        forall|j: int|
            0 <= j <= manhattan(source, goal) && canon(source, goal, j) == s.frontier[min_idx(
                s.frontier,
            )].c ==> s.cost[s.frontier[min_idx(s.frontier)].c] <= j,
{
    let m = manhattan(source, goal);
    lemma_min_idx(s.frontier);
    lemma_pop_bound(g, source, goal, s);
    let mi = min_idx(s.frontier);
    let cur = s.frontier[mi].c;
    assert forall|j: int| 0 <= j <= m && canon(source, goal, j) == cur implies s.cost[cur]
        <= j by {
        lemma_canon(source, goal, j);
        if cur != source {
            assert(s.frontier[mi].pri == s.cost[cur] + manhattan(goal, cur));
        }
    }
}

/// One expanding turn keeps the priorities honest.
#[verifier::spinoff_prover]
proof fn lemma_step_k_pri(g: GridView, source: Coord, goal: Coord, s: SState)
    requires
        g.wf(),
        g.in_bounds(source),
        g.in_bounds(goal),
        inv(g, source, s),
        inv_active(g, source, goal, s),
        k_inv(g, source, goal, s),
        s.frontier.len() > 0,
        s.frontier[min_idx(s.frontier)].c != goal,
    ensures
        step(g, goal, s) matches Status::Running(s2) && pri_honest(source, goal, s2),
{
    lemma_min_idx(s.frontier);
    lemma_visit_inv(g, source, s);
    let mi = min_idx(s.frontier);
    let cur = s.frontier[mi].c;
    let sv = SState {
        frontier: s.frontier.remove(mi),
        visited: s.visited.insert(cur, true),
        ..s
    };
    assert forall|i: int| 0 <= i < sv.frontier.len() implies {
        let e = #[trigger] sv.frontier[i];
        &&& (e.c == source ==> e.pri == 0)
        &&& (e.c != source ==> e.pri == sv.cost[e.c] + manhattan(goal, e.c))
    } by {
        if i < mi {
            assert(sv.frontier[i] == s.frontier[i]);
        } else {
            assert(sv.frontier[i] == s.frontier[i + 1]);
        }
    }
    assert(pri_honest(source, goal, sv));
    assert(cur == source || g.walkable(cur));
    assert(i32::MIN < cur.x < i32::MAX && i32::MIN < cur.y < i32::MAX);
    crate::coord::lemma_adjacents_adjacent(cur);
    let a = adjacents_spec(cur);
    let r0 = relax(g, goal, sv, cur, a[0]);
    let r1 = relax(g, goal, r0, cur, a[1]);
    let r2 = relax(g, goal, r1, cur, a[2]);
    lemma_relax_inv(g, source, goal, sv, cur, a[0]);
    lemma_relax_k1(g, source, goal, sv, cur, a[0]);
    lemma_relax_inv(g, source, goal, r0, cur, a[1]);
    lemma_relax_k1(g, source, goal, r0, cur, a[1]);
    lemma_relax_inv(g, source, goal, r1, cur, a[2]);
    lemma_relax_k1(g, source, goal, r1, cur, a[2]);
    lemma_relax_k1(g, source, goal, r2, cur, a[3]);
}

/// One expanding turn keeps the expanded staircase cells cheap.
#[verifier::spinoff_prover]
proof fn lemma_step_k_stair_self(g: GridView, source: Coord, goal: Coord, s: SState)
    requires
        g.wf(),
        g.in_bounds(source),
        g.in_bounds(goal),
        inv(g, source, s),
        inv_active(g, source, goal, s),
        k_inv(g, source, goal, s),
        s.frontier.len() > 0,
        s.frontier[min_idx(s.frontier)].c != goal,
    ensures
        step(g, goal, s) matches Status::Running(s2) && (forall|j: int|
            0 <= j <= manhattan(source, goal) && s2.visited.dom().contains(
                #[trigger] canon(source, goal, j),
            ) ==> s2.cost.dom().contains(canon(source, goal, j)) && s2.cost[canon(source, goal, j)]
                <= j),
{
    let m = manhattan(source, goal);
    lemma_min_idx(s.frontier);
    lemma_popped_within_budget(g, source, goal, s);
    let mi = min_idx(s.frontier);
    let cur = s.frontier[mi].c;
    let sv = SState {
        frontier: s.frontier.remove(mi),
        visited: s.visited.insert(cur, true),
        ..s
    };
    let a = adjacents_spec(cur);
    let r0 = relax(g, goal, sv, cur, a[0]);
    let r1 = relax(g, goal, r0, cur, a[1]);
    let r2 = relax(g, goal, r1, cur, a[2]);
    let r3 = relax(g, goal, r2, cur, a[3]);
    lemma_relax_facts(g, goal, sv, cur, a[0]);
    lemma_relax_facts(g, goal, r0, cur, a[1]);
    lemma_relax_facts(g, goal, r1, cur, a[2]);
    lemma_relax_facts(g, goal, r2, cur, a[3]);
    assert(step(g, goal, s) == Status::Running(r3));
    assert forall|j: int|
        0 <= j <= m && r3.visited.dom().contains(#[trigger] canon(source, goal, j)) implies r3
        .cost
        .dom()
        .contains(canon(source, goal, j)) && r3.cost[canon(source, goal, j)] <= j by {
        let cj = canon(source, goal, j);
        if s.visited.dom().contains(cj) {
            assert(s.cost.dom().contains(cj) && s.cost[cj] <= j);
        } else {
            assert(cj == cur);
            assert(s.cost[cur] <= j);
        }
    }
}

/// One expanding turn keeps the staircase paid one cell ahead.
#[verifier::spinoff_prover]
proof fn lemma_step_k_stair_next(g: GridView, source: Coord, goal: Coord, s: SState)
    requires
        g.wf(),
        g.in_bounds(source),
        g.in_bounds(goal),
        unobstructed(g),
        inv(g, source, s),
        inv_active(g, source, goal, s),
        k_inv(g, source, goal, s),
        s.frontier.len() > 0,
        s.frontier[min_idx(s.frontier)].c != goal,
    ensures
        step(g, goal, s) matches Status::Running(s2) && (forall|j: int|
            0 <= j < manhattan(source, goal) && s2.visited.dom().contains(
                #[trigger] canon(source, goal, j),
            ) ==> s2.cost.dom().contains(canon(source, goal, j + 1)) && s2.cost[canon(
                source,
                goal,
                j + 1,
            )] <= j + 1),
{
    let m = manhattan(source, goal);
    lemma_min_idx(s.frontier);
    lemma_popped_within_budget(g, source, goal, s);
    let mi = min_idx(s.frontier);
    let cur = s.frontier[mi].c;
    assert(s.cost.dom().contains(cur));
    assert(cur == source || g.walkable(cur));
    assert(i32::MIN < cur.x < i32::MAX && i32::MIN < cur.y < i32::MAX);
    crate::coord::lemma_adjacents_adjacent(cur);
    let sv = SState {
        frontier: s.frontier.remove(mi),
        visited: s.visited.insert(cur, true),
        ..s
    };
    let a = adjacents_spec(cur);
    let r0 = relax(g, goal, sv, cur, a[0]);
    let r1 = relax(g, goal, r0, cur, a[1]);
    let r2 = relax(g, goal, r1, cur, a[2]);
    let r3 = relax(g, goal, r2, cur, a[3]);
    lemma_relax_facts(g, goal, sv, cur, a[0]);
    lemma_relax_facts(g, goal, r0, cur, a[1]);
    lemma_relax_facts(g, goal, r1, cur, a[2]);
    lemma_relax_facts(g, goal, r2, cur, a[3]);
    assert(step(g, goal, s) == Status::Running(r3));
    assert forall|j: int|
        0 <= j < m && r3.visited.dom().contains(#[trigger] canon(source, goal, j)) implies r3
        .cost
        .dom()
        .contains(canon(source, goal, j + 1)) && r3.cost[canon(source, goal, j + 1)] <= j
        + 1 by {
        let cj = canon(source, goal, j);
        let cj1 = canon(source, goal, j + 1);
        if s.visited.dom().contains(cj) {
            assert(s.cost.dom().contains(cj1) && s.cost[cj1] <= j + 1);
        } else {
            assert(cj == cur);
            lemma_canon(source, goal, j);
            lemma_canon(source, goal, j + 1);
            assert(g.in_bounds(cj1));
            assert(g.walkable(cj1));
            assert(adjacent(cur, cj1));
            assert(cj1 != cur);
            crate::coord::lemma_adjacent_is_neighbour(cur, cj1);
            let j2 = choose|j2: int| 0 <= j2 < 4 && adjacents_spec(cur)[j2] == cj1;
            if sv.visited.dom().contains(cj1) {
                assert(s.visited.dom().contains(cj1));
                assert(s.cost.dom().contains(cj1) && s.cost[cj1] <= j + 1);
            } else {
                assert(s.cost[cur] <= j);
                assert(m < 0x1_0000_0000);
                if j2 == 0 {
                    lemma_relax_progress(g, goal, sv, cur, a[0]);
                } else if j2 == 1 {
                    lemma_relax_progress(g, goal, r0, cur, a[1]);
                } else if j2 == 2 {
                    lemma_relax_progress(g, goal, r1, cur, a[2]);
                } else {
                    lemma_relax_progress(g, goal, r2, cur, a[3]);
                }
            }
        }
    }
}

/// One turn of the model keeps the priorities honest and the staircase
/// cheap; when the goal pops, its recorded cost is at most the staircase's
/// total length.
proof fn lemma_step_k(g: GridView, source: Coord, goal: Coord, s: SState)
    requires
        g.wf(),
        g.in_bounds(source),
        g.in_bounds(goal),
        unobstructed(g),
        inv(g, source, s),
        inv_active(g, source, goal, s),
        k_inv(g, source, goal, s),
    ensures
        match step(g, goal, s) {
            Status::Running(s2) => k_inv(g, source, goal, s2),
            Status::Found(s2) => s2.cost.dom().contains(goal) && s2.cost[goal] <= manhattan(
                source,
                goal,
            ),
            Status::Exhausted(s2) => k_inv(g, source, goal, s2),
        },
{
    if s.frontier.len() == 0 {
        return ;
    }
    lemma_min_idx(s.frontier);
    lemma_pop_bound(g, source, goal, s);
    let mi = min_idx(s.frontier);
    let cur = s.frontier[mi].c;
    assert(s.cost.dom().contains(cur));
    if cur == goal {
        if cur != source {
            assert(s.frontier[mi].pri == s.cost[cur] + manhattan(goal, cur));
        }
        return ;
    }
    lemma_step_k_pri(g, source, goal, s);
    lemma_step_k_stair_self(g, source, goal, s);
    lemma_step_k_stair_next(g, source, goal, s);
}

/// The priorities stay honest and the staircase cheap at every turn; a
/// found goal carries a recorded cost at most the staircase's total length.
pub proof fn lemma_run_k(g: GridView, source: Coord, goal: Coord, k: nat)
    requires
        g.wf(),
        g.in_bounds(source),
        g.in_bounds(goal),
        unobstructed(g),
    ensures
        match run(g, goal, seeded(source), k) {
            Status::Running(s) => k_inv(g, source, goal, s),
            Status::Found(s) => s.cost.dom().contains(goal) && s.cost[goal] <= manhattan(
                source,
                goal,
            ),
            Status::Exhausted(_) => true,
        },
    decreases k,
{
    if k == 0 {
        let s = seeded(source);
        assert(s.frontier[0].c == source);
        assert(pri_honest(source, goal, s));
        assert(stair_inv(source, goal, s));
    } else {
        lemma_run_k(g, source, goal, (k - 1) as nat);
        lemma_run_inv(g, source, goal, (k - 1) as nat);
        lemma_run_active(g, source, goal, (k - 1) as nat);
        match run(g, goal, seeded(source), (k - 1) as nat) {
            Status::Running(s) => {
                lemma_step_k(g, source, goal, s);
            },
            _ => {},
        }
    }
}

/// A chain-extracted path is never longer than the recorded cost of the
/// cell it starts from: each backward step strictly lowers a nonnegative
/// cost.
proof fn lemma_extract_len_le_cost(s: SState, source: Coord, cur: Coord, fuel: nat, path: Seq<Coord>)
    requires
        chain_inv(s),
        forall|c: Coord| #[trigger] s.cost.dom().contains(c) ==> s.cost[c] >= 0,
        crate::extract::extract_fuel(s.came, source, cur, fuel) == Option::Some(
            Option::Some(path),
        ),
    ensures
        cur == source || (s.cost.dom().contains(cur) ==> path.len() <= s.cost[cur]),
    decreases fuel,
{
    if cur != source && s.cost.dom().contains(cur) {
        match s.came[cur] {
            Option::Some(p) => {
                let sub = crate::extract::extract_fuel(s.came, source, p, (fuel - 1) as nat);
                match sub {
                    Option::Some(Option::Some(tail)) => {
                        lemma_extract_len_le_cost(s, source, p, (fuel - 1) as nat, tail);
                        assert(path == seq![cur] + tail);
                        assert(s.cost[p] >= 0);
                    },
                    _ => {},
                }
            },
            Option::None => {},
        }
    }
}

/// Admissibility (optimality): on an unobstructed grid, a completed search
/// between in-bounds cells always succeeds, and the returned path's length
/// is exactly the Manhattan distance from source to goal.
pub proof fn lemma_unobstructed_admissibility(
    g: GridView,
    source: Coord,
    goal: Coord,
    st: SState,
    r: Result<Vec<Coord>, PathError>,
)
    requires
        g.wf(),
        unobstructed(g),
        g.in_bounds(source),
        g.in_bounds(goal),
        search_post(g, source, goal, st, r),
    ensures
        r matches Result::Ok(path) && path@.len() == manhattan(source, goal),
{
    let m = manhattan(source, goal);
    let w = Seq::new((m + 1) as nat, |j: int| canon(source, goal, j));
    assert(w[0] == source) by {
        lemma_canon(source, goal, 0);
    }
    assert(w.last() == goal) by {
        lemma_canon(source, goal, m);
    }
    assert forall|i: int| 0 <= i < w.len() - 1 implies adjacent(#[trigger] w[i], w[i + 1]) by {
        lemma_canon(source, goal, i);
    }
    assert forall|i: int| 1 <= i < w.len() implies g.walkable(#[trigger] w[i]) by {
        lemma_canon(source, goal, i);
        assert(g.in_bounds(w[i]));
    }
    assert(is_walk(g, source, goal, w));
    assert(reachable(g, source, goal));
    lemma_search_complete(g, source, goal, st, r);
    match r {
        Result::Ok(path) => {
            lemma_found_path_at_least_manhattan(g, source, goal, st, path@);
            let k = choose|k: nat|
                #[trigger] run(g, goal, seeded(source), k) == Status::Found(st)
                    && crate::extract::extract_fuel(st.came, source, goal, st.came.dom().len())
                    == Option::Some(Option::Some(path@));
            lemma_run_k(g, source, goal, k);
            lemma_run_chain(g, source, goal, k);
            lemma_run_inv(g, source, goal, k);
            if goal != source {
                lemma_extract_len_le_cost(st, source, goal, st.came.dom().len(), path@);
            }
        },
        Result::Err(_) => {},
    }
}

} // verus!
