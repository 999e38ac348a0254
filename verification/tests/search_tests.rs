use gridpath::coord::{adjacents, heuristic, Coord};
use gridpath::coord_map::CoordMap;
use gridpath::extract::extract_path;
use gridpath::grid::Grid;
use gridpath::search::{find_path, PathError, SearchState};

fn c(x: i32, y: i32) -> Coord {
    Coord { x, y }
}

#[test]
fn adjacents_order_and_values() {
    let a = adjacents(c(4, 7));
    assert_eq!(a, vec![c(4, 8), c(4, 6), c(5, 7), c(3, 7)]);
}

#[test]
fn heuristic_is_manhattan() {
    assert_eq!(heuristic(c(3, 0), c(0, 0)), 3);
    assert_eq!(heuristic(c(-2, 5), c(4, -1)), 12);
    assert_eq!(heuristic(c(1, 1), c(1, 1)), 0);
}

#[test]
fn grid_walkability() {
    let mut g = Grid::new(10, 10);
    assert!(g.is_walkable(c(0, 0)));
    assert!(g.is_walkable(c(9, 9)));
    assert!(!g.is_walkable(c(10, 0)));
    assert!(!g.is_walkable(c(0, -1)));
    g.set_obstructed(c(3, 4));
    assert!(!g.is_walkable(c(3, 4)));
    assert!(g.is_walkable(c(3, 5)));
}

#[test]
fn straight_line_path_goal_first() {
    // source (0,0), goal (3,0), no obstructions: three steps, cost 3,
    // stored goal-first and consumed from the tail nearest the source
    let g = Grid::new(10, 10);
    let mut st = SearchState::new();
    let path = find_path(&g, &mut st, c(0, 0), c(3, 0)).unwrap();
    assert_eq!(path, vec![c(3, 0), c(2, 0), c(1, 0)]);
}

#[test]
fn path_length_equals_manhattan_when_unobstructed() {
    let g = Grid::new(10, 10);
    let mut st = SearchState::new();
    let cases = [
        (c(0, 0), c(3, 0), 3),
        (c(0, 0), c(5, 7), 12),
        (c(9, 9), c(0, 0), 18),
        (c(2, 3), c(2, 3), 0),
        (c(4, 4), c(4, 5), 1),
    ];
    for (source, goal, dist) in cases {
        let path = find_path(&g, &mut st, source, goal).unwrap();
        assert_eq!(path.len(), dist);
    }
}

#[test]
fn enclosed_goal_reports_no_path() {
    // the only two in-bounds neighbours of (1,1) are walled off
    let mut g = Grid::new(2, 2);
    g.set_obstructed(c(1, 0));
    g.set_obstructed(c(0, 1));
    let mut st = SearchState::new();
    let r = find_path(&g, &mut st, c(0, 0), c(1, 1));
    assert_eq!(r, Err(PathError::NoPathFound));
}

#[test]
fn walled_goal_exhausts_frontier() {
    let mut g = Grid::new(2, 1);
    g.set_obstructed(c(1, 0));
    let mut st = SearchState::new();
    let r = find_path(&g, &mut st, c(0, 0), c(1, 0));
    assert_eq!(r, Err(PathError::NoPathFound));
}

#[test]
fn search_routes_around_walls() {
    // a wall across x=2 except at y=4 forces a detour through (2,4)
    let mut g = Grid::new(6, 6);
    for y in 0..6 {
        if y != 4 {
            g.set_obstructed(c(2, y));
        }
    }
    let mut st = SearchState::new();
    let path = find_path(&g, &mut st, c(0, 0), c(4, 0)).unwrap();
    assert!(path.contains(&c(2, 4)));
    // goal first, and the walk never enters a wall
    assert_eq!(path[0], c(4, 0));
    for w in &path {
        assert!(g.is_walkable(*w));
    }
    // detour: 4 across plus 8 vertical
    assert_eq!(path.len(), 12);
}

#[test]
fn repeated_searches_give_identical_paths() {
    let mut g = Grid::new(8, 8);
    g.set_obstructed(c(3, 3));
    g.set_obstructed(c(4, 3));
    let mut st1 = SearchState::new();
    let mut st2 = SearchState::new();
    let r1 = find_path(&g, &mut st1, c(1, 1), c(6, 5));
    let r2 = find_path(&g, &mut st2, c(1, 1), c(6, 5));
    assert_eq!(r1, r2);
    // and again on the same state
    let r3 = find_path(&g, &mut st1, c(1, 1), c(6, 5));
    assert_eq!(r1, r3);
}

#[test]
fn reset_is_idempotent() {
    let g = Grid::new(5, 5);
    let mut st = SearchState::new();
    // dirty the state with a full search first
    let _ = find_path(&g, &mut st, c(0, 0), c(4, 4));
    st.reset(c(2, 2));
    st.reset(c(2, 2));
    assert_eq!(st.frontier_len(), 1);
    assert_eq!(st.frontier_entry(0), (c(2, 2), 0));
    assert_eq!(st.cost_len(), 1);
    assert_eq!(st.cost_of(c(2, 2)), Some(0));
    assert_eq!(st.came_len(), 1);
    assert_eq!(st.predecessor(c(2, 2)), Some(None));
    assert_eq!(st.cost_of(c(0, 0)), None);
}

#[test]
fn search_state_tables_after_success() {
    let g = Grid::new(4, 1);
    let mut st = SearchState::new();
    let _ = find_path(&g, &mut st, c(0, 0), c(3, 0)).unwrap();
    // the seed survives the run
    assert_eq!(st.cost_of(c(0, 0)), Some(0));
    assert_eq!(st.predecessor(c(0, 0)), Some(None));
    // costs along the line are the step counts
    assert_eq!(st.cost_of(c(1, 0)), Some(1));
    assert_eq!(st.cost_of(c(2, 0)), Some(2));
    assert_eq!(st.cost_of(c(3, 0)), Some(3));
    // the goal's predecessor chain walks back to the source
    assert_eq!(st.predecessor(c(3, 0)), Some(Some(c(2, 0))));
    assert_eq!(st.predecessor(c(2, 0)), Some(Some(c(1, 0))));
    assert_eq!(st.predecessor(c(1, 0)), Some(Some(c(0, 0))));
    // a found search clears its frontier
    assert_eq!(st.frontier_len(), 0);
}

#[test]
fn extract_walks_backward_to_source() {
    let mut came: CoordMap<Option<Coord>> = CoordMap::new();
    came.insert(c(0, 0), None);
    came.insert(c(1, 0), Some(c(0, 0)));
    came.insert(c(1, 1), Some(c(1, 0)));
    let path = extract_path(&came, c(0, 0), c(1, 1)).unwrap();
    assert_eq!(path, vec![c(1, 1), c(1, 0)]);
}

#[test]
fn extract_fails_on_missing_predecessor() {
    let mut came: CoordMap<Option<Coord>> = CoordMap::new();
    came.insert(c(0, 0), None);
    // (2,2) was never reached
    let r = extract_path(&came, c(0, 0), c(2, 2));
    assert_eq!(r, Err(PathError::NoPathFound));
}

#[test]
fn extract_fails_on_rootless_entry() {
    let mut came: CoordMap<Option<Coord>> = CoordMap::new();
    came.insert(c(5, 5), None);
    // the walk from (6,5) meets a rootless cell that is not the source
    came.insert(c(6, 5), Some(c(5, 5)));
    let r = extract_path(&came, c(0, 0), c(6, 5));
    assert_eq!(r, Err(PathError::NoPathFound));
}

#[test]
fn extract_fails_on_cycle() {
    let mut came: CoordMap<Option<Coord>> = CoordMap::new();
    came.insert(c(1, 0), Some(c(2, 0)));
    came.insert(c(2, 0), Some(c(1, 0)));
    let r = extract_path(&came, c(0, 0), c(1, 0));
    assert_eq!(r, Err(PathError::NoPathFound));
}

#[test]
fn ties_break_by_insertion_order() {
    // many equal-priority frontier entries: the documented rule (oldest
    // queued pops first) fixes one diagonal staircase among all optimal paths
    let g = Grid::new(5, 5);
    let mut st = SearchState::new();
    let path = find_path(&g, &mut st, c(0, 0), c(2, 2)).unwrap();
    assert_eq!(path, vec![c(2, 2), c(1, 2), c(0, 2), c(0, 1)]);
}

#[test]
fn source_equal_goal_gives_empty_path() {
    let g = Grid::new(3, 3);
    let mut st = SearchState::new();
    let path = find_path(&g, &mut st, c(1, 1), c(1, 1)).unwrap();
    assert!(path.is_empty());
}

#[test]
fn goal_outside_grid_reports_no_path() {
    let g = Grid::new(3, 3);
    let mut st = SearchState::new();
    let r = find_path(&g, &mut st, c(0, 0), c(5, 5));
    assert_eq!(r, Err(PathError::NoPathFound));
}
