use gridpath::agent::{cell_pos, step_agent, AgentPos};
use gridpath::coord::Coord;
use gridpath::grid::Grid;
use gridpath::navigator::Navigator;

fn c(x: i32, y: i32) -> Coord {
    Coord { x, y }
}

#[test]
fn goal_change_is_edge_triggered() {
    let g = Grid::new(5, 5);
    let mut nav = Navigator::new();
    assert!(nav.observe_goal(&g, c(0, 0), c(3, 0)));
    let len = nav.path_len();
    assert_eq!(len, 3);
    // same goal again: no search, path untouched
    assert!(!nav.observe_goal(&g, c(0, 0), c(3, 0)));
    assert_eq!(nav.path_len(), len);
}

#[test]
fn goal_change_drops_stale_path() {
    // a path to (3,0) exists; (1,1) is walled off, so re-triggering toward
    // it must leave no waypoint of the old path behind
    let mut g = Grid::new(5, 5);
    g.set_obstructed(c(1, 0));
    g.set_obstructed(c(0, 1));
    g.set_obstructed(c(2, 1));
    g.set_obstructed(c(1, 2));
    let mut nav = Navigator::new();
    assert!(nav.observe_goal(&g, c(3, 3), c(0, 3)));
    assert!(nav.path_len() > 0);
    assert!(nav.observe_goal(&g, c(3, 3), c(1, 1)));
    assert_eq!(nav.path_len(), 0);
    assert_eq!(nav.next_waypoint(), None);
}

#[test]
fn path_contains_reports_waypoints() {
    let g = Grid::new(5, 5);
    let mut nav = Navigator::new();
    nav.observe_goal(&g, c(0, 0), c(3, 0));
    assert!(nav.path_contains(c(1, 0)));
    assert!(nav.path_contains(c(3, 0)));
    assert!(!nav.path_contains(c(0, 0)));
    assert!(!nav.path_contains(c(2, 2)));
}

#[test]
fn waypoints_are_goal_first() {
    let g = Grid::new(5, 5);
    let mut nav = Navigator::new();
    nav.observe_goal(&g, c(0, 0), c(2, 0));
    assert_eq!(nav.waypoint(0), c(2, 0));
    assert_eq!(nav.waypoint(1), c(1, 0));
    assert_eq!(nav.next_waypoint(), Some(c(1, 0)));
}

#[test]
fn stepper_advances_half_a_cell_per_tick() {
    // path = [(1,0)], agent at the origin, speed 0.5 cells per tick:
    // two ticks to stand on the waypoint, one more to pop it
    let g = Grid::new(2, 1);
    let mut nav = Navigator::new();
    nav.observe_goal(&g, c(0, 0), c(1, 0));
    assert_eq!(nav.path_len(), 1);
    let mut pos = AgentPos { x: 0, y: 0 };
    nav.step_agent(&mut pos, 500, 50);
    assert_eq!(pos, AgentPos { x: 500, y: 0 });
    assert_eq!(nav.path_len(), 1);
    nav.step_agent(&mut pos, 500, 50);
    assert_eq!(pos, AgentPos { x: 1000, y: 0 });
    assert_eq!(nav.path_len(), 1);
    // within epsilon now: this tick consumes the waypoint
    nav.step_agent(&mut pos, 500, 50);
    assert_eq!(pos, AgentPos { x: 1000, y: 0 });
    assert_eq!(nav.path_len(), 0);
    // idle afterwards
    nav.step_agent(&mut pos, 500, 50);
    assert_eq!(pos, AgentPos { x: 1000, y: 0 });
}

#[test]
fn stepper_pops_within_epsilon_without_moving() {
    let mut path = vec![c(2, 0)];
    let mut pos = AgentPos { x: 1960, y: 0 };
    step_agent(&mut path, &mut pos, 500, 50);
    assert_eq!(pos, AgentPos { x: 1960, y: 0 });
    assert!(path.is_empty());
}

#[test]
fn stepper_moves_along_x_then_y() {
    let mut path = vec![c(1, 1)];
    let mut pos = AgentPos { x: 0, y: 0 };
    step_agent(&mut path, &mut pos, 600, 50);
    assert_eq!(pos, AgentPos { x: 600, y: 0 });
    step_agent(&mut path, &mut pos, 600, 50);
    assert_eq!(pos, AgentPos { x: 1000, y: 200 });
    step_agent(&mut path, &mut pos, 600, 50);
    assert_eq!(pos, AgentPos { x: 1000, y: 800 });
    step_agent(&mut path, &mut pos, 600, 50);
    assert_eq!(pos, AgentPos { x: 1000, y: 1000 });
    assert_eq!(path.len(), 1);
    step_agent(&mut path, &mut pos, 600, 50);
    assert!(path.is_empty());
}

#[test]
fn cell_pos_scales_by_a_thousand() {
    assert_eq!(cell_pos(c(3, -2)), AgentPos { x: 3000, y: -2000 });
    assert_eq!(cell_pos(c(0, 0)), AgentPos { x: 0, y: 0 });
}

#[test]
fn full_walk_consumes_the_whole_path() {
    let g = Grid::new(4, 1);
    let mut nav = Navigator::new();
    nav.observe_goal(&g, c(0, 0), c(3, 0));
    assert_eq!(nav.path_len(), 3);
    let mut pos = AgentPos { x: 0, y: 0 };
    // one cell per tick plus a popping tick per waypoint
    for _ in 0..10 {
        nav.step_agent(&mut pos, 1000, 50);
    }
    assert_eq!(nav.path_len(), 0);
    assert_eq!(pos, AgentPos { x: 3000, y: 0 });
}
