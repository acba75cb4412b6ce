use astar_grid::{
    default_goal, default_start, grid_cells, speed_label, AStarStatus, Coordinate, SearchState,
    TOTAL_X, TOTAL_Y,
};

fn cells(v: &[Coordinate]) -> Vec<(i32, i32)> {
    v.iter().map(|c| (c.x, c.y)).collect()
}

#[test]
fn default_coordinate_is_zero() {
    let c = Coordinate::default();
    assert_eq!((c.x, c.y, c.cost, c.score), (0, 0, 0, 0));
}

#[test]
fn default_endpoints() {
    let s = default_start();
    let g = default_goal();
    assert_eq!((s.x, s.y, s.cost, s.score), (0, 0, 0, 0));
    assert_eq!((g.x, g.y, g.cost, g.score), (30, 4, 0, 0));
}

#[test]
fn grid_cells_column_by_column() {
    let g = grid_cells();
    assert_eq!(g.len(), 1000);
    assert_eq!((g[0].x, g[0].y), (0, 0));
    assert_eq!((g[1].x, g[1].y), (0, 1));
    assert_eq!((g[20].x, g[20].y), (1, 0));
    assert_eq!((g[3 * 20 + 7].x, g[3 * 20 + 7].y), (3, 7));
    assert_eq!((g[999].x, g[999].y), (49, 19));
}

#[test]
fn default_state_is_empty() {
    let s = SearchState::default();
    assert!(s.frontier.is_empty() && s.expanded.is_empty() && !s.sped_up);
    assert_eq!((s.start.x, s.start.y, s.end.x, s.end.y), (0, 0, 0, 0));
}

#[test]
fn seed_puts_start_into_frontier() {
    let mut s = SearchState::new(default_start(), default_goal());
    s.seed();
    assert_eq!(cells(&s.frontier), vec![(0, 0)]);
    assert!(s.expanded.is_empty());
}

#[test]
fn toggle_speed_and_label() {
    let mut s = SearchState::default();
    assert!(s.toggle_speed());
    assert_eq!(speed_label(s.sped_up), "<w> Slow down\n");
    assert!(!s.toggle_speed());
    assert_eq!(speed_label(s.sped_up), "<w> Speed up\n");
}

#[test]
fn step_commits_only_pending() {
    let mut s = SearchState::new(Coordinate { x: 3, y: 3, ..Default::default() }, Coordinate { x: 4, y: 4, ..Default::default() });
    assert_eq!(s.step(), AStarStatus::Failed);
    assert!(s.frontier.is_empty() && s.expanded.is_empty());
    s.seed();
    assert!(s.step_in_range());
    assert_eq!(s.step(), AStarStatus::Pending);
    assert_eq!(cells(&s.expanded), vec![(3, 3)]);
    assert_eq!(s.frontier.len(), 8);
    // (4, 4) has the lowest score (1 + 0) and is last among the new nodes.
    assert!(s.step_in_range());
    assert_eq!(s.step(), AStarStatus::Found);
    // Found is not committed: the state is as it was.
    assert_eq!(cells(&s.expanded), vec![(3, 3)]);
    assert_eq!(s.frontier.len(), 8);
    assert_eq!(s.step(), AStarStatus::Found);
}

#[test]
fn search_from_default_start_reaches_default_goal() {
    let mut s = SearchState::new(default_start(), default_goal());
    s.seed();
    let mut steps = 0;
    loop {
        assert!(s.step_in_range());
        let status = s.step();
        steps += 1;
        if status != AStarStatus::Pending {
            assert_eq!(status, AStarStatus::Found);
            break;
        }
        assert!(steps < 1000);
    }
    assert!(steps > 1);
}

#[test]
fn step_in_range_rejects_off_grid_nodes() {
    let mut s = SearchState::new(default_start(), Coordinate { x: 60, y: 0, ..Default::default() });
    s.seed();
    assert!(!s.step_in_range());
    let mut s = SearchState::new(Coordinate { x: -1, y: 0, ..Default::default() }, default_goal());
    s.seed();
    assert!(!s.step_in_range());
    let mut s = SearchState::new(Coordinate { x: 1, y: 1, cost: i32::MAX, score: 0 }, default_goal());
    s.seed();
    assert!(!s.step_in_range());
}

#[test]
fn randomize_endpoints_stays_on_grid() {
    let mut s = SearchState::new(Coordinate { x: 70, y: 70, cost: 5, score: 5 }, Coordinate { x: 90, y: -3, ..Default::default() });
    s.seed();
    s.toggle_speed();
    let mut seen_other = false;
    for _ in 0..200 {
        s.randomize_endpoints();
        assert!(0 <= s.start.x && s.start.x < TOTAL_X && 0 <= s.start.y && s.start.y < TOTAL_Y);
        assert!(0 <= s.end.x && s.end.x < TOTAL_X && 0 <= s.end.y && s.end.y < TOTAL_Y);
        assert_eq!((s.start.cost, s.start.score, s.end.cost, s.end.score), (0, 0, 0, 0));
        assert_eq!(cells(&s.frontier), vec![(s.start.x, s.start.y)]);
        assert!(s.expanded.is_empty());
        assert!(s.sped_up);
        if s.start.x != 0 || s.end.x != 0 || s.start.y != 0 || s.end.y != 0 {
            seen_other = true;
        }
    }
    assert!(seen_other);
}
