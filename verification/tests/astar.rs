use astar_grid::{
    astar_engine, get_manhattan_distance, get_neighbors, AStarPayload, AStarStatus, Coordinate,
    ALLOW_DIAGONAL,
};

fn at(x: i32, y: i32) -> Coordinate {
    Coordinate { x, y, ..Default::default() }
}

fn node(x: i32, y: i32, cost: i32, score: i32) -> Coordinate {
    Coordinate { x, y, cost, score }
}

fn cells(v: &[Coordinate]) -> Vec<(i32, i32)> {
    v.iter().map(|c| (c.x, c.y)).collect()
}

fn full(v: &[Coordinate]) -> Vec<(i32, i32, i32, i32)> {
    v.iter().map(|c| (c.x, c.y, c.cost, c.score)).collect()
}

#[test]
fn test_astar_engine() {
    let goal = Coordinate { x: 4, y: 4, ..Default::default() };
    let start = Coordinate { x: 4, y: 4, ..Default::default() };
    let mut payload = AStarPayload { expanded: vec![], frontier: vec![start], goal };

    let res = astar_engine(&mut payload);
    assert_eq!(res, AStarStatus::Found);

    let goal = Coordinate { x: 4, y: 4, ..Default::default() };
    let start = Coordinate { x: 0, y: 0, ..Default::default() };
    let mut payload = AStarPayload { expanded: vec![], frontier: vec![start], goal };

    if ALLOW_DIAGONAL {
        for epoch in 0..4 {
            astar_engine(&mut payload);
            if epoch == 3 {
                let res = astar_engine(&mut payload);
                assert_eq!(res, AStarStatus::Found);
            }
        }
    } else {
        for epoch in 0..8 {
            astar_engine(&mut payload);
            if epoch == 7 {
                let res = astar_engine(&mut payload);
                assert_eq!(res, AStarStatus::Found);
            }
        }
    }
}

#[test]
fn test_get_manhattan_distance() {
    let coordinate = Coordinate { x: 0, y: 0, ..Default::default() };
    let goal = Coordinate { x: 2, y: 2, ..Default::default() };
    let distance = get_manhattan_distance(&coordinate, goal);

    assert_eq!(distance, 4);
}

#[test]
fn test_get_neighbors() {
    let coordinate = Coordinate { x: 5, y: 5, ..Default::default() };

    let neighbors = get_neighbors(&coordinate);

    for (index, neighbor) in neighbors.iter().enumerate() {
        if index == 0 {
            assert_eq!(neighbor.x, 5);
            assert_eq!(neighbor.y, 4);
        }
        if index == 1 {
            assert_eq!(neighbor.x, 5);
            assert_eq!(neighbor.y, 6);
        }
        if index == 2 {
            assert_eq!(neighbor.x, 4);
            assert_eq!(neighbor.y, 5);
        }
        if index == 3 {
            assert_eq!(neighbor.x, 6);
            assert_eq!(neighbor.y, 5);
        }
    }
}

#[test]
fn manhattan_is_symmetric_and_zero_on_same_cell() {
    let a = at(3, 17);
    let b = at(-2, 5);
    assert_eq!(get_manhattan_distance(&a, b), 17);
    assert_eq!(get_manhattan_distance(&b, a), 17);
    assert_eq!(get_manhattan_distance(&a, a), 0);
    assert_eq!(get_manhattan_distance(&node(3, 17, 9, 9), a), 0);
}

#[test]
fn neighbors_of_an_inner_cell_in_order() {
    let n = get_neighbors(&node(5, 5, 7, 3));
    assert_eq!(
        cells(&n),
        vec![(5, 4), (5, 6), (4, 5), (6, 5), (4, 4), (6, 4), (4, 6), (6, 6)]
    );
    assert!(n.iter().all(|c| c.cost == 0 && c.score == 0));
}

#[test]
fn neighbors_skip_row_and_column_zero() {
    // A step to index 0 is left out, as is one past the grid.
    assert_eq!(cells(&get_neighbors(&at(0, 0))), vec![(0, 1), (1, 0), (1, 1)]);
    assert_eq!(cells(&get_neighbors(&at(1, 1))), vec![(1, 2), (2, 1), (2, 2)]);
    assert_eq!(cells(&get_neighbors(&at(49, 19))), vec![(49, 18), (48, 19), (48, 18)]);
    assert_eq!(
        cells(&get_neighbors(&at(2, 19))),
        vec![(2, 18), (1, 19), (3, 19), (1, 18), (3, 18)]
    );
}

#[test]
fn neighbors_of_a_cell_off_the_grid() {
    // Nothing bounds the coordinate that does not change.
    assert_eq!(cells(&get_neighbors(&at(100, 5))), vec![(100, 4), (100, 6), (99, 5), (99, 4), (99, 6)]);
}

#[test]
fn empty_frontier_fails_and_changes_nothing() {
    let mut payload = AStarPayload { goal: at(1, 1), frontier: vec![], expanded: vec![at(3, 3)] };
    assert_eq!(astar_engine(&mut payload), AStarStatus::Failed);
    assert!(payload.frontier.is_empty());
    assert_eq!(cells(&payload.expanded), vec![(3, 3)]);
    assert_eq!((payload.goal.x, payload.goal.y), (1, 1));
}

#[test]
fn lowest_score_expanded_last_of_equals_and_frontier_sorted() {
    // Goal far away; frontier has two nodes of the lowest score 3.
    let mut payload = AStarPayload {
        goal: at(40, 10),
        frontier: vec![node(10, 10, 0, 5), node(20, 10, 0, 3), node(30, 10, 0, 3), node(5, 5, 0, 7)],
        expanded: vec![],
    };
    let status = astar_engine(&mut payload);
    assert_eq!(status, AStarStatus::Pending);
    // (30, 10) comes after (20, 10) among the score-3 nodes, so it is expanded.
    assert_eq!(full(&payload.expanded), vec![(30, 10, 0, 3)]);
    // The rest of the frontier is sorted by descending score, ties kept in order,
    // followed by the 8 neighbours of (30, 10), each at cost 1.
    let f = full(&payload.frontier);
    assert_eq!(&f[..3], &[(5, 5, 0, 7), (10, 10, 0, 5), (20, 10, 0, 3)]);
    assert_eq!(
        &f[3..],
        &[
            (30, 9, 1, 1 + 11),
            (30, 11, 1, 1 + 11),
            (29, 10, 1, 1 + 11),
            (31, 10, 1, 1 + 9),
            (29, 9, 1, 1 + 12),
            (31, 9, 1, 1 + 10),
            (29, 11, 1, 1 + 12),
            (31, 11, 1, 1 + 10),
        ]
    );
}

#[test]
fn found_keeps_sorted_rest_and_adds_nothing() {
    let mut payload = AStarPayload {
        goal: at(2, 2),
        frontier: vec![node(2, 2, 4, 4), node(9, 9, 1, 20), node(3, 3, 2, 6)],
        expanded: vec![at(1, 1)],
    };
    assert_eq!(astar_engine(&mut payload), AStarStatus::Found);
    assert_eq!(full(&payload.frontier), vec![(9, 9, 1, 20), (3, 3, 2, 6)]);
    assert_eq!(full(&payload.expanded), vec![(1, 1, 0, 0), (2, 2, 4, 4)]);
}

#[test]
fn expanded_positions_are_not_rediscovered() {
    // (5, 4) and (6, 6) were expanded already; (5, 5) itself becomes expanded.
    let mut payload = AStarPayload {
        goal: at(7, 5),
        frontier: vec![node(5, 5, 2, 4)],
        expanded: vec![at(5, 4), node(6, 6, 9, 9)],
    };
    assert_eq!(astar_engine(&mut payload), AStarStatus::Pending);
    assert_eq!(cells(&payload.expanded), vec![(5, 4), (6, 6), (5, 5)]);
    assert_eq!(
        full(&payload.frontier),
        vec![
            (5, 6, 3, 3 + 3),
            (4, 5, 3, 3 + 3),
            (6, 5, 3, 3 + 1),
            (4, 4, 3, 3 + 4),
            (6, 4, 3, 3 + 2),
            (4, 6, 3, 3 + 4),
        ]
    );
}

#[test]
fn frontier_may_hold_a_position_twice() {
    // The engine checks new nodes against the expanded ones only.
    let mut payload = AStarPayload {
        goal: at(20, 10),
        frontier: vec![node(5, 4, 1, 50), node(5, 5, 0, 30)],
        expanded: vec![],
    };
    assert_eq!(astar_engine(&mut payload), AStarStatus::Pending);
    let f = cells(&payload.frontier);
    assert_eq!(f[0], (5, 4));
    assert!(f[1..].contains(&(5, 4)));
}
