use sokoban_rs::game::GameState;
use sokoban_rs::rendering::cell_symbol;

fn open_state(map_size: (i32, i32), walls: Vec<(i32, i32)>, dead_pos: Vec<(i32, i32)>) -> GameState {
    GameState {
        player_position: (0, 0),
        box_positions: vec![(1, 1)],
        target_positions: vec![(0, 2)],
        walls,
        map_size,
        dead_pos,
        route: Vec::new(),
    }
}

#[test]
fn solved_regardless_of_order() {
    let state = GameState {
        player_position: (0, 0),
        box_positions: vec![(1, 1), (2, 2)],
        target_positions: vec![(2, 2), (1, 1)],
        walls: Vec::new(),
        map_size: (4, 4),
        dead_pos: Vec::new(),
        route: Vec::new(),
    };
    assert!(state.is_solved());
}

#[test]
fn not_solved_when_a_box_is_off_target() {
    let state = GameState {
        player_position: (0, 0),
        box_positions: vec![(1, 1), (2, 2)],
        target_positions: vec![(1, 1), (3, 3)],
        walls: Vec::new(),
        map_size: (4, 4),
        dead_pos: Vec::new(),
        route: Vec::new(),
    };
    assert!(!state.is_solved());
}

#[test]
fn deadlock_scenario_five_by_five() {
    let state = GameState::from_parts((2, 2), vec![(1, 1)], vec![(4, 4)], vec![(0, 0)], (5, 5));
    assert!(state.dead_pos.contains(&(0, 0)));
    assert!(!state.dead_pos.contains(&(4, 4)));
    for live in [(4, 1), (4, 2), (4, 3), (1, 4), (2, 4), (3, 4)] {
        assert!(!state.dead_pos.contains(&live), "{:?} should be live", live);
    }
    for dead in [(4, 0), (0, 4)] {
        assert!(state.dead_pos.contains(&dead), "{:?} should be dead", dead);
    }
}

#[test]
fn walls_are_dead_and_targets_are_not() {
    let walls = vec![(0, 0), (1, 3), (3, 1)];
    let targets = vec![(2, 2), (4, 4)];
    let state = GameState::from_parts((2, 0), vec![(3, 3)], targets.clone(), walls.clone(), (5, 5));
    for w in &walls {
        assert!(state.dead_pos.contains(w));
    }
    for t in &targets {
        assert!(!state.dead_pos.contains(t));
    }
}

#[test]
fn deadlock_cells_listed_once_each() {
    let state = GameState::from_parts((1, 1), vec![(1, 2)], vec![(1, 3)], vec![(0, 0)], (3, 5));
    let mut seen = state.dead_pos.clone();
    seen.sort();
    seen.dedup();
    assert_eq!(seen.len(), state.dead_pos.len());
    // Only (1, 1), (1, 2) and (1, 3) can carry a box to the target.
    assert_eq!(state.dead_pos.len(), 15 - 3);
}

#[test]
fn box_on_deadlock_cell_is_reported() {
    let state = GameState::from_parts((2, 2), vec![(0, 4)], vec![(4, 4)], vec![(0, 0)], (5, 5));
    assert!(state.is_deadlock());
    let state = GameState::from_parts((2, 2), vec![(4, 2)], vec![(4, 4)], vec![(0, 0)], (5, 5));
    assert!(!state.is_deadlock());
}

#[test]
fn route_from_corner_is_empty() {
    // No push can move a box out of a corner: the player's cell would lie
    // outside the grid.
    let state = open_state((3, 3), Vec::new(), Vec::new());
    assert!(state.find_route_to_target((0, 0), (0, 2)).is_empty());
}

#[test]
fn route_in_open_row() {
    let state = open_state((3, 5), Vec::new(), Vec::new());
    let route = state.find_route_to_target((1, 1), (1, 3));
    assert_eq!(route, vec![(1, 1), (1, 2), (1, 3)]);
    for pair in route.windows(2) {
        let dr = (pair[1].0 - pair[0].0).abs();
        let dc = (pair[1].1 - pair[0].1).abs();
        assert_eq!(dr + dc, 1);
    }
}

#[test]
fn route_to_start_is_start() {
    let state = open_state((3, 3), Vec::new(), Vec::new());
    assert_eq!(state.find_route_to_target((1, 1), (1, 1)), vec![(1, 1)]);
}

#[test]
fn route_avoids_deadlock_cells_and_walls() {
    let state = open_state((3, 5), vec![(1, 0)], Vec::new());
    // The push to the right needs the player on the wall at (1, 0).
    assert!(state.find_route_to_target((1, 1), (1, 3)).is_empty());
    let state = open_state((3, 5), Vec::new(), vec![(1, 2)]);
    assert!(state.find_route_to_target((1, 1), (1, 3)).is_empty());
}

#[test]
fn route_backtracks_out_of_dead_end() {
    // From (2, 2) the search goes right first, to a dead end at (2, 3),
    // then steps back and goes down.
    let state = open_state((6, 5), vec![(2, 4)], Vec::new());
    let route = state.find_route_to_target((2, 2), (4, 2));
    assert_eq!(route.first(), Some(&(2, 2)));
    assert_eq!(route.last(), Some(&(4, 2)));
    for pair in route.windows(2) {
        let dr = (pair[1].0 - pair[0].0).abs();
        let dc = (pair[1].1 - pair[0].1).abs();
        assert_eq!(dr + dc, 1);
    }
}

#[test]
fn route_of_new_level_leads_first_box_to_first_target() {
    let state = GameState::from_parts((1, 0), vec![(1, 1)], vec![(1, 3)], Vec::new(), (3, 5));
    assert_eq!(state.route, vec![(1, 1), (1, 2), (1, 3)]);
}

#[test]
fn random_level_of_one_cell() {
    let state = GameState::random_generate(1, 1);
    assert_eq!(state.map_size, (1, 1));
    assert_eq!(state.player_position, (0, 0));
    assert_eq!(state.box_positions, vec![(0, 0), (0, 0)]);
    assert_eq!(state.target_positions, vec![(0, 0), (0, 0)]);
    assert_eq!(state.walls, vec![(0, 0), (0, 0)]);
}

#[test]
fn random_level_stays_inside() {
    for _ in 0..50 {
        let state = GameState::random_generate(4, 7);
        assert_eq!(state.map_size, (4, 7));
        let inside = |p: &(i32, i32)| 0 <= p.0 && p.0 < 4 && 0 <= p.1 && p.1 < 7;
        assert!(inside(&state.player_position));
        assert_eq!(state.box_positions.len(), 2);
        assert_eq!(state.target_positions.len(), 2);
        assert_eq!(state.walls.len(), 2);
        assert!(state.box_positions.iter().all(inside));
        assert!(state.target_positions.iter().all(inside));
        assert!(state.walls.iter().all(inside));
    }
}

#[test]
fn snapshot_is_field_for_field() {
    let state = GameState::from_parts((1, 0), vec![(1, 1)], vec![(1, 3)], vec![(0, 0)], (3, 5));
    let copy = state.snapshot();
    assert_eq!(copy.player_position, state.player_position);
    assert_eq!(copy.box_positions, state.box_positions);
    assert_eq!(copy.target_positions, state.target_positions);
    assert_eq!(copy.walls, state.walls);
    assert_eq!(copy.map_size, state.map_size);
    assert_eq!(copy.dead_pos, state.dead_pos);
    assert_eq!(copy.route, state.route);
}

#[test]
fn cell_symbols_follow_priority() {
    let state = GameState {
        player_position: (0, 0),
        box_positions: vec![(0, 1), (0, 2)],
        target_positions: vec![(0, 2), (0, 3)],
        walls: vec![(0, 4)],
        map_size: (1, 6),
        dead_pos: Vec::new(),
        route: Vec::new(),
    };
    let row: String = (0..6).map(|c| cell_symbol(&state, (0, c))).collect();
    assert_eq!(row, "P$*.# ");
}
