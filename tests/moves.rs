use sokoban_rs::game::GameState;

fn level(boxes: Vec<(i32, i32)>, walls: Vec<(i32, i32)>) -> GameState {
    GameState::from_parts((2, 2), boxes, vec![(4, 4), (0, 4)], walls, (5, 5))
}

#[test]
fn push_box_right_into_open_cell() {
    let state = level(vec![(2, 3)], Vec::new());
    let next = state.resolve_move(0, 1).expect("the push is open");
    assert_eq!(next.box_positions, vec![(2, 4)]);
    assert_eq!(next.player_position, (2, 3));
}

#[test]
fn push_box_right_into_wall_is_rejected() {
    let state = level(vec![(2, 3)], vec![(2, 4)]);
    assert!(state.resolve_move(0, 1).is_none());
    assert_eq!(state.player_position, (2, 2));
}

#[test]
fn push_box_into_box_is_rejected() {
    let state = level(vec![(2, 3), (2, 4)], Vec::new());
    assert!(state.resolve_move(0, 1).is_none());
}

#[test]
fn push_box_off_grid_is_rejected() {
    let state = level(vec![(1, 2)], Vec::new());
    let up = state.resolve_move(-1, 0).expect("the push is open");
    assert_eq!(up.box_positions, vec![(0, 2)]);
    assert!(up.resolve_move(-1, 0).is_none());
}

#[test]
fn plain_moves_and_walls() {
    let state = level(vec![(4, 0)], vec![(2, 1)]);
    assert!(state.resolve_move(0, -1).is_none());
    let down = state.resolve_move(1, 0).expect("open cell");
    assert_eq!(down.player_position, (3, 2));
    assert_eq!(down.box_positions, state.box_positions);
    assert_eq!(down.route, state.route);
    let corner = GameState::from_parts((0, 0), vec![(4, 0)], vec![(4, 4)], Vec::new(), (5, 5));
    assert!(corner.resolve_move(-1, 0).is_none());
    assert!(corner.resolve_move(0, -1).is_none());
}

#[test]
fn push_moves_only_the_box_in_front() {
    let state = level(vec![(0, 0), (3, 2), (4, 4)], Vec::new());
    let next = state.resolve_move(1, 0).expect("the push is open");
    assert_eq!(next.box_positions, vec![(0, 0), (4, 2), (4, 4)]);
    assert_eq!(next.player_position, (3, 2));
    let mut sorted = next.box_positions.clone();
    sorted.sort();
    sorted.dedup();
    assert_eq!(sorted.len(), next.box_positions.len());
}

#[test]
fn push_replans_route_of_first_box() {
    let state = GameState::from_parts((1, 0), vec![(1, 1)], vec![(1, 4)], Vec::new(), (3, 6));
    assert_eq!(state.route, vec![(1, 1), (1, 2), (1, 3), (1, 4)]);
    let next = state.resolve_move(0, 1).expect("the push is open");
    assert_eq!(next.box_positions, vec![(1, 2)]);
    assert_eq!(next.route, vec![(1, 2), (1, 3), (1, 4)]);
}
