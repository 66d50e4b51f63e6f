use sokoban_rs::game::GameState;

#[test]
fn reads_entities_and_size() {
    let text = "3 7\n///////\n/0-1-2/\n///////\n";
    let state = GameState::from_text(text).expect("a box and a target");
    assert_eq!(state.map_size, (3, 7));
    assert_eq!(state.player_position, (1, 1));
    assert_eq!(state.box_positions, vec![(1, 3)]);
    assert_eq!(state.target_positions, vec![(1, 5)]);
    assert_eq!(state.walls.len(), 7 + 2 + 7);
    assert!(state.walls.contains(&(1, 0)) && state.walls.contains(&(1, 6)));
}

#[test]
fn first_line_gives_dimensions() {
    let text = "1 4\n-012\n";
    let state = GameState::from_text(text).expect("a box and a target");
    assert_eq!(state.map_size, (1, 4));
    assert_eq!(state.player_position, (0, 1));
    assert_eq!(state.box_positions, vec![(0, 2)]);
    assert_eq!(state.target_positions, vec![(0, 3)]);
}

#[test]
fn width_is_longest_row_and_last_line_may_lack_newline() {
    let text = "3 6\r\n12\r\n-----0\r\n--";
    let state = GameState::from_text(text).expect("a box and a target");
    assert_eq!(state.map_size, (3, 6));
    assert_eq!(state.box_positions, vec![(0, 0)]);
    assert_eq!(state.target_positions, vec![(0, 1)]);
    assert_eq!(state.player_position, (1, 5));
}

#[test]
fn several_boxes_and_targets_in_reading_order() {
    let text = "2 3\n1-2\n2-1\n";
    let state = GameState::from_text(text).expect("boxes and targets");
    assert_eq!(state.box_positions, vec![(0, 0), (1, 2)]);
    assert_eq!(state.target_positions, vec![(0, 2), (1, 0)]);
    assert_eq!(state.player_position, (0, 0));
}

#[test]
fn level_without_box_or_target_is_refused() {
    assert!(GameState::from_text("").is_none());
    assert!(GameState::from_text("1 3\n0-2\n").is_none());
    assert!(GameState::from_text("1 3\n0-1\n").is_none());
    assert!(GameState::from_text("12\n").is_none());
}

#[test]
fn columns_count_characters_width_counts_bytes() {
    // U+00E9 takes two bytes: the box after it is in column 1, and the row is
    // three bytes wide.
    let text = "2 3\n\u{e9}1\n2\n";
    let state = GameState::from_text(text).expect("a box and a target");
    assert_eq!(state.box_positions, vec![(0, 1)]);
    assert_eq!(state.target_positions, vec![(1, 0)]);
    assert_eq!(state.map_size, (2, 3));
}

#[test]
fn missing_or_malformed_dimension_line_is_refused() {
    for text in [
        "0120\n-012\n",
        "\n-012\n",
        "3\n-012\n",
        "3 x\n-012\n",
        " 3 4\n-012\n",
        "3 4 \n-012\n",
        "3  4\n-012\n",
        "-012",
    ] {
        assert!(GameState::from_text(text).is_none(), "{:?} should be refused", text);
    }
    assert!(GameState::from_text("10 20\r\n-012\n").is_some());
}

#[test]
fn one_row_level_read_whole() {
    let state = GameState::from_text("1 3\n012").expect("a box and a target");
    assert_eq!(state.player_position, (0, 0));
    assert_eq!(state.box_positions, vec![(0, 1)]);
    assert_eq!(state.target_positions, vec![(0, 2)]);
    assert!(state.walls.is_empty());
    assert_eq!(state.map_size, (1, 3));
    assert_eq!(state.dead_pos, vec![(0, 0)]);
    assert_eq!(state.route, vec![(0, 1), (0, 2)]);
}
