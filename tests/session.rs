use sokoban_rs::game::{Game, GameState};
use sokoban_rs::input::InputEvent;
use sokoban_rs::rendering::FrontEnd;

#[derive(Default)]
struct Silent {
    frames: usize,
}

impl FrontEnd for Silent {
    fn render(&mut self, _state: &GameState) {
        self.frames += 1;
    }

    fn get_input(&self) -> Option<InputEvent> {
        None
    }
}

#[derive(Default)]
struct Quitter;

impl FrontEnd for Quitter {
    fn render(&mut self, _state: &GameState) {}

    fn get_input(&self) -> Option<InputEvent> {
        Some(InputEvent::Quit)
    }
}

fn start() -> GameState {
    GameState::from_parts((2, 1), vec![(2, 2)], vec![(2, 4)], Vec::new(), (5, 6))
}

fn same(a: &GameState, b: &GameState) -> bool {
    a.player_position == b.player_position
        && a.box_positions == b.box_positions
        && a.target_positions == b.target_positions
        && a.walls == b.walls
        && a.map_size == b.map_size
        && a.dead_pos == b.dead_pos
        && a.route == b.route
}

#[test]
fn undo_then_redo_restores_state() {
    let mut game = Game::<Silent>::new(start());
    assert!(game.handle_event(InputEvent::MoveRight));
    assert!(game.handle_event(InputEvent::MoveDown));
    let before = game.state.snapshot();
    game.undo();
    assert!(!same(&game.state, &before));
    game.redo();
    assert!(same(&game.state, &before));
}

#[test]
fn undo_returns_to_previous_state() {
    let initial = start();
    let mut game = Game::<Silent>::new(start());
    assert!(game.handle_event(InputEvent::MoveRight));
    assert_eq!(game.state.box_positions, vec![(2, 3)]);
    assert!(game.handle_event(InputEvent::Undo));
    assert!(same(&game.state, &initial));
}

#[test]
fn undo_and_redo_with_empty_stacks_do_nothing() {
    let initial = start();
    let mut game = Game::<Silent>::new(start());
    game.undo();
    assert!(same(&game.state, &initial));
    game.redo();
    assert!(same(&game.state, &initial));
    game.restart();
    assert!(same(&game.state, &initial));
}

#[test]
fn new_move_drops_redo_stack() {
    let mut game = Game::<Silent>::new(start());
    game.apply_move(0, 1);
    game.undo();
    game.apply_move(1, 0);
    let after = game.state.snapshot();
    game.redo();
    assert!(same(&game.state, &after));
}

#[test]
fn restart_after_moves_gives_initial_state() {
    let initial = start();
    let mut game = Game::<Silent>::new(start());
    for e in [InputEvent::MoveRight, InputEvent::MoveUp, InputEvent::MoveLeft, InputEvent::MoveDown] {
        assert!(game.handle_event(e));
    }
    assert!(!same(&game.state, &initial));
    assert!(game.handle_event(InputEvent::Restart));
    assert!(same(&game.state, &initial));
    // Both stacks are empty: neither undo nor redo changes anything.
    game.undo();
    assert!(same(&game.state, &initial));
    game.redo();
    assert!(same(&game.state, &initial));
}

#[test]
fn rejected_move_records_nothing() {
    let initial = start();
    let mut game = Game::<Silent>::new(start());
    // From (2, 1) the player walks up to the top row; the next step up
    // would leave the grid.
    for _ in 0..3 {
        game.apply_move(-1, 0);
    }
    assert_eq!(game.state.player_position, (0, 1));
    game.apply_move(-1, 0);
    assert_eq!(game.state.player_position, (0, 1));
    game.restart();
    assert!(same(&game.state, &initial));
}

#[test]
fn quit_stops_and_changes_nothing() {
    let initial = start();
    let mut game = Game::<Silent>::new(start());
    assert!(!game.handle_event(InputEvent::Quit));
    assert!(same(&game.state, &initial));
    let mut game = Game::<Quitter>::new(start());
    assert!(!game.step());
    assert!(same(&game.state, &initial));
}

#[test]
fn step_without_input_draws_and_goes_on() {
    let mut game = Game::<Silent>::new(start());
    assert!(game.step());
    assert!(game.step());
    assert_eq!(game.front_end.frames, 2);
}

#[test]
fn restart_after_undo_and_redo_gives_initial_state() {
    let initial = start();
    let mut game = Game::<Silent>::new(start());
    for e in [
        InputEvent::MoveRight,
        InputEvent::MoveUp,
        InputEvent::Undo,
        InputEvent::Undo,
        InputEvent::Redo,
        InputEvent::MoveDown,
        InputEvent::Undo,
        InputEvent::Redo,
    ] {
        assert!(game.handle_event(e));
    }
    assert!(!same(&game.state, &initial));
    assert!(game.handle_event(InputEvent::Restart));
    assert!(same(&game.state, &initial));
    assert!(game.handle_event(InputEvent::Undo));
    assert!(same(&game.state, &initial));
    assert!(game.handle_event(InputEvent::Redo));
    assert!(same(&game.state, &initial));
}
