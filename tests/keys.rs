use sokoban_rs::game::input::{move_event_for_key, InputEvent as MoveEvent};
use sokoban_rs::input::{event_for_key, InputEvent, Key};

#[test]
fn keys_bound_to_intents() {
    assert_eq!(event_for_key(Key::Up), Some(InputEvent::MoveUp));
    assert_eq!(event_for_key(Key::Char('s')), Some(InputEvent::MoveDown));
    assert_eq!(event_for_key(Key::Char('a')), Some(InputEvent::MoveLeft));
    assert_eq!(event_for_key(Key::Right), Some(InputEvent::MoveRight));
    assert_eq!(event_for_key(Key::Esc), Some(InputEvent::Quit));
    assert_eq!(event_for_key(Key::Char('q')), Some(InputEvent::Quit));
    assert_eq!(event_for_key(Key::Char('z')), Some(InputEvent::Undo));
    assert_eq!(event_for_key(Key::Char('x')), Some(InputEvent::Redo));
    assert_eq!(event_for_key(Key::Char('r')), Some(InputEvent::Restart));
    assert_eq!(event_for_key(Key::Char('k')), None);
    assert_eq!(event_for_key(Key::Other), None);
}

#[test]
fn movement_keys_only_move_or_quit() {
    assert_eq!(move_event_for_key(Key::Char('w')), Some(MoveEvent::MoveUp));
    assert_eq!(move_event_for_key(Key::Down), Some(MoveEvent::MoveDown));
    assert_eq!(move_event_for_key(Key::Left), Some(MoveEvent::MoveLeft));
    assert_eq!(move_event_for_key(Key::Char('d')), Some(MoveEvent::MoveRight));
    assert_eq!(move_event_for_key(Key::Char('q')), Some(MoveEvent::Quit));
    assert_eq!(move_event_for_key(Key::Char('z')), None);
}
