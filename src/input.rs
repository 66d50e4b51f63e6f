//! The discrete intents that an input source hands to the game.
use vstd::prelude::*;

verus! {

/// One intent read from the player.
#[derive(Debug, Clone, Copy, PartialEq, Eq, Structural)]
pub enum InputEvent {
    MoveUp,
    MoveDown,
    MoveLeft,
    MoveRight,
    Undo,
    Redo,
    Restart,
    Quit,
}

/// A key as a front end reports it.
#[derive(Debug, Clone, Copy, PartialEq, Eq, Structural)]
pub enum Key {
    Up,
    Down,
    Left,
    Right,
    Esc,
    Char(char),
    Other,
}

/// The intent bound to a key: arrows or `w`/`s`/`a`/`d` move, Esc or `q`
/// quits, `z` undoes, `x` redoes, `r` restarts.
pub open spec fn event_of_key(key: Key) -> Option<InputEvent> {
    match key {
        Key::Up | Key::Char('w') => Some(InputEvent::MoveUp),
        Key::Down | Key::Char('s') => Some(InputEvent::MoveDown),
        Key::Left | Key::Char('a') => Some(InputEvent::MoveLeft),
        Key::Right | Key::Char('d') => Some(InputEvent::MoveRight),
        Key::Esc | Key::Char('q') => Some(InputEvent::Quit),
        Key::Char('z') => Some(InputEvent::Undo),
        Key::Char('x') => Some(InputEvent::Redo),
        Key::Char('r') => Some(InputEvent::Restart),
        _ => None,
    }
}

/// The intent bound to `key`, if any.
pub fn event_for_key(key: Key) -> (r: Option<InputEvent>)
    ensures
        r == event_of_key(key),
{
    match key {
        Key::Up | Key::Char('w') => Some(InputEvent::MoveUp),
        Key::Down | Key::Char('s') => Some(InputEvent::MoveDown),
        Key::Left | Key::Char('a') => Some(InputEvent::MoveLeft),
        Key::Right | Key::Char('d') => Some(InputEvent::MoveRight),
        Key::Esc | Key::Char('q') => Some(InputEvent::Quit),
        Key::Char('z') => Some(InputEvent::Undo),
        Key::Char('x') => Some(InputEvent::Redo),
        Key::Char('r') => Some(InputEvent::Restart),
        _ => None,
    }
}

} // verus!
