//! A smaller input vocabulary of movement and quitting, with the roles of
//! a source of such events and of a consumer of them.
use vstd::prelude::*;

use crate::input::Key;

verus! {

/// One movement or quit intent.
#[derive(Debug, Clone, Copy, PartialEq, Eq, Structural)]
pub enum InputEvent {
    MoveUp,
    MoveDown,
    MoveLeft,
    MoveRight,
    Quit,
}

/// The movement or quit bound to a key: arrows or `w`/`s`/`a`/`d` move,
/// Esc or `q` quits.
pub open spec fn move_event_of_key(key: Key) -> Option<InputEvent> {
    match key {
        Key::Up | Key::Char('w') => Some(InputEvent::MoveUp),
        Key::Down | Key::Char('s') => Some(InputEvent::MoveDown),
        Key::Left | Key::Char('a') => Some(InputEvent::MoveLeft),
        Key::Right | Key::Char('d') => Some(InputEvent::MoveRight),
        Key::Esc | Key::Char('q') => Some(InputEvent::Quit),
        _ => None,
    }
}

/// The movement or quit bound to `key`, if any.
pub fn move_event_for_key(key: Key) -> (r: Option<InputEvent>)
    ensures
        r == move_event_of_key(key),
{
    match key {
        Key::Up | Key::Char('w') => Some(InputEvent::MoveUp),
        Key::Down | Key::Char('s') => Some(InputEvent::MoveDown),
        Key::Left | Key::Char('a') => Some(InputEvent::MoveLeft),
        Key::Right | Key::Char('d') => Some(InputEvent::MoveRight),
        Key::Esc | Key::Char('q') => Some(InputEvent::Quit),
        _ => None,
    }
}

/// Something that acts on input events.
pub trait InputHandler {
    fn handle_input(&mut self, event: InputEvent);
}

/// A source of input events, polled one at a time; `None` when nothing
/// arrived.
pub trait InputProvider: Default {
    fn get_input(&self) -> Option<InputEvent>;
}

} // verus!
