//! The capability a front end offers to the game: draw a state, poll for
//! one intent.
use vstd::prelude::*;

use crate::game::{GameState, GameStateView};
use crate::grid::{contains_cell, Cell};
use crate::input::InputEvent;

verus! {

/// A renderer and input source. Implementations live with the terminal
/// or window they drive.
pub trait FrontEnd: Default {
    fn render(&mut self, state: &GameState);

    fn get_input(&self) -> Option<InputEvent>;
}

/// What the cell `pos` shows: `P` the player, `*` a box on a target, `$`
/// a box, `.` a target, `#` a wall, a space the floor; the first that
/// applies.
pub open spec fn symbol_of(v: GameStateView, pos: Cell) -> char {
    if pos == v.player {
        'P'
    } else if v.boxes.contains(pos) {
        if v.targets.contains(pos) {
            '*'
        } else {
            '$'
        }
    } else if v.targets.contains(pos) {
        '.'
    } else if v.walls.contains(pos) {
        '#'
    } else {
        ' '
    }
}

/// The symbol a front end draws for the cell `pos`.
pub fn cell_symbol(state: &GameState, pos: Cell) -> (r: char)
    ensures
        r == symbol_of(state@, pos),
{
    if pos.0 == state.player_position.0 && pos.1 == state.player_position.1 {
        'P'
    } else if contains_cell(&state.box_positions, pos) {
        if contains_cell(&state.target_positions, pos) {
            '*'
        } else {
            '$'
        }
    } else if contains_cell(&state.target_positions, pos) {
        '.'
    } else if contains_cell(&state.walls, pos) {
        '#'
    } else {
        ' '
    }
}

} // verus!
