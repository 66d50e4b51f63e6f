//! A box-pushing puzzle engine: level model, deadlock analysis, route
//! planning, move resolution and an undo/redo history.
pub mod game;
pub mod grid;
pub mod input;
pub mod rendering;
