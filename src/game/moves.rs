//! Move resolution: one step of the player, pushing at most one box.
use vstd::prelude::*;

use super::{GameState, GameStateView};
use crate::grid::{cell, contains_cell, first_at, in_bounds, position_of, Cell};

verus! {

/// `(dr, dc)` is one step up, down, left or right.
pub open spec fn unit_step(dr: int, dc: int) -> bool {
    (dr == 0 && (dc == 1 || dc == -1)) || (dc == 0 && (dr == 1 || dr == -1))
}

/// The cell the player steps onto when moving by `(dr, dc)`.
pub open spec fn step_cell(v: GameStateView, dr: int, dc: int) -> Cell {
    cell(v.player.0 + dr, v.player.1 + dc)
}

/// The cell a box on the player's next cell is pushed onto.
pub open spec fn push_cell(v: GameStateView, dr: int, dc: int) -> Cell {
    cell(v.player.0 + 2 * dr, v.player.1 + 2 * dc)
}

/// The move by `(dr, dc)` is accepted: the next cell is inside the grid
/// and not a wall, and where a box stands on it, the cell beyond is inside
/// the grid, not a wall and free of boxes.
pub open spec fn move_allowed(v: GameStateView, dr: int, dc: int) -> bool {
    let p = step_cell(v, dr, dc);
    let q = push_cell(v, dr, dc);
    &&& in_bounds(v.map_size, v.player.0 + dr, v.player.1 + dc)
    &&& !v.walls.contains(p)
    &&& v.boxes.contains(p) ==> {
        &&& in_bounds(v.map_size, v.player.0 + 2 * dr, v.player.1 + 2 * dc)
        &&& !v.walls.contains(q)
        &&& !v.boxes.contains(q)
    }
}

/// `n` is the state after the accepted move by `(dr, dc)` from `v`.
pub open spec fn moved_to(v: GameStateView, dr: int, dc: int, n: GameStateView) -> bool {
    let p = step_cell(v, dr, dc);
    let q = push_cell(v, dr, dc);
    &&& n.player == p
    &&& n.targets == v.targets
    &&& n.walls == v.walls
    &&& n.map_size == v.map_size
    &&& n.dead == v.dead
    &&& v.boxes.contains(p) ==> {
        &&& exists|i: int| first_at(v.boxes, p, i) && n.boxes == v.boxes.update(i, q)
        &&& n.route_fits()
    }
    &&& !v.boxes.contains(p) ==> n.boxes == v.boxes && n.route == v.route
}

impl GameState {
    /// The state after the player tries to step by `(dr, dc)`: `None` when
    /// the move is rejected. A pushed box moves one cell further in the
    /// same direction, and the route is planned again.
    pub fn resolve_move(&self, dr: i32, dc: i32) -> (r: Option<GameState>)
        requires
            self@.wf(),
            unit_step(dr as int, dc as int),
        ensures
            r.is_some() == move_allowed(self@, dr as int, dc as int),
            match r {
                Some(n) => {
                    &&& moved_to(self@, dr as int, dc as int, n@)
                    &&& n@.wf()
                    &&& self@.boxes.no_duplicates() ==> n@.boxes.no_duplicates()
                    &&& self@.route_fits() ==> n@.route_fits()
                },
                None => true,
            },
    {
        let rows: i64 = self.map_size.0 as i64;
        let cols: i64 = self.map_size.1 as i64;
        let pr: i64 = self.player_position.0 as i64 + dr as i64;
        let pc: i64 = self.player_position.1 as i64 + dc as i64;
        if pr < 0 || pr >= rows || pc < 0 || pc >= cols {
            return None;
        }
        let p: Cell = (pr as i32, pc as i32);
        if contains_cell(&self.walls, p) {
            return None;
        }
        match position_of(&self.box_positions, p) {
            Some(i) => {
                let qr: i64 = pr + dr as i64;
                let qc: i64 = pc + dc as i64;
                if qr < 0 || qr >= rows || qc < 0 || qc >= cols {
                    return None;
                }
                let q: Cell = (qr as i32, qc as i32);
                if contains_cell(&self.walls, q) || contains_cell(&self.box_positions, q) {
                    return None;
                }
                let mut n = self.snapshot();
                n.box_positions.set(i, q);
                n.player_position = p;
                proof {
                    let old_boxes = self@.boxes;
                    assert(n@.boxes == old_boxes.update(i as int, q));
                    assert forall|a: int, b: int| 0 <= a < n@.boxes.len() && 0 <= b < n@.boxes.len() && a != b && old_boxes.no_duplicates()
                        implies n@.boxes[a] != n@.boxes[b] by {
                        if a == i {
                            assert(n@.boxes[b] == old_boxes[b]);
                        } else if b == i {
                            assert(n@.boxes[a] == old_boxes[a]);
                        }
                    }
                    assert forall|k: int| 0 <= k < n@.boxes.len() implies crate::grid::cell_in_bounds(n@.map_size, #[trigger] n@.boxes[k]) by {
                        if k != i {
                            assert(n@.boxes[k] == old_boxes[k]);
                        }
                    }
                }
                let route = n.find_route_to_target(n.box_positions[0], n.target_positions[0]);
                n.route = route;
                Some(n)
            },
            None => {
                let mut n = self.snapshot();
                n.player_position = p;
                Some(n)
            },
        }
    }
}

} // verus!
