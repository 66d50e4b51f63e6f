//! The puzzle state and the game that drives it.
use vstd::prelude::*;

pub mod deadlock;
pub mod route;
pub mod moves;
pub mod history;
pub mod input;
pub mod level;

pub use history::Game;

use crate::grid::{cell_in_bounds, contains_cell, copy_cells, grid_fits, Cell};
use deadlock::is_dead;
use route::{is_route, reachable};

verus! {

/// One puzzle instance: geometry, entities and the two derived fields
/// (`dead_pos`, `route`).
#[derive(Debug)]
pub struct GameState {
    pub player_position: Cell,
    pub box_positions: Vec<Cell>,
    pub target_positions: Vec<Cell>,
    pub walls: Vec<Cell>,
    pub map_size: Cell,
    pub dead_pos: Vec<Cell>,
    pub route: Vec<Cell>,
}

/// The mathematical value of a [`GameState`].
pub struct GameStateView {
    pub player: Cell,
    pub boxes: Seq<Cell>,
    pub targets: Seq<Cell>,
    pub walls: Seq<Cell>,
    pub map_size: Cell,
    pub dead: Seq<Cell>,
    pub route: Seq<Cell>,
}

impl View for GameState {
    type V = GameStateView;

    open spec fn view(&self) -> GameStateView {
        GameStateView {
            player: self.player_position,
            boxes: self.box_positions@,
            targets: self.target_positions@,
            walls: self.walls@,
            map_size: self.map_size,
            dead: self.dead_pos@,
            route: self.route@,
        }
    }
}

/// Every box stands on some target.
pub open spec fn solved(boxes: Seq<Cell>, targets: Seq<Cell>) -> bool {
    forall|k: int| 0 <= k < boxes.len() ==> targets.contains(#[trigger] boxes[k])
}

/// Some box stands on a deadlock cell.
pub open spec fn some_box_dead(boxes: Seq<Cell>, dead: Seq<Cell>) -> bool {
    exists|k: int| 0 <= k < boxes.len() && dead.contains(#[trigger] boxes[k])
}

/// Every cell of `cells` lies inside a grid of size `size`.
pub open spec fn all_in_bounds(size: Cell, cells: Seq<Cell>) -> bool {
    forall|k: int| 0 <= k < cells.len() ==> cell_in_bounds(size, #[trigger] cells[k])
}

/// A level's shape: a grid of at least one cell, every entity inside it,
/// and at least one box and one target.
pub open spec fn layout_ok(size: Cell, player: Cell, boxes: Seq<Cell>, targets: Seq<Cell>, walls: Seq<Cell>) -> bool {
    &&& size.0 >= 1
    &&& size.1 >= 1
    &&& grid_fits(size)
    &&& cell_in_bounds(size, player)
    &&& all_in_bounds(size, boxes)
    &&& all_in_bounds(size, targets)
    &&& all_in_bounds(size, walls)
    &&& boxes.len() >= 1
    &&& targets.len() >= 1
}

impl GameStateView {
    pub open spec fn wf(self) -> bool {
        layout_ok(self.map_size, self.player, self.boxes, self.targets, self.walls)
    }

    /// `dead` holds exactly the deadlock cells of the level.
    pub open spec fn dead_fits(self) -> bool {
        forall|c: Cell| #[trigger] self.dead.contains(c) == is_dead(self.map_size, self.walls, self.targets, c)
    }

    /// `route` is what the route planner gives for the first box and the
    /// first target: a route between them, empty when there is none.
    pub open spec fn route_fits(self) -> bool {
        let s = self.boxes[0];
        let t = self.targets[0];
        &&& self.route.len() > 0 <==> reachable(self.map_size, self.walls, self.dead, s, t)
        &&& self.route.len() > 0 ==> is_route(self.map_size, self.walls, self.dead, self.route, s, t)
        &&& self.route.no_duplicates()
    }
}

impl GameState {
    /// A level from its entities and size, with its deadlock cells and the
    /// route of its first box to its first target worked out.
    pub fn from_parts(
        player_position: Cell,
        box_positions: Vec<Cell>,
        target_positions: Vec<Cell>,
        walls: Vec<Cell>,
        map_size: Cell,
    ) -> (r: GameState)
        requires
            layout_ok(map_size, player_position, box_positions@, target_positions@, walls@),
        ensures
            r@.player == player_position,
            r@.boxes == box_positions@,
            r@.targets == target_positions@,
            r@.walls == walls@,
            r@.map_size == map_size,
            r@.wf(),
            r@.dead_fits(),
            walls@.no_duplicates() ==> r@.dead.no_duplicates(),
            r@.route_fits(),
    {
        let mut state = GameState {
            player_position,
            box_positions,
            target_positions,
            walls,
            map_size,
            dead_pos: Vec::new(),
            route: Vec::new(),
        };
        state.generate_deadlock_positions();
        let ghost g = state@;
        let route = state.find_route_to_target(state.box_positions[0], state.target_positions[0]);
        state.route = route;
        assert(state.dead_pos@ == g.dead);
        state
    }

    /// A level of the given size whose player, two boxes, two targets and
    /// two walls stand on cells drawn at random.
    pub fn random_generate(rows: i32, cols: i32) -> (r: GameState)
        requires
            rows >= 1,
            cols >= 1,
            rows * cols <= usize::MAX,
        ensures
            r@.map_size == (rows, cols),
            r@.boxes.len() == 2,
            r@.targets.len() == 2,
            r@.walls.len() == 2,
            r@.wf(),
            r@.dead_fits(),
            r@.route_fits(),
    {
        let player_position = random_cell(rows, cols);
        let mut box_positions: Vec<Cell> = Vec::new();
        box_positions.push(random_cell(rows, cols));
        box_positions.push(random_cell(rows, cols));
        let mut target_positions: Vec<Cell> = Vec::new();
        target_positions.push(random_cell(rows, cols));
        target_positions.push(random_cell(rows, cols));
        let mut walls: Vec<Cell> = Vec::new();
        walls.push(random_cell(rows, cols));
        walls.push(random_cell(rows, cols));
        GameState::from_parts(player_position, box_positions, target_positions, walls, (rows, cols))
    }

    /// An independent copy of this state.
    pub fn snapshot(&self) -> (r: GameState)
        ensures
            r@ == self@,
    {
        GameState {
            player_position: self.player_position,
            box_positions: copy_cells(&self.box_positions),
            target_positions: copy_cells(&self.target_positions),
            walls: copy_cells(&self.walls),
            map_size: self.map_size,
            dead_pos: copy_cells(&self.dead_pos),
            route: copy_cells(&self.route),
        }
    }

    /// Whether some box stands on a deadlock cell.
    pub fn is_deadlock(&self) -> (r: bool)
        ensures
            r == some_box_dead(self.box_positions@, self.dead_pos@),
    {
        let mut i: usize = 0;
        while i < self.box_positions.len()
            invariant
                i <= self.box_positions.len(),
                forall|k: int| 0 <= k < i ==> !self.dead_pos@.contains(#[trigger] self.box_positions@[k]),
            decreases self.box_positions.len() - i,
        {
            if contains_cell(&self.dead_pos, self.box_positions[i]) {
                return true;
            }
            i += 1;
        }
        false
    }

    /// Whether every box stands on a target.
    pub fn is_solved(&self) -> (r: bool)
        ensures
            r == solved(self.box_positions@, self.target_positions@),
    {
        let mut i: usize = 0;
        while i < self.box_positions.len()
            invariant
                i <= self.box_positions.len(),
                forall|k: int| 0 <= k < i ==> self.target_positions@.contains(#[trigger] self.box_positions@[k]),
            decreases self.box_positions.len() - i,
        {
            if !contains_cell(&self.target_positions, self.box_positions[i]) {
                return false;
            }
            i += 1;
        }
        true
    }
}

/// Relies on rand::random_range: a value drawn from the half-open range
/// `0..n`, which is not empty.
#[verifier::external_body]
fn random_below(n: i32) -> (r: i32)
    requires
        n >= 1,
    ensures
        0 <= r < n,
{
    rand::random_range(0..n)
}

/// A cell drawn at random inside a grid of `rows` by `cols`.
fn random_cell(rows: i32, cols: i32) -> (r: Cell)
    requires
        rows >= 1,
        cols >= 1,
    ensures
        cell_in_bounds((rows, cols), r),
{
    let row = random_below(rows);
    let col = random_below(cols);
    (row, col)
}

impl Clone for GameState {
    fn clone(&self) -> (r: GameState)
        ensures
            r@ == self@,
    {
        self.snapshot()
    }
}

} // verus!
