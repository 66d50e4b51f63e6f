//! Route planning: a depth-first search for a sequence of single pushes
//! that brings a box from one cell to another while keeping it off
//! deadlock cells and walls.
use vstd::prelude::*;

use super::deadlock::adjacent;
use super::{GameState, GameStateView};
use crate::grid::{
    cell, cell_grid, cell_in_bounds, flags_match, grid_fits, grid_index, in_bounds, lemma_distinct_cells_fit, mark_cell, Cell,
};

verus! {

broadcast use vstd::seq_lib::lemma_seq_contains_after_push;

/// A box on `a` can be pushed onto its neighbour `b`: `b` is inside the
/// grid, neither a wall nor a deadlock cell, and the player's cell behind
/// `a` is inside the grid and not a wall.
pub open spec fn route_step(size: Cell, walls: Seq<Cell>, dead: Seq<Cell>, a: Cell, b: Cell) -> bool {
    let pr = 2 * a.0 - b.0;
    let pc = 2 * a.1 - b.1;
    &&& adjacent(a, b)
    &&& !dead.contains(b)
    &&& in_bounds(size, b.0 as int, b.1 as int)
    &&& in_bounds(size, pr, pc)
    &&& !walls.contains(b)
    &&& !walls.contains(cell(pr, pc))
}

/// `path` leads from `start` to `target` by single pushes.
pub open spec fn is_route(size: Cell, walls: Seq<Cell>, dead: Seq<Cell>, path: Seq<Cell>, start: Cell, target: Cell) -> bool {
    &&& path.len() >= 1
    &&& path[0] == start
    &&& path.last() == target
    &&& forall|k: int| 0 <= k < path.len() - 1 ==> #[trigger] route_step(size, walls, dead, path[k], path[k + 1])
}

/// Some route leads from `start` to `target`.
pub open spec fn reachable(size: Cell, walls: Seq<Cell>, dead: Seq<Cell>, start: Cell, target: Cell) -> bool {
    exists|path: Seq<Cell>| #[trigger] is_route(size, walls, dead, path, start, target)
}

/// Each cell of a route lies in a set that holds its start and is closed
/// under `route_step`.
proof fn lemma_route_in_closed(v: GameStateView, seen: Seq<Cell>, path: Seq<Cell>, start: Cell, target: Cell, k: int)
    requires
        is_route(v.map_size, v.walls, v.dead, path, start, target),
        0 <= k < path.len(),
        seen.contains(start),
        forall|a: Cell, b: Cell| seen.contains(a) && #[trigger] route_step(v.map_size, v.walls, v.dead, a, b) ==> seen.contains(b),
    ensures
        seen.contains(path[k]),
    decreases k,
{
    if k > 0 {
        lemma_route_in_closed(v, seen, path, start, target, k - 1);
        let j = k - 1;
        assert(route_step(v.map_size, v.walls, v.dead, path[j], path[j + 1]));
    }
}

/// A route begins at its start and ends at its target, and each of its
/// cells is one unit from the next along exactly one axis.
pub proof fn lemma_route_unit_steps(size: Cell, walls: Seq<Cell>, dead: Seq<Cell>, path: Seq<Cell>, start: Cell, target: Cell)
    requires
        is_route(size, walls, dead, path, start, target),
    ensures
        path[0] == start,
        path.last() == target,
        forall|k: int| 0 <= k < path.len() - 1 ==> #[trigger] adjacent(path[k], path[k + 1]),
{
    assert forall|k: int| 0 <= k < path.len() - 1 implies #[trigger] adjacent(path[k], path[k + 1]) by {
        assert(route_step(size, walls, dead, path[k], path[k + 1]));
    }
}

/// Where the search stands: the path it holds, and the cells it has
/// already stood on.
pub struct Search {
    pub route: Seq<Cell>,
    pub visited: Seq<Cell>,
}

/// The neighbour of `cur` in direction `(dr, dc)`, when a box can be
/// pushed there and the search has not stood there yet.
pub open spec fn offer(size: Cell, walls: Seq<Cell>, dead: Seq<Cell>, visited: Seq<Cell>, cur: Cell, dr: int, dc: int) -> Option<Cell> {
    let q = cell(cur.0 + dr, cur.1 + dc);
    if route_step(size, walls, dead, cur, q) && !visited.contains(q) {
        Some(q)
    } else {
        None
    }
}

/// The first neighbour on offer, trying right, down, left and up.
pub open spec fn pick_next(size: Cell, walls: Seq<Cell>, dead: Seq<Cell>, visited: Seq<Cell>, cur: Cell) -> Option<Cell> {
    let right = offer(size, walls, dead, visited, cur, 0, 1);
    let down = offer(size, walls, dead, visited, cur, 1, 0);
    let left = offer(size, walls, dead, visited, cur, 0, -1);
    let up = offer(size, walls, dead, visited, cur, -1, 0);
    if right is Some {
        right
    } else if down is Some {
        down
    } else if left is Some {
        left
    } else {
        up
    }
}

/// The search has ended: its path is empty or reaches the target.
pub open spec fn search_done(s: Search, target: Cell) -> bool {
    s.route.len() == 0 || s.route.last() == target
}

/// One step of the search: mark the tip as stood on, then extend the path
/// to the first neighbour on offer, or step back when there is none.
pub open spec fn search_step(size: Cell, walls: Seq<Cell>, dead: Seq<Cell>, target: Cell, s: Search) -> Search {
    if search_done(s, target) {
        s
    } else {
        let cur = s.route.last();
        let vis = if s.visited.contains(cur) { s.visited } else { s.visited.push(cur) };
        match pick_next(size, walls, dead, vis, cur) {
            Some(q) => Search { route: s.route.push(q), visited: vis },
            None => Search { route: s.route.drop_last(), visited: vis },
        }
    }
}

/// The search from `start` after `n` steps.
pub open spec fn search_after(size: Cell, walls: Seq<Cell>, dead: Seq<Cell>, start: Cell, target: Cell, n: nat) -> Search
    decreases n,
{
    if n == 0 {
        Search { route: seq![start], visited: Seq::empty() }
    } else {
        search_step(size, walls, dead, target, search_after(size, walls, dead, start, target, (n - 1) as nat))
    }
}

/// Once the search has ended it stays where it is.
proof fn lemma_search_stays(size: Cell, walls: Seq<Cell>, dead: Seq<Cell>, start: Cell, target: Cell, n: nat, m: nat)
    requires
        search_done(search_after(size, walls, dead, start, target, n), target),
        n <= m,
    ensures
        search_after(size, walls, dead, start, target, m) == search_after(size, walls, dead, start, target, n),
    decreases m - n,
{
    if n < m {
        lemma_search_stays(size, walls, dead, start, target, n, (m - 1) as nat);
    }
}

/// The search has one outcome: wherever it ends, it ends on the same path.
/// The route found thus depends on the grid size, walls, deadlock cells,
/// start and target alone.
pub proof fn lemma_search_deterministic(size: Cell, walls: Seq<Cell>, dead: Seq<Cell>, start: Cell, target: Cell, n: nat, m: nat)
    requires
        search_done(search_after(size, walls, dead, start, target, n), target),
        search_done(search_after(size, walls, dead, start, target, m), target),
    ensures
        search_after(size, walls, dead, start, target, n).route == search_after(size, walls, dead, start, target, m).route,
{
    if n <= m {
        lemma_search_stays(size, walls, dead, start, target, n, m);
    } else {
        lemma_search_stays(size, walls, dead, start, target, m, n);
    }
}

impl GameState {
    /// The neighbour of `cur` in direction `(dr, dc)`, when a box can be
    /// pushed there and the search has not been there yet.
    fn next_step(
        &self,
        visited: &Vec<Cell>,
        seen: &Vec<bool>,
        dead_grid: &Vec<bool>,
        walls_grid: &Vec<bool>,
        cur: Cell,
        dr: i32,
        dc: i32,
    ) -> (r: Option<Cell>)
        requires
            (dr == 0 && (dc == 1 || dc == -1)) || (dc == 0 && (dr == 1 || dr == -1)),
            cell_in_bounds(self.map_size, cur),
            grid_fits(self.map_size),
            flags_match(seen@, self.map_size, visited@),
            flags_match(dead_grid@, self.map_size, self.dead_pos@),
            flags_match(walls_grid@, self.map_size, self.walls@),
        ensures
            ({
                let q = cell(cur.0 + dr, cur.1 + dc);
                r == if route_step(self.map_size, self.walls@, self.dead_pos@, cur, q) && !visited@.contains(q) {
                    Some(q)
                } else {
                    None
                }
            }),
    {
        let nr: i64 = cur.0 as i64 + dr as i64;
        let nc: i64 = cur.1 as i64 + dc as i64;
        let pr: i64 = cur.0 as i64 - dr as i64;
        let pc: i64 = cur.1 as i64 - dc as i64;
        let rows: i64 = self.map_size.0 as i64;
        let cols: i64 = self.map_size.1 as i64;
        if nr < 0 || nr >= rows || nc < 0 || nc >= cols || pr < 0 || pr >= rows || pc < 0 || pc >= cols {
            return None;
        }
        let next: Cell = (nr as i32, nc as i32);
        let player: Cell = (pr as i32, pc as i32);
        proof {
            reveal(flags_match);
        }
        assert(cell_in_bounds(self.map_size, next) && cell_in_bounds(self.map_size, player));
        assert(player == cell(2 * cur.0 - next.0, 2 * cur.1 - next.1));
        let ni = grid_index(self.map_size, next);
        let pi = grid_index(self.map_size, player);
        if dead_grid[ni] || walls_grid[ni] || walls_grid[pi] || seen[ni] {
            return None;
        }
        Some(next)
    }

    /// A route for a box from `start` to `target`: empty when none exists,
    /// else a repetition-free sequence of single pushes from `start` to
    /// `target`. It is the path on which the depth-first search of
    /// `search_step` ends: right, down, left and up in turn, stepping back
    /// from dead ends.
    pub fn find_route_to_target(&self, start: Cell, target: Cell) -> (r: Vec<Cell>)
        requires
            cell_in_bounds(self.map_size, start),
            grid_fits(self.map_size),
        ensures
            r@.len() > 0 <==> reachable(self.map_size, self.walls@, self.dead_pos@, start, target),
            r@.len() > 0 ==> is_route(self.map_size, self.walls@, self.dead_pos@, r@, start, target),
            r@.no_duplicates(),
            exists|n: nat|
                search_done(#[trigger] search_after(self.map_size, self.walls@, self.dead_pos@, start, target, n), target)
                    && r@ == search_after(self.map_size, self.walls@, self.dead_pos@, start, target, n).route,
    {
        let ghost v = self@;
        let ghost mut n: nat = 0;
        let mut route: Vec<Cell> = Vec::new();
        let mut visited: Vec<Cell> = Vec::new();
        let dead_grid = cell_grid(&self.dead_pos, self.map_size);
        let walls_grid = cell_grid(&self.walls, self.map_size);
        let mut seen = cell_grid(&visited, self.map_size);
        route.push(start);
        assert(route@ =~= seq![start]);
        while route.len() > 0
            invariant
                self@ == v,
                grid_fits(v.map_size),
                flags_match(seen@, v.map_size, visited@),
                flags_match(dead_grid@, v.map_size, v.dead),
                flags_match(walls_grid@, v.map_size, v.walls),
                (Search { route: route@, visited: visited@ }) == search_after(v.map_size, v.walls, v.dead, start, target, n),
                cell_in_bounds(v.map_size, start),
                route@.len() >= 1 ==> route@[0] == start,
                forall|k: int| 0 <= k < route@.len() - 1 ==> #[trigger] route_step(v.map_size, v.walls, v.dead, route@[k], route@[k + 1]),
                forall|k: int| 0 <= k < route@.len() ==> cell_in_bounds(v.map_size, #[trigger] route@[k]),
                route@.no_duplicates(),
                visited@.no_duplicates(),
                forall|k: int| 0 <= k < visited@.len() ==> cell_in_bounds(v.map_size, #[trigger] visited@[k]),
                forall|k: int| 0 <= k < route@.len() - 1 ==> visited@.contains(#[trigger] route@[k]),
                !visited@.contains(target),
                visited@.contains(start) || route@ == seq![start],
                forall|u: Cell, w: Cell| visited@.contains(u) && !route@.contains(u) && #[trigger] route_step(v.map_size, v.walls, v.dead, u, w) ==> visited@.contains(w),
            ensures
                route@.len() >= 1 ==> route@.last() == target,
                route@.len() == 0 ==> visited@.contains(start),
                (Search { route: route@, visited: visited@ }) == search_after(v.map_size, v.walls, v.dead, start, target, n),
            decreases
                v.map_size.0 * v.map_size.1 - visited@.len() - (if route@.len() > 0 && !visited@.contains(route@.last()) { 1int } else { 0int }),
                route@.len(),
        {
            let cur = route[route.len() - 1];
            if cur.0 == target.0 && cur.1 == target.1 {
                break;
            }
            let ghost r0 = route@;
            let ghost vis0 = visited@;
            proof {
                reveal(flags_match);
                assert(cell_in_bounds(v.map_size, cur));
            }
            let ci = grid_index(self.map_size, cur);
            if !seen[ci] {
                visited.push(cur);
                mark_cell(&mut seen, self.map_size, cur);
                proof {
                    reveal(flags_match);
                }
            }
            assert(visited@.len() == vis0.len() + if vis0.contains(cur) { 0int } else { 1int });
            assert(cur == r0.last());
            proof {
                lemma_distinct_cells_fit(visited@, v.map_size);
            }
            let mut found = self.next_step(&visited, &seen, &dead_grid, &walls_grid, cur, 0, 1);
            if found.is_none() {
                found = self.next_step(&visited, &seen, &dead_grid, &walls_grid, cur, 1, 0);
            }
            if found.is_none() {
                found = self.next_step(&visited, &seen, &dead_grid, &walls_grid, cur, 0, -1);
            }
            if found.is_none() {
                found = self.next_step(&visited, &seen, &dead_grid, &walls_grid, cur, -1, 0);
            }
            match found {
                Some(next) => {
                    proof {
                        assert(route_step(v.map_size, v.walls, v.dead, cur, next));
                        assert(!route@.contains(next));
                        lemma_distinct_cells_fit(visited@.push(next), v.map_size);
                    }
                    route.push(next);
                    proof {
                        assert forall|k: int| 0 <= k < route@.len() - 1 implies #[trigger] route_step(v.map_size, v.walls, v.dead, route@[k], route@[k + 1]) by {
                            if k < r0.len() - 1 {
                                assert(route@[k] == r0[k] && route@[k + 1] == r0[k + 1]);
                            }
                        }
                        assert forall|k: int| 0 <= k < route@.len() - 1 implies visited@.contains(#[trigger] route@[k]) by {
                            if k < r0.len() - 1 {
                                assert(route@[k] == r0[k]);
                                assert(vis0.contains(r0[k]));
                            }
                        }
                        assert forall|u: Cell, w: Cell| visited@.contains(u) && !route@.contains(u) && #[trigger] route_step(v.map_size, v.walls, v.dead, u, w) implies visited@.contains(w) by {
                            assert(!r0.contains(u));
                            assert(vis0.contains(u));
                            assert(vis0.contains(w));
                        }
                    }
                },
                None => {
                    route.pop();
                    proof {
                        assert(route@ == r0.drop_last());
                        if route@.len() > 0 {
                            assert(route@.last() == r0[r0.len() - 2]);
                            assert(vis0.contains(r0[r0.len() - 2]));
                            assert(visited@.contains(route@.last()));
                        }
                        assert forall|k: int| 0 <= k < route@.len() - 1 implies #[trigger] route_step(v.map_size, v.walls, v.dead, route@[k], route@[k + 1]) by {
                            assert(route@[k] == r0[k] && route@[k + 1] == r0[k + 1]);
                        }
                        assert forall|k: int| 0 <= k < route@.len() - 1 implies visited@.contains(#[trigger] route@[k]) by {
                            assert(route@[k] == r0[k]);
                        }
                        assert forall|u: Cell, w: Cell| visited@.contains(u) && !route@.contains(u) && #[trigger] route_step(v.map_size, v.walls, v.dead, u, w) implies visited@.contains(w) by {
                            if u == cur {
                                if w.0 == cur.0 && w.1 == cur.1 + 1 {
                                    assert(w == cell(cur.0 + 0, cur.1 + 1));
                                } else if w.0 == cur.0 + 1 && w.1 == cur.1 {
                                    assert(w == cell(cur.0 + 1, cur.1 + 0));
                                } else if w.0 == cur.0 && w.1 == cur.1 - 1 {
                                    assert(w == cell(cur.0 + 0, cur.1 + -1));
                                } else {
                                    assert(w == cell(cur.0 + -1, cur.1 + 0));
                                }
                            } else {
                                assert(r0 == route@.push(cur));
                                assert(!r0.contains(u));
                                if !vis0.contains(u) {
                                    assert(u == cur);
                                }
                            }
                        }
                    }
                },
            }
            proof {
                let vis = if vis0.contains(cur) { vis0 } else { vis0.push(cur) };
                assert(visited@ == vis);
                assert(found == pick_next(v.map_size, v.walls, v.dead, vis, cur));
                assert(!search_done(Search { route: r0, visited: vis0 }, target));
                assert((Search { route: route@, visited: visited@ }) == search_step(v.map_size, v.walls, v.dead, target, Search { route: r0, visited: vis0 }));
                n = n + 1;
            }
        }
        proof {
            if route@.len() == 0 {
                if reachable(v.map_size, v.walls, v.dead, start, target) {
                    let path = choose|path: Seq<Cell>| #[trigger] is_route(v.map_size, v.walls, v.dead, path, start, target);
                    lemma_route_in_closed(v, visited@, path, start, target, path.len() - 1);
                }
            } else {
                assert(is_route(v.map_size, v.walls, v.dead, route@, start, target));
            }
        }
        route
    }
}

} // verus!
