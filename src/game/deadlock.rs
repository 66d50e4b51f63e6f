//! Deadlock analysis: the cells from which no single push sequence can
//! bring a box onto a target, found by walking pushes backwards from the
//! targets.
use vstd::prelude::*;

use super::{all_in_bounds, GameState, GameStateView};
use crate::grid::{
    cell, cell_grid, cell_in_bounds, copy_cells, flags_match, grid_fits, grid_index, in_bounds, lemma_distinct_cells_fit,
    mark_cell, Cell,
};

verus! {

broadcast use vstd::seq_lib::lemma_seq_contains_after_push;

/// `q` is one of the four orthogonal neighbours of `p`.
pub open spec fn adjacent(p: Cell, q: Cell) -> bool {
    let dr = q.0 - p.0;
    let dc = q.1 - p.1;
    (dr == 0 && (dc == 1 || dc == -1)) || (dc == 0 && (dr == 1 || dr == -1))
}

/// A box on `q` can be pushed onto its neighbour `p`: the player's cell
/// behind `q` (away from `p`) and `q` itself are inside the grid and not
/// walls.
pub open spec fn pull_step(size: Cell, walls: Seq<Cell>, p: Cell, q: Cell) -> bool {
    let pr = 2 * q.0 - p.0;
    let pc = 2 * q.1 - p.1;
    &&& adjacent(p, q)
    &&& in_bounds(size, q.0 as int, q.1 as int)
    &&& in_bounds(size, pr, pc)
    &&& !walls.contains(q)
    &&& !walls.contains(cell(pr, pc))
}

/// `path` starts on a target that is not a wall and each next cell can
/// push a box onto the one before it.
pub open spec fn live_chain(size: Cell, walls: Seq<Cell>, targets: Seq<Cell>, path: Seq<Cell>) -> bool {
    &&& path.len() >= 1
    &&& targets.contains(path[0])
    &&& !walls.contains(path[0])
    &&& forall|k: int| 0 <= k < path.len() - 1 ==> #[trigger] pull_step(size, walls, path[k], path[k + 1])
}

/// A box on `c` can reach a target, other boxes aside.
pub open spec fn is_live(size: Cell, walls: Seq<Cell>, targets: Seq<Cell>, c: Cell) -> bool {
    exists|path: Seq<Cell>| #[trigger] live_chain(size, walls, targets, path) && path.last() == c
}

/// `c` belongs in the deadlock set: a wall, or a cell of the grid that is
/// not live.
pub open spec fn is_dead(size: Cell, walls: Seq<Cell>, targets: Seq<Cell>, c: Cell) -> bool {
    walls.contains(c) || (cell_in_bounds(size, c) && !is_live(size, walls, targets, c))
}

/// Each cell of a chain lies in a set that holds the chain's start and is
/// closed under `pull_step`.
proof fn lemma_chain_in_closed(v: GameStateView, live: Seq<Cell>, path: Seq<Cell>, k: int)
    requires
        live_chain(v.map_size, v.walls, v.targets, path),
        0 <= k < path.len(),
        live.contains(path[0]),
        forall|a: Cell, b: Cell| live.contains(a) && #[trigger] pull_step(v.map_size, v.walls, a, b) ==> live.contains(b),
    ensures
        live.contains(path[k]),
    decreases k,
{
    if k > 0 {
        lemma_chain_in_closed(v, live, path, k - 1);
        let j = k - 1;
        assert(pull_step(v.map_size, v.walls, path[j], path[j + 1]));
    }
}

/// In a level whose deadlock cells are worked out, every wall is a
/// deadlock cell and no target is, unless a wall stands on it.
pub proof fn lemma_walls_dead_targets_live(v: GameStateView)
    requires
        v.dead_fits(),
    ensures
        forall|c: Cell| v.walls.contains(c) ==> #[trigger] v.dead.contains(c),
        forall|k: int| 0 <= k < v.targets.len() && !v.walls.contains(v.targets[k]) ==> !v.dead.contains(#[trigger] v.targets[k]),
{
    assert forall|k: int| 0 <= k < v.targets.len() && !v.walls.contains(v.targets[k]) implies !v.dead.contains(#[trigger] v.targets[k]) by {
        let t = v.targets[k];
        assert(live_chain(v.map_size, v.walls, v.targets, seq![t]));
        assert(seq![t].last() == t);
    }
}

impl GameState {
    /// Adds to `live` the cell one step from `p` in direction `(dr, dc)`
    /// when a box there can be pushed onto `p` and `live` lacks it.
    fn add_origin(&self, live: &mut Vec<Cell>, marked: &mut Vec<bool>, walls_grid: &Vec<bool>, p: Cell, dr: i32, dc: i32)
        requires
            (dr == 0 && (dc == 1 || dc == -1)) || (dc == 0 && (dr == 1 || dr == -1)),
            cell_in_bounds(self.map_size, p),
            grid_fits(self.map_size),
            flags_match(old(marked)@, self.map_size, old(live)@),
            flags_match(walls_grid@, self.map_size, self.walls@),
        ensures
            flags_match(final(marked)@, self.map_size, final(live)@),
            ({
                let q = cell(p.0 + dr, p.1 + dc);
                if pull_step(self.map_size, self.walls@, p, q) && !old(live)@.contains(q) {
                    final(live)@ == old(live)@.push(q)
                } else {
                    final(live)@ == old(live)@
                }
            }),
    {
        let qr: i64 = p.0 as i64 + dr as i64;
        let qc: i64 = p.1 as i64 + dc as i64;
        let pr: i64 = qr + dr as i64;
        let pc: i64 = qc + dc as i64;
        let rows: i64 = self.map_size.0 as i64;
        let cols: i64 = self.map_size.1 as i64;
        if qr < 0 || qr >= rows || qc < 0 || qc >= cols || pr < 0 || pr >= rows || pc < 0 || pc >= cols {
            return;
        }
        let q: Cell = (qr as i32, qc as i32);
        let player: Cell = (pr as i32, pc as i32);
        proof {
            reveal(flags_match);
        }
        assert(cell_in_bounds(self.map_size, q) && cell_in_bounds(self.map_size, player));
        assert(player == cell(2 * q.0 - p.0, 2 * q.1 - p.1));
        let i = grid_index(self.map_size, q);
        if marked[i] {
            return;
        }
        let j = grid_index(self.map_size, player);
        if !walls_grid[i] && !walls_grid[j] {
            live.push(q);
            mark_cell(marked, self.map_size, q);
            proof {
                reveal(flags_match);
            }
        }
    }

    /// Fills `dead_pos` with every wall and every cell of the grid from
    /// which no box can be pushed onto a target.
    #[verifier::rlimit(100)]
    pub(crate) fn generate_deadlock_positions(&mut self)
        requires
            old(self)@.wf(),
        ensures
            final(self)@.player == old(self)@.player,
            final(self)@.boxes == old(self)@.boxes,
            final(self)@.targets == old(self)@.targets,
            final(self)@.walls == old(self)@.walls,
            final(self)@.map_size == old(self)@.map_size,
            final(self)@.route == old(self)@.route,
            forall|c: Cell| #[trigger] final(self)@.dead.contains(c) == is_dead(old(self)@.map_size, old(self)@.walls, old(self)@.targets, c),
            old(self)@.walls.no_duplicates() ==> final(self)@.dead.no_duplicates(),
    {
        let ghost v = self@;
        let mut live: Vec<Cell> = Vec::new();
        let walls_grid = cell_grid(&self.walls, self.map_size);
        let mut marked = cell_grid(&live, self.map_size);
        let mut i: usize = 0;
        while i < self.target_positions.len()
            invariant
                self@ == v,
                v.map_size.0 >= 1,
                v.map_size.1 >= 1,
                all_in_bounds(v.map_size, v.targets),
                grid_fits(v.map_size),
                flags_match(marked@, v.map_size, live@),
                flags_match(walls_grid@, v.map_size, v.walls),
                i <= self.target_positions.len(),
                live@.no_duplicates(),
                forall|k: int| 0 <= k < live@.len() ==> cell_in_bounds(v.map_size, #[trigger] live@[k]),
                forall|k: int| 0 <= k < live@.len() ==> !v.walls.contains(#[trigger] live@[k]),
                forall|k: int| 0 <= k < live@.len() ==> is_live(v.map_size, v.walls, v.targets, #[trigger] live@[k]),
                forall|k: int| 0 <= k < i && !v.walls.contains(v.targets[k]) ==> live@.contains(#[trigger] v.targets[k]),
            decreases self.target_positions.len() - i,
        {
            let t = self.target_positions[i];
            assert(t == v.targets[i as int]);
            proof {
                reveal(flags_match);
            }
            assert(cell_in_bounds(v.map_size, t));
            let ti = grid_index(self.map_size, t);
            if !walls_grid[ti] && !marked[ti] {
                proof {
                    assert(live_chain(v.map_size, v.walls, v.targets, seq![t]));
                    assert(seq![t].last() == t);
                }
                live.push(t);
                mark_cell(&mut marked, self.map_size, t);
                proof {
                    reveal(flags_match);
                }
            }
            i += 1;
        }
        let mut head: usize = 0;
        while head < live.len()
            invariant
                self@ == v,
                v.map_size.0 >= 1,
                v.map_size.1 >= 1,
                all_in_bounds(v.map_size, v.targets),
                grid_fits(v.map_size),
                flags_match(marked@, v.map_size, live@),
                flags_match(walls_grid@, v.map_size, v.walls),
                head <= live@.len(),
                live@.no_duplicates(),
                forall|k: int| 0 <= k < live@.len() ==> cell_in_bounds(v.map_size, #[trigger] live@[k]),
                forall|k: int| 0 <= k < live@.len() ==> !v.walls.contains(#[trigger] live@[k]),
                forall|k: int| 0 <= k < live@.len() ==> is_live(v.map_size, v.walls, v.targets, #[trigger] live@[k]),
                forall|k: int| 0 <= k < v.targets.len() && !v.walls.contains(v.targets[k]) ==> live@.contains(#[trigger] v.targets[k]),
                forall|j: int, b: Cell| 0 <= j < head && #[trigger] pull_step(v.map_size, v.walls, live@[j], b) ==> live@.contains(b),
            decreases v.map_size.0 * v.map_size.1 - head,
        {
            proof {
                lemma_distinct_cells_fit(live@, v.map_size);
            }
            let p = live[head];
            let ghost l0 = live@;
            self.add_origin(&mut live, &mut marked, &walls_grid, p, 0, 1);
            let ghost l1 = live@;
            self.add_origin(&mut live, &mut marked, &walls_grid, p, 1, 0);
            let ghost l2 = live@;
            self.add_origin(&mut live, &mut marked, &walls_grid, p, 0, -1);
            let ghost l3 = live@;
            self.add_origin(&mut live, &mut marked, &walls_grid, p, -1, 0);
            proof {
                assert(live@.subrange(0, l0.len() as int) == l0);
                assert forall|k: int| 0 <= k < live@.len() implies is_live(v.map_size, v.walls, v.targets, #[trigger] live@[k]) && cell_in_bounds(v.map_size, live@[k]) && !v.walls.contains(live@[k]) by {
                    if k >= l0.len() {
                        let q = live@[k];
                        assert(pull_step(v.map_size, v.walls, p, q));
                        let path = choose|path: Seq<Cell>| #[trigger] live_chain(v.map_size, v.walls, v.targets, path) && path.last() == p;
                        let np = path.push(q);
                        assert(np.last() == q);
                        assert forall|m: int| 0 <= m < np.len() - 1 implies #[trigger] pull_step(v.map_size, v.walls, np[m], np[m + 1]) by {
                            if m < path.len() - 1 {
                                assert(np[m] == path[m] && np[m + 1] == path[m + 1]);
                            }
                        }
                        assert(live_chain(v.map_size, v.walls, v.targets, np));
                    } else {
                        assert(live@[k] == l0[k]);
                    }
                }
                assert forall|x: Cell| l0.contains(x) implies #[trigger] live@.contains(x) by {
                    assert(l1.contains(x));
                    assert(l2.contains(x));
                    assert(l3.contains(x));
                }
                assert forall|b: Cell| #[trigger] pull_step(v.map_size, v.walls, p, b) implies live@.contains(b) by {
                    if b.0 == p.0 && b.1 == p.1 + 1 {
                        assert(b == cell(p.0 + 0, p.1 + 1));
                        assert(l1.contains(b));
                        assert(l2.contains(b));
                        assert(l3.contains(b));
                    } else if b.0 == p.0 + 1 && b.1 == p.1 {
                        assert(b == cell(p.0 + 1, p.1 + 0));
                        assert(l2.contains(b));
                        assert(l3.contains(b));
                    } else if b.0 == p.0 && b.1 == p.1 - 1 {
                        assert(b == cell(p.0 + 0, p.1 + -1));
                        assert(l3.contains(b));
                    } else {
                        assert(b == cell(p.0 + -1, p.1 + 0));
                    }
                }
                assert forall|j: int, b: Cell| 0 <= j < head + 1 && #[trigger] pull_step(v.map_size, v.walls, live@[j], b) implies live@.contains(b) by {
                    assert(live@[j] == l0[j]);
                    if j < head {
                        assert(l0.contains(b));
                    }
                }
                assert forall|k: int| 0 <= k < v.targets.len() && !v.walls.contains(v.targets[k]) implies live@.contains(#[trigger] v.targets[k]) by {
                    assert(l0.contains(v.targets[k]));
                }
            }
            head += 1;
        }
        proof {
            assert forall|c: Cell| is_live(v.map_size, v.walls, v.targets, c) implies live@.contains(c) by {
                let path = choose|path: Seq<Cell>| #[trigger] live_chain(v.map_size, v.walls, v.targets, path) && path.last() == c;
                assert(v.targets.contains(path[0]));
                assert forall|a: Cell, b: Cell| live@.contains(a) && #[trigger] pull_step(v.map_size, v.walls, a, b) implies live@.contains(b) by {
                    let w = choose|w: int| 0 <= w < live@.len() && live@[w] == a;
                    assert(pull_step(v.map_size, v.walls, live@[w], b));
                }
                lemma_chain_in_closed(v, live@, path, path.len() - 1);
            }
        }
        let mut dead = copy_cells(&self.walls);
        let rows = self.map_size.0;
        let cols = self.map_size.1;
        let mut r: i32 = 0;
        while r < rows
            invariant
                self@ == v,
                v.map_size.0 >= 1,
                v.map_size.1 >= 1,
                all_in_bounds(v.map_size, v.targets),
                grid_fits(v.map_size),
                flags_match(marked@, v.map_size, live@),
                flags_match(walls_grid@, v.map_size, v.walls),
                rows == v.map_size.0,
                cols == v.map_size.1,
                0 <= r <= rows,
                forall|k: int| 0 <= k < live@.len() ==> is_live(v.map_size, v.walls, v.targets, #[trigger] live@[k]),
                forall|c: Cell| is_live(v.map_size, v.walls, v.targets, c) ==> #[trigger] live@.contains(c),
                forall|x: Cell| #[trigger] dead@.contains(x) == (v.walls.contains(x) || (cell_in_bounds(v.map_size, x) && x.0 < r && !live@.contains(x))),
                v.walls.no_duplicates() ==> dead@.no_duplicates(),
            decreases rows - r,
        {
            let mut c: i32 = 0;
            while c < cols
                invariant
                    self@ == v,
                    v.map_size.0 >= 1,
                v.map_size.1 >= 1,
                all_in_bounds(v.map_size, v.targets),
                grid_fits(v.map_size),
                flags_match(marked@, v.map_size, live@),
                flags_match(walls_grid@, v.map_size, v.walls),
                    rows == v.map_size.0,
                    cols == v.map_size.1,
                    0 <= r < rows,
                    0 <= c <= cols,
                    forall|x: Cell| #[trigger] dead@.contains(x) == (v.walls.contains(x) || (cell_in_bounds(v.map_size, x) && (x.0 < r || (x.0 == r && x.1 < c)) && !live@.contains(x))),
                    v.walls.no_duplicates() ==> dead@.no_duplicates(),
                decreases cols - c,
            {
                let x: Cell = (r, c);
                proof {
                    reveal(flags_match);
                }
                assert(cell_in_bounds(v.map_size, x));
                let xi = grid_index(self.map_size, x);
                if !walls_grid[xi] && !marked[xi] {
                    proof {
                        assert(!dead@.contains(x));
                        if v.walls.no_duplicates() {
                            assert forall|a: int, b: int| 0 <= a < b < dead@.len() + 1 implies dead@.push(x)[a] != dead@.push(x)[b] by {
                                if b == dead@.len() {
                                    assert(dead@.contains(dead@[a]));
                                }
                            }
                        }
                    }
                    dead.push(x);
                }
                c += 1;
            }
            r += 1;
        }
        proof {
            assert forall|x: Cell| #[trigger] dead@.contains(x) == is_dead(v.map_size, v.walls, v.targets, x) by {
                if live@.contains(x) {
                    let w = choose|w: int| 0 <= w < live@.len() && live@[w] == x;
                    assert(is_live(v.map_size, v.walls, v.targets, live@[w]));
                }
            }
        }
        self.dead_pos = dead;
    }
}

} // verus!
