//! Cells of a bounded grid and the facts about them that the rest of the
//! library builds on.
use vstd::prelude::*;

verus! {

broadcast use vstd::seq_lib::lemma_seq_contains_after_push;

/// A cell of the grid: (row, column), zero-based.
pub type Cell = (i32, i32);

/// `(r, c)` lies inside a grid of `size.0` rows and `size.1` columns.
pub open spec fn in_bounds(size: Cell, r: int, c: int) -> bool {
    0 <= r < size.0 && 0 <= c < size.1
}

pub open spec fn cell_in_bounds(size: Cell, p: Cell) -> bool {
    in_bounds(size, p.0 as int, p.1 as int)
}

/// The cell at integer coordinates that fit in an `i32`.
pub open spec fn cell(r: int, c: int) -> Cell {
    (r as i32, c as i32)
}

/// All the cells of a grid with `rows` rows and `cols` columns.
pub open spec fn rect(rows: int, cols: int) -> Set<Cell> {
    Set::new(|p: Cell| 0 <= p.0 < rows && 0 <= p.1 < cols)
}

spec fn strip(r: int, k: int) -> Set<Cell> {
    Set::new(|p: Cell| p.0 == r && 0 <= p.1 < k)
}

proof fn lemma_strip_len(r: int, k: int)
    requires
        0 <= r <= i32::MAX,
        0 <= k <= i32::MAX,
    ensures
        strip(r, k).finite(),
        strip(r, k).len() == k,
    decreases k,
{
    if k == 0 {
        assert(strip(r, k) =~= Set::empty());
    } else {
        lemma_strip_len(r, k - 1);
        assert(strip(r, k) =~= strip(r, k - 1).insert(cell(r, k - 1)));
    }
}

proof fn lemma_rect_len(rows: int, cols: int)
    requires
        0 <= rows <= i32::MAX,
        0 <= cols <= i32::MAX,
    ensures
        rect(rows, cols).finite(),
        rect(rows, cols).len() == rows * cols,
    decreases rows,
{
    if rows == 0 {
        assert(rect(rows, cols) =~= Set::empty());
    } else {
        lemma_rect_len(rows - 1, cols);
        lemma_strip_len(rows - 1, cols);
        assert(rect(rows, cols) =~= rect(rows - 1, cols) + strip(rows - 1, cols));
        assert(rect(rows - 1, cols).disjoint(strip(rows - 1, cols)));
        vstd::set_lib::lemma_set_disjoint_lens(rect(rows - 1, cols), strip(rows - 1, cols));
        assert(rows * cols == (rows - 1) * cols + cols) by (nonlinear_arith);
    }
}

/// A sequence of distinct cells inside the grid is no longer than the grid
/// has cells.
pub proof fn lemma_distinct_cells_fit(s: Seq<Cell>, size: Cell)
    requires
        s.no_duplicates(),
        0 <= size.0,
        0 <= size.1,
        forall|k: int| 0 <= k < s.len() ==> cell_in_bounds(size, #[trigger] s[k]),
    ensures
        s.len() <= size.0 * size.1,
{
    lemma_rect_len(size.0 as int, size.1 as int);
    s.unique_seq_to_set();
    assert(s.to_set().subset_of(rect(size.0 as int, size.1 as int)));
    vstd::set_lib::lemma_len_subset(s.to_set(), rect(size.0 as int, size.1 as int));
}

/// The place of cell `p` in a row-major array over a grid of size `size`.
pub open spec fn idx(size: Cell, p: Cell) -> int {
    p.0 * size.1 + p.1
}

/// Row-major places of cells inside the grid are in range and distinct.
pub proof fn lemma_idx(size: Cell)
    ensures
        forall|p: Cell| #[trigger] cell_in_bounds(size, p) ==> 0 <= idx(size, p) < size.0 * size.1,
        forall|p: Cell, q: Cell|
            cell_in_bounds(size, p) && cell_in_bounds(size, q) && #[trigger] idx(size, p) == #[trigger] idx(size, q) ==> p == q,
{
    assert forall|p: Cell| #[trigger] cell_in_bounds(size, p) implies 0 <= idx(size, p) < size.0 * size.1 by {
        let (r, c, rows, cols) = (p.0 as int, p.1 as int, size.0 as int, size.1 as int);
        assert(0 <= r * cols + c < rows * cols) by (nonlinear_arith)
            requires
                0 <= r < rows,
                0 <= c < cols,
        ;
    }
    assert forall|p: Cell, q: Cell|
        cell_in_bounds(size, p) && cell_in_bounds(size, q) && #[trigger] idx(size, p) == #[trigger] idx(size, q) implies p == q by {
        let (r1, c1, r2, c2, cols) = (p.0 as int, p.1 as int, q.0 as int, q.1 as int, size.1 as int);
        assert(r1 == r2) by (nonlinear_arith)
            requires
                0 <= r1,
                0 <= r2,
                0 <= c1 < cols,
                0 <= c2 < cols,
                r1 * cols + c1 == r2 * cols + c2,
        {
            if r1 < r2 {
                assert(r1 * cols + cols <= r2 * cols);
            } else if r2 < r1 {
                assert(r2 * cols + cols <= r1 * cols);
            }
        }
    }
}

/// A row-major array of one entry per cell fits in memory.
pub open spec fn grid_fits(size: Cell) -> bool {
    size.0 >= 0 && size.1 >= 0 && size.0 * size.1 <= usize::MAX
}

/// `g` is a row-major grid of flags over a grid of size `size`, set on
/// exactly the cells of `cells` that lie inside it.
#[verifier::opaque]
pub open spec fn flags_match(g: Seq<bool>, size: Cell, cells: Seq<Cell>) -> bool {
    &&& g.len() == size.0 * size.1
    &&& forall|x: Cell| #[trigger] cell_in_bounds(size, x) ==> g[idx(size, x)] == cells.contains(x)
}

/// The row-major place of a cell inside the grid.
pub fn grid_index(size: Cell, p: Cell) -> (i: usize)
    requires
        grid_fits(size),
        cell_in_bounds(size, p),
    ensures
        i == idx(size, p),
        i < size.0 * size.1,
{
    proof {
        lemma_idx(size);
    }
    p.0 as usize * size.1 as usize + p.1 as usize
}

/// Marks cell `p` in a row-major grid of flags.
pub fn mark_cell(g: &mut Vec<bool>, size: Cell, p: Cell)
    requires
        grid_fits(size),
        cell_in_bounds(size, p),
        old(g)@.len() == size.0 * size.1,
    ensures
        final(g)@.len() == old(g)@.len(),
        forall|x: Cell| #[trigger] cell_in_bounds(size, x) ==> final(g)@[idx(size, x)] == (old(g)@[idx(size, x)] || x == p),
{
    proof {
        lemma_idx(size);
    }
    let i = grid_index(size, p);
    g.set(i, true);
}

/// A row-major grid of flags over a grid of size `size`, set on exactly
/// the cells of `cells` that lie inside it.
pub fn cell_grid(cells: &Vec<Cell>, size: Cell) -> (g: Vec<bool>)
    requires
        grid_fits(size),
    ensures
        flags_match(g@, size, cells@),
{
    proof {
        lemma_idx(size);
    }
    let n = size.0 as usize * size.1 as usize;
    let mut g: Vec<bool> = Vec::new();
    let mut i: usize = 0;
    while i < n
        invariant
            i <= n,
            n == size.0 * size.1,
            g@.len() == i,
            forall|k: int| 0 <= k < i ==> !#[trigger] g@[k],
        decreases n - i,
    {
        g.push(false);
        i += 1;
    }
    let mut k: usize = 0;
    while k < cells.len()
        invariant
            k <= cells.len(),
            grid_fits(size),
            g@.len() == size.0 * size.1,
            forall|x: Cell| #[trigger] cell_in_bounds(size, x) ==> g@[idx(size, x)] == cells@.subrange(0, k as int).contains(x),
        decreases cells.len() - k,
    {
        let p = cells[k];
        let ghost before = g@;
        if 0 <= p.0 && p.0 < size.0 && 0 <= p.1 && p.1 < size.1 {
            mark_cell(&mut g, size, p);
        }
        proof {
            assert(cells@.subrange(0, k + 1) == cells@.subrange(0, k as int).push(p));
        }
        k += 1;
    }
    assert(cells@.subrange(0, cells@.len() as int) == cells@);
    proof {
        reveal(flags_match);
    }
    g
}

/// Whether `v` holds the cell `p`.
pub fn contains_cell(v: &Vec<Cell>, p: Cell) -> (r: bool)
    ensures
        r == v@.contains(p),
{
    let mut i: usize = 0;
    while i < v.len()
        invariant
            i <= v.len(),
            forall|k: int| 0 <= k < i ==> v@[k] != p,
        decreases v.len() - i,
    {
        if v[i].0 == p.0 && v[i].1 == p.1 {
            return true;
        }
        i += 1;
    }
    false
}

/// `i` is the first index at which `s` holds `x`.
pub open spec fn first_at(s: Seq<Cell>, x: Cell, i: int) -> bool {
    &&& 0 <= i < s.len()
    &&& s[i] == x
    &&& forall|j: int| 0 <= j < i ==> s[j] != x
}

/// The first index at which `v` holds `p`, if any.
pub fn position_of(v: &Vec<Cell>, p: Cell) -> (r: Option<usize>)
    ensures
        match r {
            Some(i) => first_at(v@, p, i as int),
            None => !v@.contains(p),
        },
{
    let mut i: usize = 0;
    while i < v.len()
        invariant
            i <= v.len(),
            forall|k: int| 0 <= k < i ==> v@[k] != p,
        decreases v.len() - i,
    {
        if v[i].0 == p.0 && v[i].1 == p.1 {
            return Some(i);
        }
        i += 1;
    }
    None
}

/// A fresh vector with the same cells as `v`, in the same order.
pub fn copy_cells(v: &Vec<Cell>) -> (r: Vec<Cell>)
    ensures
        r@ == v@,
{
    let mut r: Vec<Cell> = Vec::new();
    let mut i: usize = 0;
    while i < v.len()
        invariant
            i <= v.len(),
            r@ == v@.subrange(0, i as int),
        decreases v.len() - i,
    {
        r.push(v[i]);
        i += 1;
    }
    assert(r@ =~= v@);
    r
}

} // verus!
