//! Level text: a first line that gives the dimensions as two decimal
//! numbers parted by one space, then one line per grid row,
//! where `/` is a wall, `0` the player, `1` a box and `2` a target. Rows
//! and columns count from zero; a column is a character's place in its
//! line. The grid is as tall as there are rows and as wide as the longest
//! row in bytes.
use vstd::prelude::*;

use super::GameState;
use vstd::string::StringSliceAdditionalSpecFns;
use crate::grid::{cell, Cell};

verus! {

/// The length of the first line: the bytes before the first line feed.
pub open spec fn head_len(b: Seq<u8>) -> nat
    decreases b.len(),
{
    if b.len() == 0 || b[0] == 10 {
        0
    } else {
        1 + head_len(b.drop_first())
    }
}

/// The first line, a final carriage return left out.
pub open spec fn first_line(b: Seq<u8>) -> Seq<u8> {
    let h = b.subrange(0, head_len(b) as int);
    if h.len() > 0 && h.last() == 13 {
        h.drop_last()
    } else {
        h
    }
}

pub open spec fn is_digit(x: u8) -> bool {
    48 <= x <= 57
}

pub open spec fn all_digits(l: Seq<u8>) -> bool {
    forall|i: int| 0 <= i < l.len() ==> is_digit(#[trigger] l[i])
}

/// `l` is a dimension line: two non-empty runs of decimal digits with one
/// space between them.
pub open spec fn is_dim_line(l: Seq<u8>) -> bool {
    exists|k: int|
        0 < k < l.len() - 1 && #[trigger] l[k] == 32 && all_digits(l.subrange(0, k)) && all_digits(
            l.subrange(k + 1, l.len() as int),
        )
}

proof fn lemma_head_len(b: Seq<u8>, h: int)
    requires
        0 <= h <= b.len(),
        forall|i: int| 0 <= i < h ==> b[i] != 10,
        h == b.len() || b[h] == 10,
    ensures
        head_len(b) == h,
    decreases h,
{
    if h > 0 {
        lemma_head_len(b.drop_first(), h - 1);
    }
}

/// Whether the text opens with a dimension line.
fn has_dim_line(bytes: &[u8]) -> (r: bool)
    ensures
        r == is_dim_line(first_line(bytes@)),
{
    let ghost b = bytes@;
    let mut h: usize = 0;
    while h < bytes.len() && bytes[h] != 10
        invariant
            h <= b.len(),
            b == bytes@,
            forall|i: int| 0 <= i < h ==> b[i] != 10,
        decreases b.len() - h,
    {
        h += 1;
    }
    proof {
        lemma_head_len(b, h as int);
    }
    let mut e = h;
    if e > 0 && bytes[e - 1] == 13 {
        e -= 1;
    }
    let ghost l = first_line(b);
    assert(l =~= b.subrange(0, e as int));
    let mut k: usize = 0;
    while k < e && 48 <= bytes[k] && bytes[k] <= 57
        invariant
            k <= e <= b.len(),
            b == bytes@,
            l =~= b.subrange(0, e as int),
            forall|i: int| 0 <= i < k ==> is_digit(b[i]),
        decreases e - k,
    {
        k += 1;
    }
    if k == 0 || k >= e - 1 || bytes[k] != 32 {
        proof {
            if is_dim_line(l) {
                let j = choose|j: int|
                    0 < j < l.len() - 1 && #[trigger] l[j] == 32 && all_digits(l.subrange(0, j)) && all_digits(
                        l.subrange(j + 1, l.len() as int),
                    );
                if k < j {
                    assert(l.subrange(0, j)[k as int] == l[k as int]);
                }
                assert(k >= j);
                assert(!is_digit(l[j]));
            }
        }
        return false;
    }
    let mut m: usize = k + 1;
    while m < e
        invariant
            k + 1 <= m <= e <= b.len(),
            b == bytes@,
            l =~= b.subrange(0, e as int),
            forall|i: int| k < i < m ==> is_digit(b[i]),
            forall|i: int| 0 <= i < k ==> is_digit(b[i]),
            l.len() == e,
            l == first_line(b),
            b[k as int] == 32,
            0 < k,
        decreases e - m,
    {
        if !(48 <= bytes[m] && bytes[m] <= 57) {
            proof {
                let j = k as int;
                if is_dim_line(l) {
                    let j2 = choose|j2: int|
                        0 < j2 < l.len() - 1 && #[trigger] l[j2] == 32 && all_digits(l.subrange(0, j2)) && all_digits(
                            l.subrange(j2 + 1, l.len() as int),
                        );
                    if j < j2 {
                        assert(l.subrange(0, j2)[j] == l[j]);
                        assert(is_digit(l.subrange(0, j2)[j]));
                        assert(l[j] == b[j]);
                    } else if j2 < j {
                        assert(l[j2] == b[j2]);
                        assert(is_digit(b[j2]));
                    } else {
                        assert(l.subrange(j2 + 1, l.len() as int)[m - j2 - 1] == l[m as int]);
                        assert(is_digit(l.subrange(j2 + 1, l.len() as int)[m - j2 - 1]));
                        assert(l[m as int] == b[m as int]);
                    }
                }
            }
            return false;
        }
        m += 1;
    }
    proof {
        let j = k as int;
        assert(all_digits(l.subrange(0, j)));
        assert(all_digits(l.subrange(j + 1, l.len() as int)));
        assert(l[j] == 32);
    }
    true
}

/// Where a left-to-right scan of the text stands: the row (-1 on the
/// skipped first line), the column and byte length reached in that row,
/// whether its last byte was a carriage return, the width of the rows
/// already ended, and the entities read so far.
pub struct Scan {
    pub row: int,
    pub col: int,
    pub len: int,
    pub cr: bool,
    pub cols: int,
    pub player: Cell,
    pub walls: Seq<Cell>,
    pub boxes: Seq<Cell>,
    pub targets: Seq<Cell>,
}

pub open spec fn scan_start() -> Scan {
    Scan {
        row: -1,
        col: 0,
        len: 0,
        cr: false,
        cols: 0,
        player: (0, 0),
        walls: Seq::empty(),
        boxes: Seq::empty(),
        targets: Seq::empty(),
    }
}

/// A byte that continues a multi-byte character rather than starting one.
pub open spec fn is_continuation(x: u8) -> bool {
    0x80 <= x < 0xC0
}

/// The byte length of the row being scanned, a final carriage return left
/// out.
pub open spec fn row_width(s: Scan) -> int {
    if s.cr {
        s.len - 1
    } else {
        s.len
    }
}

/// `cells` with the cell of the scan's position added when `hit`.
pub open spec fn mark(s: Scan, hit: bool, cells: Seq<Cell>) -> Seq<Cell> {
    if s.row >= 0 && hit {
        cells.push(cell(s.row, s.col))
    } else {
        cells
    }
}

/// The scan after one more byte.
pub open spec fn scan_byte(s: Scan, x: u8) -> Scan {
    if x == 10 {
        Scan {
            row: s.row + 1,
            col: 0,
            len: 0,
            cr: false,
            cols: if s.row >= 0 && row_width(s) > s.cols { row_width(s) } else { s.cols },
            ..s
        }
    } else {
        Scan {
            col: if is_continuation(x) { s.col } else { s.col + 1 },
            len: s.len + 1,
            cr: x == 13,
            player: if s.row >= 0 && x == 48 { cell(s.row, s.col) } else { s.player },
            walls: mark(s, x == 47, s.walls),
            boxes: mark(s, x == 49, s.boxes),
            targets: mark(s, x == 50, s.targets),
            ..s
        }
    }
}

/// The scan after the first `n` bytes of `b`.
pub open spec fn scan(b: Seq<u8>, n: nat) -> Scan
    decreases n,
{
    if n == 0 {
        scan_start()
    } else {
        scan_byte(scan(b, (n - 1) as nat), b[n - 1])
    }
}

/// The text ends inside a row, with no line feed after it.
pub open spec fn open_tail(b: Seq<u8>) -> bool {
    b.len() > 0 && b.last() != 10
}

/// The number of grid rows: the lines after the first.
pub open spec fn level_rows(b: Seq<u8>) -> int {
    let s = scan(b, b.len());
    if open_tail(b) {
        s.row + 1
    } else if b.len() == 0 {
        0
    } else {
        s.row
    }
}

/// The grid width: the longest grid row in bytes, line ends left out. A
/// carriage return that ends the text stays in its row.
pub open spec fn level_cols(b: Seq<u8>) -> int {
    let s = scan(b, b.len());
    if open_tail(b) && s.row >= 0 && s.len > s.cols {
        s.len
    } else {
        s.cols
    }
}

spec fn fits(s: Scan, m: Cell) -> bool {
    &&& 0 <= m.0 <= s.row
    &&& 0 <= m.1
    &&& m.0 < s.row ==> m.1 < s.cols
    &&& m.0 == s.row ==> m.1 < row_width(s)
}

spec fn all_fit(s: Scan, cells: Seq<Cell>) -> bool {
    forall|k: int| 0 <= k < cells.len() ==> fits(s, #[trigger] cells[k])
}

/// `m` was read before the scan's position.
spec fn before(s: Scan, m: Cell) -> bool {
    m.0 < s.row || m.1 < s.col
}

spec fn all_before(s: Scan, cells: Seq<Cell>) -> bool {
    forall|k: int| 0 <= k < cells.len() ==> before(s, #[trigger] cells[k])
}

/// What the scan keeps true: counters in range, and every entity read so
/// far inside the rows and widths seen so far.
spec fn scan_ok(s: Scan, n: int) -> bool {
    &&& -1 <= s.row < n
    &&& 0 <= s.col <= s.len <= n
    &&& 0 <= s.cols <= n
    &&& s.cr ==> s.len >= 1
    &&& s.player == (0i32, 0i32) || fits(s, s.player)
    &&& all_fit(s, s.walls)
    &&& all_fit(s, s.boxes)
    &&& all_fit(s, s.targets)
    &&& all_before(s, s.walls) && s.walls.no_duplicates()
    &&& all_before(s, s.boxes) && s.boxes.no_duplicates()
    &&& all_before(s, s.targets) && s.targets.no_duplicates()
}

/// A mark at the scan's position keeps a list of earlier marks free of
/// repeats and earlier than the next position.
proof fn lemma_mark_fresh(s: Scan, t: Scan, hit: bool, cells: Seq<Cell>)
    requires
        all_before(s, cells),
        cells.no_duplicates(),
        -1 <= s.row <= i32::MAX,
        0 <= s.col < i32::MAX,
        t.row == s.row,
        t.col == s.col + 1,
    ensures
        all_before(t, mark(s, hit, cells)),
        mark(s, hit, cells).no_duplicates(),
{
    if s.row >= 0 && hit {
        let m = cell(s.row, s.col);
        assert(m.0 == s.row && m.1 == s.col);
        let c2 = cells.push(m);
        assert forall|a: int, b: int| 0 <= a < b < c2.len() implies c2[a] != c2[b] by {
            if b == cells.len() {
                assert(before(s, cells[a]));
            }
        }
    }
}

proof fn lemma_scan_ok(b: Seq<u8>, n: nat)
    requires
        n <= b.len(),
        b.len() <= i32::MAX,
    ensures
        scan_ok(scan(b, n), n as int),
    decreases n,
{
    if n > 0 {
        lemma_scan_ok(b, (n - 1) as nat);
        let s = scan(b, (n - 1) as nat);
        let t = scan(b, n);
        let x = b[n - 1];
        assert(t == scan_byte(s, x));
        if x == 10 {
            assert(forall|m: Cell| fits(s, m) ==> fits(t, m));
            assert(forall|m: Cell| before(s, m) && fits(s, m) ==> before(t, m));
        } else {
            assert(forall|m: Cell| fits(s, m) ==> fits(t, m));
            if s.row >= 0 && 47 <= x <= 50 {
                assert(cell(s.row, s.col).0 == s.row && cell(s.row, s.col).1 == s.col);
                assert(fits(t, cell(s.row, s.col)));
                lemma_mark_fresh(s, t, x == 47, s.walls);
                lemma_mark_fresh(s, t, x == 49, s.boxes);
                lemma_mark_fresh(s, t, x == 50, s.targets);
            } else {
                assert(forall|m: Cell| before(s, m) ==> before(t, m));
            }
        }
        assert(all_fit(t, t.walls));
        assert(all_fit(t, t.boxes));
        assert(all_fit(t, t.targets));
    }
}

impl GameState {
    /// Reads a level from its text. `None` when the text does not open
    /// with a dimension line, holds no box or no target, or has more cells
    /// than a `usize` can count.
    pub fn from_text(text: &str) -> (r: Option<GameState>)
        requires
            text.spec_bytes().len() <= i32::MAX,
        ensures
            ({
                let b = text.spec_bytes();
                let s = scan(b, b.len());
                match r {
                    Some(g) => {
                        &&& is_dim_line(first_line(b))
                        &&& s.boxes.len() > 0 && s.targets.len() > 0
                        &&& g@.player == s.player
                        &&& g@.boxes == s.boxes
                        &&& g@.targets == s.targets
                        &&& g@.walls == s.walls
                        &&& g@.map_size == (level_rows(b) as i32, level_cols(b) as i32)
                        &&& g@.wf()
                        &&& g@.dead_fits()
                        &&& g@.dead.no_duplicates()
                        &&& g@.route_fits()
                    },
                    None => !is_dim_line(first_line(b)) || s.boxes.len() == 0 || s.targets.len() == 0
                        || level_rows(b) * level_cols(b) > usize::MAX,
                }
            }),
    {
        let bytes = text.as_bytes();
        let ghost b = bytes@;
        if !has_dim_line(bytes) {
            return None;
        }
        let mut row: i64 = -1;
        let mut col: i64 = 0;
        let mut len: i64 = 0;
        let mut cr = false;
        let mut cols: i64 = 0;
        let mut player: Cell = (0, 0);
        let mut walls: Vec<Cell> = Vec::new();
        let mut boxes: Vec<Cell> = Vec::new();
        let mut targets: Vec<Cell> = Vec::new();
        let mut i: usize = 0;
        while i < bytes.len()
            invariant
                b == text.spec_bytes(),
                b == bytes@,
                b.len() <= i32::MAX,
                i <= b.len(),
                ({
                    let s = scan(b, i as nat);
                    &&& s.row == row && s.col == col && s.len == len && s.cr == cr && s.cols == cols
                    &&& s.player == player
                    &&& s.walls == walls@
                    &&& s.boxes == boxes@
                    &&& s.targets == targets@
                }),
            decreases b.len() - i,
        {
            proof {
                lemma_scan_ok(b, i as nat);
            }
            let x = bytes[i];
            if x == 10 {
                if row >= 0 {
                    let width = if cr { len - 1 } else { len };
                    if width > cols {
                        cols = width;
                    }
                }
                row = row + 1;
                col = 0;
                len = 0;
                cr = false;
            } else {
                if row >= 0 {
                    let here: Cell = (row as i32, col as i32);
                    if x == 47 {
                        walls.push(here);
                    } else if x == 48 {
                        player = here;
                    } else if x == 49 {
                        boxes.push(here);
                    } else if x == 50 {
                        targets.push(here);
                    }
                }
                if !(0x80 <= x && x < 0xC0) {
                    col = col + 1;
                }
                len = len + 1;
                cr = x == 13;
            }
            i += 1;
            assert(scan(b, i as nat) == scan_byte(scan(b, (i - 1) as nat), x));
        }
        proof {
            lemma_scan_ok(b, b.len());
        }
        let open_tail = bytes.len() > 0 && bytes[bytes.len() - 1] != 10;
        let rows: i64 = if open_tail {
            row + 1
        } else if bytes.len() == 0 {
            0
        } else {
            row
        };
        if open_tail && row >= 0 && len > cols {
            cols = len;
        }
        if boxes.len() == 0 || targets.len() == 0 {
            return None;
        }
        let ghost s = scan(b, b.len());
        let map_size: Cell = (rows as i32, cols as i32);
        proof {
            assert(fits(s, boxes@[0]));
            assert forall|m: Cell| fits(s, m) implies crate::grid::cell_in_bounds(map_size, m) by {
                if !open_tail && b.len() > 0 {
                    assert(row_width(s) == 0) by {
                        assert(scan(b, b.len()) == scan_byte(scan(b, (b.len() - 1) as nat), b[b.len() - 1]));
                    }
                }
            }
            assert(crate::grid::cell_in_bounds(map_size, player));
        }
        proof {
            let (rr, cc) = (rows as int, cols as int);
            assert(rr * cc <= 0x7fff_ffff * 0x7fff_ffff) by (nonlinear_arith)
                requires
                    0 <= rr <= 0x7fff_ffff,
                    0 <= cc <= 0x7fff_ffff,
            ;
        }
        if rows as u64 * cols as u64 > usize::MAX as u64 {
            return None;
        }
        Some(GameState::from_parts(player, boxes, targets, walls, map_size))
    }
}

} // verus!
