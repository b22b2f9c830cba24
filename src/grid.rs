//! The constrained grid: cell values plus per-row, per-column and per-square
//! occupancy masks that are kept in step with the cells.
use vstd::prelude::*;

use crate::bitmask::BitMask;

verus! {

/// Index of the 3x3 square that holds cell `(r, c)`, in row-major order.
pub open spec fn square_of(r: int, c: int) -> int {
    (r / 3) * 3 + c / 3
}

/// `g` is a 9x9 matrix of values in `0..=9`.
pub open spec fn shaped(g: Seq<Seq<u8>>) -> bool {
    &&& g.len() == 9
    &&& forall|r: int| 0 <= r < 9 ==> (#[trigger] g[r]).len() == 9
    &&& forall|r: int, c: int| 0 <= r < 9 && 0 <= c < 9 ==> #[trigger] g[r][c] <= 9
}

/// Row `r` of `g` holds `v`.
pub open spec fn row_has(g: Seq<Seq<u8>>, r: int, v: u8) -> bool {
    exists|c: int| 0 <= c < 9 && #[trigger] g[r][c] == v
}

/// Column `c` of `g` holds `v`.
pub open spec fn col_has(g: Seq<Seq<u8>>, c: int, v: u8) -> bool {
    exists|r: int| 0 <= r < 9 && #[trigger] g[r][c] == v
}

/// Square `s` of `g` holds `v`.
pub open spec fn square_has(g: Seq<Seq<u8>>, s: int, v: u8) -> bool {
    exists|r: int, c: int| 0 <= r < 9 && 0 <= c < 9 && square_of(r, c) == s && #[trigger] g[r][c] == v
}

/// `v` occurs neither in the row, nor in the column, nor in the square of `(r, c)`.
pub open spec fn can_place(g: Seq<Seq<u8>>, r: int, c: int, v: u8) -> bool {
    !row_has(g, r, v) && !col_has(g, c, v) && !square_has(g, square_of(r, c), v)
}

/// `g` with cell `(r, c)` replaced by `v`.
pub open spec fn place(g: Seq<Seq<u8>>, r: int, c: int, v: u8) -> Seq<Seq<u8>> {
    g.update(r, g[r].update(c, v))
}

/// No digit occurs twice in row `r`.
pub open spec fn row_distinct(g: Seq<Seq<u8>>, r: int) -> bool {
    forall|c1: int, c2: int|
        #![trigger g[r][c1], g[r][c2]]
        0 <= c1 < 9 && 0 <= c2 < 9 && c1 != c2 && g[r][c1] != 0 ==> g[r][c1] != g[r][c2]
}

/// No digit occurs twice in column `c`.
pub open spec fn col_distinct(g: Seq<Seq<u8>>, c: int) -> bool {
    forall|r1: int, r2: int|
        #![trigger g[r1][c], g[r2][c]]
        0 <= r1 < 9 && 0 <= r2 < 9 && r1 != r2 && g[r1][c] != 0 ==> g[r1][c] != g[r2][c]
}

/// No digit occurs twice in square `s`.
pub open spec fn square_distinct(g: Seq<Seq<u8>>, s: int) -> bool {
    forall|r1: int, c1: int, r2: int, c2: int|
        #![trigger g[r1][c1], g[r2][c2]]
        0 <= r1 < 9 && 0 <= c1 < 9 && 0 <= r2 < 9 && 0 <= c2 < 9 && (r1 != r2 || c1 != c2)
            && square_of(r1, c1) == s && square_of(r2, c2) == s && g[r1][c1] != 0 ==> g[r1][c1] != g[r2][c2]
}

/// Row of the `k`-th cell of square `s`, cells counted row by row.
pub open spec fn square_cell_row(s: int, k: int) -> int {
    (s / 3) * 3 + k / 3
}

/// Column of the `k`-th cell of square `s`, cells counted row by row.
pub open spec fn square_cell_col(s: int, k: int) -> int {
    (s % 3) * 3 + k % 3
}

/// The nine cells of square `s` are exactly the cells whose square is `s`.
pub proof fn lemma_square_cells(s: int)
    requires
        0 <= s < 9,
    ensures
        forall|k: int| 0 <= k < 9 ==> {
            let r = #[trigger] square_cell_row(s, k);
            let c = square_cell_col(s, k);
            0 <= r < 9 && 0 <= c < 9 && square_of(r, c) == s
        },
        forall|r: int, c: int| 0 <= r < 9 && 0 <= c < 9 && #[trigger] square_of(r, c) == s ==> {
            let k = (r % 3) * 3 + c % 3;
            0 <= k < 9 && square_cell_row(s, k) == r && square_cell_col(s, k) == c
        },
{
    lemma_third(s);
    assert forall|k: int| 0 <= k < 9 implies {
        let r = #[trigger] square_cell_row(s, k);
        let c = square_cell_col(s, k);
        0 <= r < 9 && 0 <= c < 9 && square_of(r, c) == s
    } by {
        lemma_third(k);
        lemma_third(square_cell_row(s, k));
        lemma_third(square_cell_col(s, k));
    }
    assert forall|r: int, c: int| 0 <= r < 9 && 0 <= c < 9 && #[trigger] square_of(r, c) == s implies {
        let k = (r % 3) * 3 + c % 3;
        0 <= k < 9 && square_cell_row(s, k) == r && square_cell_col(s, k) == c
    } by {
        lemma_third(r);
        lemma_third(c);
        lemma_third((r % 3) * 3 + c % 3);
    }
}

/// Quotient and remainder by 3 of a number below 9.
proof fn lemma_third(x: int)
    requires
        0 <= x < 9,
    ensures
        x / 3 == (if x < 3 { 0int } else if x < 6 { 1int } else { 2int }),
        x % 3 == x - 3 * (x / 3),
{
}

/// No digit occurs twice in a row.
pub open spec fn rows_distinct(g: Seq<Seq<u8>>) -> bool {
    forall|r: int, c1: int, c2: int|
        #![trigger g[r][c1], g[r][c2]]
        0 <= r < 9 && 0 <= c1 < 9 && 0 <= c2 < 9 && c1 != c2 && g[r][c1] != 0 ==> g[r][c1] != g[r][c2]
}

/// No digit occurs twice in a column.
pub open spec fn cols_distinct(g: Seq<Seq<u8>>) -> bool {
    forall|r1: int, r2: int, c: int|
        #![trigger g[r1][c], g[r2][c]]
        0 <= r1 < 9 && 0 <= r2 < 9 && 0 <= c < 9 && r1 != r2 && g[r1][c] != 0 ==> g[r1][c] != g[r2][c]
}

/// No digit occurs twice in a 3x3 square.
pub open spec fn squares_distinct(g: Seq<Seq<u8>>) -> bool {
    forall|r1: int, c1: int, r2: int, c2: int|
        #![trigger g[r1][c1], g[r2][c2]]
        0 <= r1 < 9 && 0 <= c1 < 9 && 0 <= r2 < 9 && 0 <= c2 < 9 && (r1 != r2 || c1 != c2)
            && square_of(r1, c1) == square_of(r2, c2) && g[r1][c1] != 0 ==> g[r1][c1] != g[r2][c2]
}

/// No digit occurs twice in any row, column or square.
pub open spec fn valid(g: Seq<Seq<u8>>) -> bool {
    rows_distinct(g) && cols_distinct(g) && squares_distinct(g)
}

/// A Sudoku grid: a 9x9 matrix of cells, each a digit `1..=9` or 0 when empty,
/// with masks of the digits present in each row, column and square.
#[derive(Debug)]
pub struct SudokuGrid {
    cells: [[u8; 9]; 9],
    rows: [BitMask; 9],
    cols: [BitMask; 9],
    squares: [BitMask; 9],
}

impl View for SudokuGrid {
    type V = Seq<Seq<u8>>;

    closed spec fn view(&self) -> Seq<Seq<u8>> {
        Seq::new(9, |r: int| self.cells[r]@)
    }
}

impl SudokuGrid {
    /// The mask of digits present in row `i`.
    pub closed spec fn row_mask(&self, i: int) -> BitMask {
        self.rows[i]
    }

    /// The mask of digits present in column `i`.
    pub closed spec fn col_mask(&self, i: int) -> BitMask {
        self.cols[i]
    }

    /// The mask of digits present in square `i`.
    pub closed spec fn square_mask(&self, i: int) -> BitMask {
        self.squares[i]
    }

    /// Each mask records exactly the digits present in its row, column or square
    /// (bit `d` for digit `d + 1`), and no bit above the ninth.
    pub open spec fn occupancy_ok(&self) -> bool {
        &&& forall|i: int| 0 <= i < 9 ==> (#[trigger] self.row_mask(i)).wf()
        &&& forall|i: int| 0 <= i < 9 ==> (#[trigger] self.col_mask(i)).wf()
        &&& forall|i: int| 0 <= i < 9 ==> (#[trigger] self.square_mask(i)).wf()
        &&& forall|i: int, d: u16| 0 <= i < 9 && d < 9 ==>
            (#[trigger] self.row_mask(i).has(d) <==> row_has(self@, i, (d + 1) as u8))
        &&& forall|i: int, d: u16| 0 <= i < 9 && d < 9 ==>
            (#[trigger] self.col_mask(i).has(d) <==> col_has(self@, i, (d + 1) as u8))
        &&& forall|i: int, d: u16| 0 <= i < 9 && d < 9 ==>
            (#[trigger] self.square_mask(i).has(d) <==> square_has(self@, i, (d + 1) as u8))
    }

    /// The grid's invariant: a 9x9 matrix of values `0..=9` with no repeated
    /// digit in a group, whose masks agree with its cells.
    pub open spec fn wf(&self) -> bool {
        shaped(self@) && valid(self@) && self.occupancy_ok()
    }

    /// An empty grid.
    pub fn new() -> (r: Self)
        ensures
            r.wf(),
            forall|i: int, j: int| 0 <= i < 9 && 0 <= j < 9 ==> #[trigger] r@[i][j] == 0,
    {
        let m = BitMask::new();
        let r = SudokuGrid { cells: [[0u8; 9]; 9], rows: [m; 9], cols: [m; 9], squares: [m; 9] };
        assert(forall|i: int, j: int| 0 <= i < 9 && 0 <= j < 9 ==> #[trigger] r@[i][j] == 0);
        r
    }

    /// The value of cell `(row, col)`, 0 when it is empty.
    pub fn at(&self, row: usize, col: usize) -> (r: u8)
        requires
            row < 9,
            col < 9,
        ensures
            r == self@[row as int][col as int],
    {
        self.cells[row][col]
    }

    /// Places `value` at `(row, col)` unless it already occurs in that cell's
    /// row, column or square; returns whether it was placed. When it was not,
    /// the grid is unchanged. The cell must be empty, or the placement refused.
    #[must_use]
    pub fn set(&mut self, row: usize, col: usize, value: u8) -> (r: bool)
        requires
            old(self).wf(),
            row < 9,
            col < 9,
            1 <= value <= 9,
            old(self)@[row as int][col as int] == 0 || !can_place(old(self)@, row as int, col as int, value),
        ensures
            final(self).wf(),
            r == can_place(old(self)@, row as int, col as int, value),
            r ==> final(self)@ == place(old(self)@, row as int, col as int, value),
            !r ==> *final(self) == *old(self),
    {
        let square = (row / 3) * 3 + col / 3;
        let bit = value - 1;
        proof {
            assert(self.row_mask(row as int) == self.rows[row as int]);
            assert(self.col_mask(col as int) == self.cols[col as int]);
            assert(self.square_mask(square as int) == self.squares[square as int]);
        }
        if self.rows[row].is_set(bit) || self.cols[col].is_set(bit) || self.squares[square].is_set(bit) {
            return false;
        }
        let ghost g0 = self@;
        let ghost s0 = *self;
        let mut line = self.cells[row];
        line[col] = value;
        self.cells[row] = line;
        let mut m = self.rows[row];
        m.set(bit);
        self.rows[row] = m;
        let mut m = self.cols[col];
        m.set(bit);
        self.cols[col] = m;
        let mut m = self.squares[square];
        m.set(bit);
        self.squares[square] = m;
        proof {
            let r = row as int;
            let c = col as int;
            let g = self@;
            assert(g =~= place(g0, r, c, value));
            assert forall|i: int, d: u16| 0 <= i < 9 && d < 9 implies
                (#[trigger] self.row_mask(i).has(d) <==> row_has(g, i, (d + 1) as u8)) by {
                assert(self.row_mask(i) == self.rows[i] && s0.row_mask(i) == s0.rows[i]);
                assert(s0.row_mask(i).has(d) <==> row_has(g0, i, (d + 1) as u8));
                if row_has(g, i, (d + 1) as u8) {
                    let c2 = choose|c2: int| 0 <= c2 < 9 && #[trigger] g[i][c2] == (d + 1) as u8;
                    if !(i == r && c2 == c) {
                        assert(g0[i][c2] == g[i][c2]);
                    }
                }
                if row_has(g0, i, (d + 1) as u8) {
                    let c2 = choose|c2: int| 0 <= c2 < 9 && #[trigger] g0[i][c2] == (d + 1) as u8;
                    assert(g[i][c2] == g0[i][c2]);
                }
                if i == r && d == bit as u16 {
                    assert(g[r][c] == value);
                }
            }
            assert forall|i: int, d: u16| 0 <= i < 9 && d < 9 implies
                (#[trigger] self.col_mask(i).has(d) <==> col_has(g, i, (d + 1) as u8)) by {
                assert(self.col_mask(i) == self.cols[i] && s0.col_mask(i) == s0.cols[i]);
                assert(s0.col_mask(i).has(d) <==> col_has(g0, i, (d + 1) as u8));
                if col_has(g, i, (d + 1) as u8) {
                    let r2 = choose|r2: int| 0 <= r2 < 9 && #[trigger] g[r2][i] == (d + 1) as u8;
                    if !(i == c && r2 == r) {
                        assert(g0[r2][i] == g[r2][i]);
                    }
                }
                if col_has(g0, i, (d + 1) as u8) {
                    let r2 = choose|r2: int| 0 <= r2 < 9 && #[trigger] g0[r2][i] == (d + 1) as u8;
                    assert(g[r2][i] == g0[r2][i]);
                }
                if i == c && d == bit as u16 {
                    assert(g[r][c] == value);
                }
            }
            assert forall|i: int, d: u16| 0 <= i < 9 && d < 9 implies
                (#[trigger] self.square_mask(i).has(d) <==> square_has(g, i, (d + 1) as u8)) by {
                assert(self.square_mask(i) == self.squares[i] && s0.square_mask(i) == s0.squares[i]);
                assert(s0.square_mask(i).has(d) <==> square_has(g0, i, (d + 1) as u8));
                if square_has(g, i, (d + 1) as u8) {
                    let (r2, c2) = choose|r2: int, c2: int| 0 <= r2 < 9 && 0 <= c2 < 9 && square_of(r2, c2) == i
                        && #[trigger] g[r2][c2] == (d + 1) as u8;
                    if !(r2 == r && c2 == c) {
                        assert(g0[r2][c2] == g[r2][c2]);
                    }
                }
                if square_has(g0, i, (d + 1) as u8) {
                    let (r2, c2) = choose|r2: int, c2: int| 0 <= r2 < 9 && 0 <= c2 < 9 && square_of(r2, c2) == i
                        && #[trigger] g0[r2][c2] == (d + 1) as u8;
                    assert(g[r2][c2] == g0[r2][c2]);
                }
                if i == square as int && d == bit as u16 {
                    assert(g[r][c] == value);
                }
            }
            assert(shaped(g));
            assert forall|i: int| 0 <= i < 9 implies (#[trigger] self.row_mask(i)).wf() by {
                assert(self.row_mask(i) == self.rows[i] && s0.row_mask(i) == s0.rows[i]);
                assert(s0.row_mask(i).wf());
            }
            assert forall|i: int| 0 <= i < 9 implies (#[trigger] self.col_mask(i)).wf() by {
                assert(self.col_mask(i) == self.cols[i] && s0.col_mask(i) == s0.cols[i]);
                assert(s0.col_mask(i).wf());
            }
            assert forall|i: int| 0 <= i < 9 implies (#[trigger] self.square_mask(i)).wf() by {
                assert(self.square_mask(i) == self.squares[i] && s0.square_mask(i) == s0.squares[i]);
                assert(s0.square_mask(i).wf());
            }
            assert(valid(g)) by {
                assert forall|i: int, c1: int, c2: int|
                    #![trigger g[i][c1], g[i][c2]]
                    0 <= i < 9 && 0 <= c1 < 9 && 0 <= c2 < 9 && c1 != c2 && g[i][c1] != 0 implies g[i][c1] != g[i][c2] by {
                    if i == r && (c1 == c || c2 == c) {
                        assert(g0[i][c1] == g[i][c1] || g0[i][c2] == g[i][c2]);
                    }
                }
                assert forall|r1: int, r2: int, j: int|
                    #![trigger g[r1][j], g[r2][j]]
                    0 <= r1 < 9 && 0 <= r2 < 9 && 0 <= j < 9 && r1 != r2 && g[r1][j] != 0 implies g[r1][j] != g[r2][j] by {
                    if j == c && (r1 == r || r2 == r) {
                        assert(g0[r1][j] == g[r1][j] || g0[r2][j] == g[r2][j]);
                    }
                }
                assert forall|r1: int, c1: int, r2: int, c2: int|
                    #![trigger g[r1][c1], g[r2][c2]]
                    0 <= r1 < 9 && 0 <= c1 < 9 && 0 <= r2 < 9 && 0 <= c2 < 9 && (r1 != r2 || c1 != c2)
                        && square_of(r1, c1) == square_of(r2, c2) && g[r1][c1] != 0 implies g[r1][c1] != g[r2][c2] by {
                    if (r1 == r && c1 == c) || (r2 == r && c2 == c) {
                        assert(g0[r1][c1] == g[r1][c1] || g0[r2][c2] == g[r2][c2]);
                    }
                }
            }
        }
        true
    }

    /// The cells of a well-formed grid decide its masks: two well-formed grids
    /// with the same cells are the same grid.
    pub proof fn lemma_cells_decide(a: Self, b: Self)
        requires
            a.wf(),
            b.wf(),
            a@ == b@,
        ensures
            a == b,
    {
        assert forall|i: int| 0 <= i < 9 implies a.rows[i] == b.rows[i] by {
            assert forall|d: u16| d < 9 implies #[trigger] a.row_mask(i).has(d) == b.row_mask(i).has(d) by {}
            BitMask::lemma_same_bits(a.row_mask(i), b.row_mask(i));
        }
        assert forall|i: int| 0 <= i < 9 implies a.cols[i] == b.cols[i] by {
            assert forall|d: u16| d < 9 implies #[trigger] a.col_mask(i).has(d) == b.col_mask(i).has(d) by {}
            BitMask::lemma_same_bits(a.col_mask(i), b.col_mask(i));
        }
        assert forall|i: int| 0 <= i < 9 implies a.squares[i] == b.squares[i] by {
            assert forall|d: u16| d < 9 implies #[trigger] a.square_mask(i).has(d) == b.square_mask(i).has(d) by {}
            BitMask::lemma_same_bits(a.square_mask(i), b.square_mask(i));
        }
        assert(a.rows =~= b.rows);
        assert(a.cols =~= b.cols);
        assert(a.squares =~= b.squares);
        assert forall|i: int| 0 <= i < 9 implies a.cells[i] == b.cells[i] by {
            assert(a@[i] == b@[i]);
            assert(a.cells[i] =~= b.cells[i]);
        }
        assert(a.cells =~= b.cells);
    }

    /// Placing a digit in an empty cell with `set` and then clearing that cell
    /// with `unset` gives back the grid as it was: its cells and all of its masks.
    pub proof fn lemma_set_unset_round_trip(g0: Self, g1: Self, g2: Self, row: int, col: int, value: u8)
        requires
            g0.wf(),
            0 <= row < 9,
            0 <= col < 9,
            1 <= value <= 9,
            g0@[row][col] == 0,
            can_place(g0@, row, col, value),
            g1.wf(),
            g1@ == place(g0@, row, col, value),
            g2.wf(),
            g2@ == place(g1@, row, col, 0),
        ensures
            g2 == g0,
    {
        assert(g2@[row] =~= g0@[row]);
        assert(g2@ =~= g0@);
        Self::lemma_cells_decide(g2, g0);
    }

    /// Whether no digit occurs twice in any row, column or square. This scans
    /// the cells alone, not the masks.
    pub fn is_valid(&self) -> (r: bool)
        requires
            shaped(self@),
        ensures
            r == valid(self@),
    {
        let mut i: usize = 0;
        while i < 9
            invariant
                i <= 9,
                shaped(self@),
                forall|k: int| 0 <= k < i ==> row_distinct(self@, k),
                forall|k: int| 0 <= k < i ==> col_distinct(self@, k),
                forall|k: int| 0 <= k < i ==> square_distinct(self@, k),
            decreases 9 - i,
        {
            if !self.is_valid_row(i) || !self.is_valid_col(i) || !self.is_valid_square(i) {
                proof {
                    let g = self@;
                    if !row_distinct(g, i as int) {
                        let (c1, c2) = choose|c1: int, c2: int|
                            0 <= c1 < 9 && 0 <= c2 < 9 && c1 != c2 && g[i as int][c1] != 0 && #[trigger] g[i as int][c1] == #[trigger] g[i as int][c2];
                        assert(!rows_distinct(g));
                    } else if !col_distinct(g, i as int) {
                        let (r1, r2) = choose|r1: int, r2: int|
                            0 <= r1 < 9 && 0 <= r2 < 9 && r1 != r2 && g[r1][i as int] != 0 && #[trigger] g[r1][i as int] == #[trigger] g[r2][i as int];
                        assert(!cols_distinct(g));
                    } else {
                        let (r1, c1, r2, c2) = choose|r1: int, c1: int, r2: int, c2: int|
                            0 <= r1 < 9 && 0 <= c1 < 9 && 0 <= r2 < 9 && 0 <= c2 < 9 && (r1 != r2 || c1 != c2)
                            && square_of(r1, c1) == i && square_of(r2, c2) == i && g[r1][c1] != 0
                            && #[trigger] g[r1][c1] == #[trigger] g[r2][c2];
                        assert(!squares_distinct(g));
                    }
                }
                return false;
            }
            i += 1;
        }
        proof {
            let g = self@;
            assert forall|r1: int, c1: int, r2: int, c2: int|
                #![trigger g[r1][c1], g[r2][c2]]
                0 <= r1 < 9 && 0 <= c1 < 9 && 0 <= r2 < 9 && 0 <= c2 < 9 && (r1 != r2 || c1 != c2)
                    && square_of(r1, c1) == square_of(r2, c2) && g[r1][c1] != 0 implies g[r1][c1] != g[r2][c2] by {
                lemma_third(r1);
                lemma_third(c1);
                assert(square_distinct(g, square_of(r1, c1)));
            }
            assert forall|r: int, c1: int, c2: int|
                #![trigger g[r][c1], g[r][c2]]
                0 <= r < 9 && 0 <= c1 < 9 && 0 <= c2 < 9 && c1 != c2 && g[r][c1] != 0 implies g[r][c1] != g[r][c2] by {
                assert(row_distinct(g, r));
            }
            assert forall|r1: int, r2: int, c: int|
                #![trigger g[r1][c], g[r2][c]]
                0 <= r1 < 9 && 0 <= r2 < 9 && 0 <= c < 9 && r1 != r2 && g[r1][c] != 0 implies g[r1][c] != g[r2][c] by {
                assert(col_distinct(g, c));
            }
        }
        true
    }

    fn is_valid_row(&self, row: usize) -> (r: bool)
        requires
            shaped(self@),
            row < 9,
        ensures
            r == row_distinct(self@, row as int),
    {
        let ghost g = self@;
        let ghost rr = row as int;
        let mut seen = [false; 9];
        let mut i: usize = 0;
        while i < 9
            invariant
                i <= 9,
                g == self@,
                shaped(g),
                rr == row,
                rr < 9,
                forall|d: int| 0 <= d < 9 ==> (#[trigger] seen[d] <==> exists|c: int| 0 <= c < i && #[trigger] g[rr][c] == d + 1),
                forall|c1: int, c2: int|
                    #![trigger g[rr][c1], g[rr][c2]]
                    0 <= c1 < i && 0 <= c2 < i && c1 != c2 && g[rr][c1] != 0 ==> g[rr][c1] != g[rr][c2],
            decreases 9 - i,
        {
            let value = self.at(row, i);
            if value != 0 {
                let index = (value - 1) as usize;
                if seen[index] {
                    proof {
                        let c = choose|c: int| 0 <= c < i && #[trigger] g[rr][c] == index + 1;
                        assert(g[rr][c] == g[rr][i as int]);
                    }
                    return false;
                }
                seen[index] = true;
            }
            i += 1;
        }
        true
    }

    fn is_valid_col(&self, col: usize) -> (r: bool)
        requires
            shaped(self@),
            col < 9,
        ensures
            r == col_distinct(self@, col as int),
    {
        let ghost g = self@;
        let ghost cc = col as int;
        let mut seen = [false; 9];
        let mut i: usize = 0;
        while i < 9
            invariant
                i <= 9,
                g == self@,
                shaped(g),
                cc == col,
                cc < 9,
                forall|d: int| 0 <= d < 9 ==> (#[trigger] seen[d] <==> exists|r: int| 0 <= r < i && #[trigger] g[r][cc] == d + 1),
                forall|r1: int, r2: int|
                    #![trigger g[r1][cc], g[r2][cc]]
                    0 <= r1 < i && 0 <= r2 < i && r1 != r2 && g[r1][cc] != 0 ==> g[r1][cc] != g[r2][cc],
            decreases 9 - i,
        {
            let value = self.at(i, col);
            if value != 0 {
                let index = (value - 1) as usize;
                if seen[index] {
                    proof {
                        let r = choose|r: int| 0 <= r < i && #[trigger] g[r][cc] == index + 1;
                        assert(g[r][cc] == g[i as int][cc]);
                    }
                    return false;
                }
                seen[index] = true;
            }
            i += 1;
        }
        true
    }

    fn is_valid_square(&self, square: usize) -> (r: bool)
        requires
            shaped(self@),
            square < 9,
        ensures
            r == square_distinct(self@, square as int),
    {
        let ghost g = self@;
        let ghost s = square as int;
        proof {
            lemma_square_cells(s);
        }
        let start_row = (square / 3) * 3;
        let start_col = (square % 3) * 3;
        let mut seen = [false; 9];
        let mut k: usize = 0;
        while k < 9
            invariant
                k <= 9,
                g == self@,
                shaped(g),
                s == square,
                s < 9,
                start_row == (s / 3) * 3,
                start_col == (s % 3) * 3,
                forall|k1: int| 0 <= k1 < 9 ==> {
                    let r = #[trigger] square_cell_row(s, k1);
                    let c = square_cell_col(s, k1);
                    0 <= r < 9 && 0 <= c < 9 && square_of(r, c) == s
                },
                forall|d: int| 0 <= d < 9 ==> (#[trigger] seen[d] <==> exists|k1: int| 0 <= k1 < k
                    && #[trigger] g[square_cell_row(s, k1)][square_cell_col(s, k1)] == d + 1),
                forall|k1: int, k2: int|
                    #![trigger g[square_cell_row(s, k1)][square_cell_col(s, k1)], g[square_cell_row(s, k2)][square_cell_col(s, k2)]]
                    0 <= k1 < k && 0 <= k2 < k && k1 != k2 && g[square_cell_row(s, k1)][square_cell_col(s, k1)] != 0
                    ==> g[square_cell_row(s, k1)][square_cell_col(s, k1)] != g[square_cell_row(s, k2)][square_cell_col(s, k2)],
            decreases 9 - k,
        {
            let value = self.at(start_row + k / 3, start_col + k % 3);
            assert(value == g[square_cell_row(s, k as int)][square_cell_col(s, k as int)]);
            if value != 0 {
                let index = (value - 1) as usize;
                if seen[index] {
                    proof {
                        let k1 = choose|k1: int| 0 <= k1 < k && #[trigger] g[square_cell_row(s, k1)][square_cell_col(s, k1)] == index + 1;
                        let ki = k as int;
                        assert(square_cell_row(s, k1) != square_cell_row(s, ki) || square_cell_col(s, k1) != square_cell_col(s, ki));
                        assert(g[square_cell_row(s, k1)][square_cell_col(s, k1)] == g[square_cell_row(s, ki)][square_cell_col(s, ki)]);
                    }
                    return false;
                }
                seen[index] = true;
            }
            k += 1;
        }
        proof {
            assert forall|r1: int, c1: int, r2: int, c2: int|
                #![trigger g[r1][c1], g[r2][c2]]
                0 <= r1 < 9 && 0 <= c1 < 9 && 0 <= r2 < 9 && 0 <= c2 < 9 && (r1 != r2 || c1 != c2)
                    && square_of(r1, c1) == s && square_of(r2, c2) == s && g[r1][c1] != 0 implies g[r1][c1] != g[r2][c2] by {
                let k1 = (r1 % 3) * 3 + c1 % 3;
                let k2 = (r2 % 3) * 3 + c2 % 3;
                assert(square_cell_row(s, k1) == r1 && square_cell_col(s, k1) == c1);
                assert(square_cell_row(s, k2) == r2 && square_cell_col(s, k2) == c2);
            }
        }
        true
    }

    /// Empties cell `(row, col)`, removing its digit from the masks; an empty
    /// cell is left as it is.
    pub fn unset(&mut self, row: usize, col: usize)
        requires
            old(self).wf(),
            row < 9,
            col < 9,
        ensures
            final(self).wf(),
            final(self)@ == place(old(self)@, row as int, col as int, 0),
            old(self)@[row as int][col as int] == 0 ==> *final(self) == *old(self),
    {
        let value = self.cells[row][col];
        assert(self@[row as int][col as int] == value);
        if value == 0 {
            proof {
                assert(self@[row as int] =~= self@[row as int].update(col as int, 0));
                assert(self@ =~= place(self@, row as int, col as int, 0));
            }
            return;
        }
        let ghost g0 = self@;
        let ghost s0 = *self;
        let square = (row / 3) * 3 + col / 3;
        let bit = value - 1;
        proof {
            assert(self.row_mask(row as int) == self.rows[row as int]);
            assert(self.col_mask(col as int) == self.cols[col as int]);
            assert(self.square_mask(square as int) == self.squares[square as int]);
        }
        let mut m = self.rows[row];
        m.clear(bit);
        self.rows[row] = m;
        let mut m = self.cols[col];
        m.clear(bit);
        self.cols[col] = m;
        let mut m = self.squares[square];
        m.clear(bit);
        self.squares[square] = m;
        let mut line = self.cells[row];
        line[col] = 0;
        self.cells[row] = line;
        proof {
            let r = row as int;
            let c = col as int;
            let g = self@;
            assert(g =~= place(g0, r, c, 0));
            assert forall|i: int, d: u16| 0 <= i < 9 && d < 9 implies
                (#[trigger] self.row_mask(i).has(d) <==> row_has(g, i, (d + 1) as u8)) by {
                assert(self.row_mask(i) == self.rows[i] && s0.row_mask(i) == s0.rows[i]);
                assert(s0.row_mask(i).has(d) <==> row_has(g0, i, (d + 1) as u8));
                if row_has(g, i, (d + 1) as u8) {
                    let c2 = choose|c2: int| 0 <= c2 < 9 && #[trigger] g[i][c2] == (d + 1) as u8;
                    assert(g0[i][c2] == g[i][c2]);
                    if i == r && d == bit as u16 {
                        assert(g0[r][c] == g0[r][c2]);
                    }
                }
                if row_has(g0, i, (d + 1) as u8) && !(i == r && d == bit as u16) {
                    let c2 = choose|c2: int| 0 <= c2 < 9 && #[trigger] g0[i][c2] == (d + 1) as u8;
                    assert(g[i][c2] == g0[i][c2]);
                }
            }
            assert forall|i: int, d: u16| 0 <= i < 9 && d < 9 implies
                (#[trigger] self.col_mask(i).has(d) <==> col_has(g, i, (d + 1) as u8)) by {
                assert(self.col_mask(i) == self.cols[i] && s0.col_mask(i) == s0.cols[i]);
                assert(s0.col_mask(i).has(d) <==> col_has(g0, i, (d + 1) as u8));
                if col_has(g, i, (d + 1) as u8) {
                    let r2 = choose|r2: int| 0 <= r2 < 9 && #[trigger] g[r2][i] == (d + 1) as u8;
                    assert(g0[r2][i] == g[r2][i]);
                    if i == c && d == bit as u16 {
                        assert(g0[r][c] == g0[r2][c]);
                    }
                }
                if col_has(g0, i, (d + 1) as u8) && !(i == c && d == bit as u16) {
                    let r2 = choose|r2: int| 0 <= r2 < 9 && #[trigger] g0[r2][i] == (d + 1) as u8;
                    assert(g[r2][i] == g0[r2][i]);
                }
            }
            assert forall|i: int, d: u16| 0 <= i < 9 && d < 9 implies
                (#[trigger] self.square_mask(i).has(d) <==> square_has(g, i, (d + 1) as u8)) by {
                assert(self.square_mask(i) == self.squares[i] && s0.square_mask(i) == s0.squares[i]);
                assert(s0.square_mask(i).has(d) <==> square_has(g0, i, (d + 1) as u8));
                if square_has(g, i, (d + 1) as u8) {
                    let (r2, c2) = choose|r2: int, c2: int| 0 <= r2 < 9 && 0 <= c2 < 9 && square_of(r2, c2) == i
                        && #[trigger] g[r2][c2] == (d + 1) as u8;
                    assert(g0[r2][c2] == g[r2][c2]);
                    if i == square as int && d == bit as u16 {
                        assert(g0[r][c] == g0[r2][c2]);
                    }
                }
                if square_has(g0, i, (d + 1) as u8) && !(i == square as int && d == bit as u16) {
                    let (r2, c2) = choose|r2: int, c2: int| 0 <= r2 < 9 && 0 <= c2 < 9 && square_of(r2, c2) == i
                        && #[trigger] g0[r2][c2] == (d + 1) as u8;
                    assert(g[r2][c2] == g0[r2][c2]);
                }
            }
            assert(shaped(g));
            assert forall|i: int| 0 <= i < 9 implies (#[trigger] self.row_mask(i)).wf() by {
                assert(self.row_mask(i) == self.rows[i] && s0.row_mask(i) == s0.rows[i]);
                assert(s0.row_mask(i).wf());
            }
            assert forall|i: int| 0 <= i < 9 implies (#[trigger] self.col_mask(i)).wf() by {
                assert(self.col_mask(i) == self.cols[i] && s0.col_mask(i) == s0.cols[i]);
                assert(s0.col_mask(i).wf());
            }
            assert forall|i: int| 0 <= i < 9 implies (#[trigger] self.square_mask(i)).wf() by {
                assert(self.square_mask(i) == self.squares[i] && s0.square_mask(i) == s0.squares[i]);
                assert(s0.square_mask(i).wf());
            }
            assert(valid(g)) by {
                assert forall|i: int, c1: int, c2: int|
                    #![trigger g[i][c1], g[i][c2]]
                    0 <= i < 9 && 0 <= c1 < 9 && 0 <= c2 < 9 && c1 != c2 && g[i][c1] != 0 implies g[i][c1] != g[i][c2] by {
                    assert(g0[i][c1] == g[i][c1]);
                }
                assert forall|r1: int, r2: int, j: int|
                    #![trigger g[r1][j], g[r2][j]]
                    0 <= r1 < 9 && 0 <= r2 < 9 && 0 <= j < 9 && r1 != r2 && g[r1][j] != 0 implies g[r1][j] != g[r2][j] by {
                    assert(g0[r1][j] == g[r1][j]);
                }
                assert forall|r1: int, c1: int, r2: int, c2: int|
                    #![trigger g[r1][c1], g[r2][c2]]
                    0 <= r1 < 9 && 0 <= c1 < 9 && 0 <= r2 < 9 && 0 <= c2 < 9 && (r1 != r2 || c1 != c2)
                        && square_of(r1, c1) == square_of(r2, c2) && g[r1][c1] != 0 implies g[r1][c1] != g[r2][c2] by {
                    assert(g0[r1][c1] == g[r1][c1]);
                }
            }
        }
    }
}

} // verus!
