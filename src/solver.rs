//! Depth-first backtracking search over the empty cells of a grid.
use vstd::prelude::*;

use crate::grid::{can_place, col_has, place, row_has, shaped, square_has, square_of, valid, SudokuGrid};

verus! {

/// Every cell of `g` holds a digit.
pub open spec fn is_full(g: Seq<Seq<u8>>) -> bool {
    forall|r: int, c: int| 0 <= r < 9 && 0 <= c < 9 ==> #[trigger] g[r][c] != 0
}

/// `sol` agrees with every non-empty cell of `g`.
pub open spec fn extends(sol: Seq<Seq<u8>>, g: Seq<Seq<u8>>) -> bool {
    forall|r: int, c: int| 0 <= r < 9 && 0 <= c < 9 && #[trigger] g[r][c] != 0 ==> sol[r][c] == g[r][c]
}

/// `sol` is a complete, valid grid that keeps the digits of `g`.
pub open spec fn is_solution(g: Seq<Seq<u8>>, sol: Seq<Seq<u8>>) -> bool {
    shaped(sol) && is_full(sol) && valid(sol) && extends(sol, g)
}

/// Some solution of `g` exists.
pub open spec fn solvable(g: Seq<Seq<u8>>) -> bool {
    exists|sol: Seq<Seq<u8>>| is_solution(g, sol)
}

/// The number of empty cells of `g` at flat positions `k..81` (row-major).
pub open spec fn empties_from(g: Seq<Seq<u8>>, k: int) -> nat
    decreases 81 - k,
{
    if 0 <= k < 81 {
        (if g[k / 9][k % 9] == 0 { 1nat } else { 0nat }) + empties_from(g, k + 1)
    } else {
        0
    }
}

/// Filling an empty cell removes one empty cell from every count that covers it.
proof fn lemma_fill_empty(g: Seq<Seq<u8>>, r: int, c: int, v: u8, k: int)
    requires
        shaped(g),
        0 <= r < 9,
        0 <= c < 9,
        g[r][c] == 0,
        v != 0,
        0 <= k <= 81,
    ensures
        empties_from(place(g, r, c, v), k) + (if k <= r * 9 + c { 1int } else { 0int }) == empties_from(g, k),
    decreases 81 - k,
{
    if k < 81 {
        lemma_fill_empty(g, r, c, v, k + 1);
        assert(k / 9 == r && k % 9 == c <==> k == r * 9 + c);
    }
}

/// A solver that takes ownership of a grid and searches for a completion.
pub struct Solver {
    grid: SudokuGrid,
}

impl Solver {
    /// The grid that the solver was given.
    pub closed spec fn puzzle(&self) -> SudokuGrid {
        self.grid
    }

    /// A solver for `grid`, which it owns until `solve` hands a grid back.
    pub fn new(grid: SudokuGrid) -> (r: Self)
        requires
            grid.wf(),
        ensures
            r.puzzle() == grid,
    {
        Self { grid }
    }

    /// Fills the empty cells depth-first, trying digits in ascending order at
    /// the first empty cell and undoing a placement when nothing fits after it.
    /// Returns whether a solution was found; the grid then holds it, and
    /// otherwise holds what it held before.
    fn search(&mut self) -> (found: bool)
        requires
            old(self).grid.wf(),
        ensures
            final(self).grid.wf(),
            found == solvable(old(self).grid@),
            found ==> is_solution(old(self).grid@, final(self).grid@),
            !found ==> final(self).grid@ == old(self).grid@,
            is_full(old(self).grid@) ==> *final(self) == *old(self),
        decreases empties_from(old(self).grid@, 0),
    {
        let ghost g0 = self.grid@;
        match self.choose_empty_cell() {
            None => {
                let ok = self.grid.is_valid();
                proof {
                    if ok {
                        assert(is_solution(g0, g0));
                    } else if solvable(g0) {
                        let sol = choose|sol: Seq<Seq<u8>>| is_solution(g0, sol);
                        assert forall|r: int| 0 <= r < 9 implies sol[r] =~= g0[r] by {
                            assert forall|c: int| 0 <= c < 9 implies sol[r][c] == g0[r][c] by {
                                assert(g0[r][c] != 0);
                            }
                        }
                        assert(sol =~= g0);
                    }
                }
                ok
            },
            Some((row, col)) => {
                let ghost r = row as int;
                let ghost c = col as int;
                let mut value: u8 = 1;
                while value <= 9
                    invariant
                        1 <= value <= 10,
                        self.grid.wf(),
                        self.grid@ == g0,
                        shaped(g0),
                        r == row,
                        c == col,
                        0 <= r < 9,
                        0 <= c < 9,
                        g0[r][c] == 0,
                        empties_from(g0, 0) == empties_from(old(self).grid@, 0),
                        g0 == old(self).grid@,
                        forall|sol: Seq<Seq<u8>>| #[trigger] is_solution(g0, sol) ==> sol[r][c] >= value,
                    decreases 10 - value,
                {
                    let ghost g1 = place(g0, r, c, value);
                    if self.grid.set(row, col, value) {
                        proof {
                            lemma_fill_empty(g0, r, c, value, 0);
                        }
                        if self.search() {
                            proof {
                                let sol = self.grid@;
                                assert forall|i: int, j: int| 0 <= i < 9 && 0 <= j < 9 && #[trigger] g0[i][j] != 0 implies sol[i][j] == g0[i][j] by {
                                    assert(g1[i][j] == g0[i][j]);
                                }
                                assert(is_solution(g0, sol));
                            }
                            return true;
                        }
                        self.grid.unset(row, col);
                        proof {
                            assert(self.grid@ =~= g0) by {
                                assert forall|i: int| 0 <= i < 9 implies self.grid@[i] =~= g0[i] by {}
                            }
                            assert forall|sol: Seq<Seq<u8>>| #[trigger] is_solution(g0, sol) implies sol[r][c] != value by {
                                if sol[r][c] == value {
                                    assert forall|i: int, j: int| 0 <= i < 9 && 0 <= j < 9 && #[trigger] g1[i][j] != 0 implies sol[i][j] == g1[i][j] by {
                                        if i != r || j != c {
                                            assert(g1[i][j] == g0[i][j]);
                                        }
                                    }
                                    assert(is_solution(g1, sol));
                                }
                            }
                        }
                    } else {
                        proof {
                            assert forall|sol: Seq<Seq<u8>>| #[trigger] is_solution(g0, sol) implies sol[r][c] != value by {
                                if sol[r][c] == value {
                                    if row_has(g0, r, value) {
                                        let j = choose|j: int| 0 <= j < 9 && #[trigger] g0[r][j] == value;
                                        assert(sol[r][j] == value);
                                        assert(sol[r][c] != sol[r][j]);
                                    } else if col_has(g0, c, value) {
                                        let i = choose|i: int| 0 <= i < 9 && #[trigger] g0[i][c] == value;
                                        assert(sol[i][c] == value);
                                        assert(sol[r][c] != sol[i][c]);
                                    } else {
                                        assert(square_has(g0, square_of(r, c), value));
                                        let (i, j) = choose|i: int, j: int| 0 <= i < 9 && 0 <= j < 9 && square_of(i, j) == square_of(r, c)
                                            && #[trigger] g0[i][j] == value;
                                        assert(sol[i][j] == value);
                                        assert(sol[r][c] != sol[i][j]);
                                    }
                                }
                            }
                        }
                    }
                    value += 1;
                }
                proof {
                    if solvable(g0) {
                        let sol = choose|sol: Seq<Seq<u8>>| is_solution(g0, sol);
                        assert(sol[r][c] <= 9);
                    }
                }
                false
            },
        }
    }

    /// Solves the puzzle: returns a completion of the grid, or `None` when the
    /// grid has none. A grid that is already complete and valid comes back as it is.
    pub fn solve(self) -> (r: Option<SudokuGrid>)
        requires
            self.puzzle().wf(),
        ensures
            r is Some <==> solvable(self.puzzle()@),
            r matches Some(g) ==> g.wf() && is_solution(self.puzzle()@, g@),
            is_full(self.puzzle()@) && valid(self.puzzle()@) ==> r == Some(self.puzzle()),
    {
        let mut solver = self;
        proof {
            let g = solver.grid@;
            if is_full(g) && valid(g) {
                assert(extends(g, g));
                assert(is_solution(g, g));
            }
        }
        if solver.search() {
            Some(solver.grid)
        } else {
            None
        }
    }

    /// The first empty cell in row-major order, or `None` when the grid is full.
    fn choose_empty_cell(&self) -> (r: Option<(usize, usize)>)
        requires
            self.grid.wf(),
        ensures
            r is None ==> is_full(self.grid@),
            r matches Some((row, col)) ==> row < 9 && col < 9 && self.grid@[row as int][col as int] == 0,
            r matches Some((row, col)) ==> forall|i: int, j: int|
                0 <= i < 9 && 0 <= j < 9 && (i < row || (i == row && j < col)) ==> #[trigger] self.grid@[i][j] != 0,
    {
        let mut r: usize = 0;
        while r < 9
            invariant
                r <= 9,
                forall|i: int, j: int| 0 <= i < r && 0 <= j < 9 ==> #[trigger] self.grid@[i][j] != 0,
            decreases 9 - r,
        {
            let mut c: usize = 0;
            while c < 9
                invariant
                    r < 9,
                    c <= 9,
                    forall|i: int, j: int| 0 <= i < r && 0 <= j < 9 ==> #[trigger] self.grid@[i][j] != 0,
                    forall|j: int| 0 <= j < c ==> #[trigger] self.grid@[r as int][j] != 0,
                decreases 9 - c,
            {
                if self.grid.at(r, c) == 0 {
                    return Some((r, c));
                }
                c += 1;
            }
            r += 1;
        }
        None
    }
}

} // verus!
