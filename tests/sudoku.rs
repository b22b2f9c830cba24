use sudoku::grid::SudokuGrid;
use sudoku::solver::Solver;
use sudoku::text::ParseError;

const CLASSIC: &str = "53__7____\n6__195___\n_98____6_\n8___6___3\n4__8_3__1\n7___2___6\n_6____28_\n___419__5\n____8__79\n";

const CLASSIC_SOLUTION: [&str; 9] = [
    "534678912",
    "672195348",
    "198342567",
    "859761423",
    "426853791",
    "713924856",
    "961537284",
    "287419635",
    "345286179",
];

fn digits(grid: &SudokuGrid) -> Vec<String> {
    (0..9)
        .map(|r| (0..9).map(|c| char::from(b'0' + grid.at(r, c))).collect())
        .collect()
}

fn assert_complete_and_valid(grid: &SudokuGrid) {
    assert!(grid.is_valid());
    for i in 0..9 {
        let mut row = [false; 10];
        let mut col = [false; 10];
        let mut square = [false; 10];
        for k in 0..9 {
            row[grid.at(i, k) as usize] = true;
            col[grid.at(k, i) as usize] = true;
            square[grid.at((i / 3) * 3 + k / 3, (i % 3) * 3 + k % 3) as usize] = true;
        }
        for d in 1..10 {
            assert!(row[d] && col[d] && square[d]);
        }
    }
}

#[test]
fn new_grid_is_empty_and_valid() {
    let grid = SudokuGrid::new();
    for r in 0..9 {
        for c in 0..9 {
            assert_eq!(grid.at(r, c), 0);
        }
    }
    assert!(grid.is_valid());
}

#[test]
fn set_places_a_digit() {
    let mut grid = SudokuGrid::new();
    assert!(grid.set(4, 7, 3));
    assert_eq!(grid.at(4, 7), 3);
    assert_eq!(grid.at(4, 6), 0);
}

#[test]
fn set_rejects_digit_in_same_row() {
    let mut grid = SudokuGrid::new();
    assert!(grid.set(0, 0, 5));
    assert!(!grid.set(0, 8, 5));
    assert_eq!(grid.at(0, 8), 0);
    assert!(grid.set(0, 8, 6));
}

#[test]
fn set_rejects_digit_in_same_column() {
    let mut grid = SudokuGrid::new();
    assert!(grid.set(0, 0, 5));
    assert!(!grid.set(8, 0, 5));
    assert_eq!(grid.at(8, 0), 0);
}

#[test]
fn set_rejects_digit_in_same_square() {
    let mut grid = SudokuGrid::new();
    assert!(grid.set(3, 3, 7));
    assert!(!grid.set(5, 5, 7));
    assert_eq!(grid.at(5, 5), 0);
    // The same digit fits in the next square along the diagonal.
    assert!(grid.set(6, 6, 7));
}

#[test]
fn set_on_cell_holding_same_digit_fails() {
    let mut grid = SudokuGrid::new();
    assert!(grid.set(2, 2, 9));
    assert!(!grid.set(2, 2, 9));
    assert_eq!(grid.at(2, 2), 9);
}

#[test]
fn unset_clears_cell_and_masks() {
    let mut grid = SudokuGrid::new();
    assert!(grid.set(0, 0, 5));
    grid.unset(0, 0);
    assert_eq!(grid.at(0, 0), 0);
    // Row, column and square no longer hold 5.
    assert!(grid.set(0, 4, 5));
    grid.unset(0, 4);
    assert!(grid.set(4, 0, 5));
    grid.unset(4, 0);
    assert!(grid.set(1, 1, 5));
}

#[test]
fn unset_empty_cell_is_a_no_op() {
    let mut grid = SudokuGrid::new();
    assert!(grid.set(0, 1, 2));
    grid.unset(0, 0);
    assert_eq!(grid.at(0, 0), 0);
    assert_eq!(grid.at(0, 1), 2);
    assert!(!grid.set(0, 5, 2));
}

#[test]
fn set_then_unset_restores_the_grid() {
    let mut grid = SudokuGrid::from_text(CLASSIC).unwrap();
    let before = digits(&grid);
    assert!(grid.set(0, 2, 4));
    grid.unset(0, 2);
    assert_eq!(digits(&grid), before);
    // The masks were restored too: 4 fits again and 5 still does not.
    assert!(!grid.set(0, 2, 5));
    assert!(grid.set(0, 2, 4));
}

#[test]
fn occupancy_follows_a_sequence_of_changes() {
    let mut grid = SudokuGrid::new();
    assert!(grid.set(0, 0, 1));
    assert!(grid.set(1, 3, 1));
    assert!(grid.set(2, 6, 1));
    grid.unset(1, 3);
    assert!(grid.set(1, 4, 1));
    // Row 1, column 4 and the middle top square hold 1; column 3 does not.
    assert!(!grid.set(1, 0, 1) && !grid.set(8, 4, 1) && !grid.set(0, 5, 1));
    assert!(grid.set(5, 3, 1));
    assert!(grid.is_valid());
}

#[test]
fn parse_reads_digits_and_empty_markers() {
    let grid = SudokuGrid::from_text("1.2_3045\n\n_________\n       9\n").unwrap();
    assert_eq!(digits(&grid)[0], "102030450");
    assert_eq!(digits(&grid)[1], "000000000");
    assert_eq!(digits(&grid)[3], "900000000");
    assert_eq!(grid.at(8, 8), 0);
}

#[test]
fn parse_trims_whitespace_around_lines() {
    let grid = SudokuGrid::from_text("  53_  \r\n\t6\n").unwrap();
    assert_eq!(digits(&grid)[0], "530000000");
    assert_eq!(digits(&grid)[1], "600000000");
}

#[test]
fn parse_classic_puzzle() {
    let grid = SudokuGrid::from_text(CLASSIC).unwrap();
    assert_eq!(digits(&grid)[0], "530070000");
    assert_eq!(digits(&grid)[8], "000080079");
    assert!(grid.is_valid());
}

#[test]
fn parse_ignores_a_conflicting_digit() {
    let grid = SudokuGrid::from_text("11_______\n").unwrap();
    assert_eq!(digits(&grid)[0], "100000000");
}

#[test]
fn parse_rejects_ten_lines() {
    let text = "_________\n".repeat(10);
    assert_eq!(SudokuGrid::from_text(&text).err(), Some(ParseError::TooManyLines));
}

#[test]
fn parse_accepts_nine_lines_with_final_newline() {
    let text = "_________\n".repeat(9);
    assert!(SudokuGrid::from_text(&text).is_ok());
}

#[test]
fn parse_rejects_ten_characters() {
    let text = "_________\n1234567890\n";
    assert_eq!(SudokuGrid::from_text(text).err(), Some(ParseError::TooManyDigits { line: 2 }));
}

#[test]
fn parse_rejects_invalid_character() {
    assert_eq!(SudokuGrid::from_text("12x\n").err(), Some(ParseError::InvalidChar { ch: 'x' }));
}

#[test]
fn parse_reports_first_error() {
    assert_eq!(SudokuGrid::from_text("x234567890\n").err(), Some(ParseError::InvalidChar { ch: 'x' }));
    assert_eq!(SudokuGrid::from_text("123456789x\n").err(), Some(ParseError::TooManyDigits { line: 1 }));
}

#[test]
fn from_lines_reads_trimmed_lines() {
    let lines = vec![String::from("9"), String::new(), String::from("__3")];
    let grid = SudokuGrid::from_lines(&lines).unwrap();
    assert_eq!(digits(&grid)[0], "900000000");
    assert_eq!(digits(&grid)[2], "003000000");
    let spaced = vec![String::from(" 9")];
    assert_eq!(SudokuGrid::from_lines(&spaced).err(), Some(ParseError::InvalidChar { ch: ' ' }));
}

#[test]
fn solve_classic_puzzle() {
    let grid = SudokuGrid::from_text(CLASSIC).unwrap();
    let solution = Solver::new(grid).solve().expect("the classic puzzle has a solution");
    assert_eq!(digits(&solution), CLASSIC_SOLUTION.iter().map(|s| s.to_string()).collect::<Vec<_>>());
    assert_complete_and_valid(&solution);
}

#[test]
fn solve_empty_grid() {
    let solution = Solver::new(SudokuGrid::new()).solve().expect("an empty grid has a solution");
    assert_complete_and_valid(&solution);
    assert_eq!(digits(&solution)[0], "123456789");
}

#[test]
fn solve_reports_unsatisfiable_grid() {
    // Row 0 needs a 9 in its last cell, but column 8 already holds one.
    let grid = SudokuGrid::from_text("12345678_\n\n\n\n________9\n").unwrap();
    assert!(Solver::new(grid).solve().is_none());
}

#[test]
fn solve_reports_grid_with_a_cell_that_takes_nothing() {
    // Cell (0, 0) sees 1..=6 in its row and 7..=9 in its column.
    let grid = SudokuGrid::from_text("_123456__\n7\n8\n9\n").unwrap();
    assert!(Solver::new(grid).solve().is_none());
}

#[test]
fn solve_complete_grid_returns_it_unchanged() {
    let text = CLASSIC_SOLUTION.join("\n");
    let grid = SudokuGrid::from_text(&text).unwrap();
    let solution = Solver::new(grid).solve().expect("a complete valid grid is its own solution");
    assert_eq!(digits(&solution), CLASSIC_SOLUTION.iter().map(|s| s.to_string()).collect::<Vec<_>>());
}

#[test]
fn solve_twice_gives_the_same_grid() {
    let grid = SudokuGrid::from_text(CLASSIC).unwrap();
    let first = Solver::new(grid).solve().unwrap();
    let once = digits(&first);
    let second = Solver::new(first).solve().unwrap();
    assert_eq!(digits(&second), once);
}

#[test]
fn render_empty_grid() {
    let border = "+-------+-------+-------+\n";
    let row = "| _ _ _ | _ _ _ | _ _ _ |\n";
    let block = format!("{row}{row}{row}{border}");
    let expected = format!("{border}{block}{block}{block}");
    assert_eq!(SudokuGrid::new().render(), expected);
}

#[test]
fn render_classic_puzzle() {
    let grid = SudokuGrid::from_text(CLASSIC).unwrap();
    let text = grid.render();
    let lines: Vec<&str> = text.lines().collect();
    assert_eq!(lines.len(), 13);
    assert_eq!(lines[0], "+-------+-------+-------+");
    assert_eq!(lines[1], "| 5 3 _ | _ 7 _ | _ _ _ |");
    assert_eq!(lines[4], "+-------+-------+-------+");
    assert_eq!(lines[11], "| _ _ _ | _ 8 _ | _ 7 9 |");
    assert_eq!(lines[12], "+-------+-------+-------+");
}
