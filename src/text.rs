//! Puzzle text. A grid is read from up to nine lines of up to nine characters,
//! a digit `1`..`9` for a filled cell and `0`, `.` or `_` for an empty one, and
//! shown as a bordered block of text.
use vstd::prelude::*;

use crate::grid::{can_place, place, shaped, SudokuGrid};

verus! {

/// Why puzzle text could not be read.
#[derive(Clone, Copy, Debug, PartialEq, Eq)]
pub enum ParseError {
    /// The text has more than nine lines.
    TooManyLines,
    /// The line with this number (counted from 1) has more than nine characters.
    TooManyDigits { line: usize },
    /// A character that is neither a digit nor an empty-cell marker.
    InvalidChar { ch: char },
}

/// The cell value that a puzzle character stands for: 0 for an empty-cell
/// marker, the digit for `1`..`9`, and `None` for any other character.
pub open spec fn char_value(c: char) -> Option<u8> {
    if c == '0' || c == '.' || c == '_' {
        Some(0u8)
    } else if '1' <= c && c <= '9' {
        Some((c as u32 - '0' as u32) as u8)
    } else {
        None
    }
}

/// The grid with no digit in it.
pub open spec fn empty_grid() -> Seq<Seq<u8>> {
    Seq::new(9, |r: int| Seq::new(9, |c: int| 0u8))
}

/// `g` with digit `v` placed at `(r, c)` if it fits there; an empty-cell
/// value, or a digit already present in the row, column or square, leaves
/// `g` as it is.
pub open spec fn place_if_fits(g: Seq<Seq<u8>>, r: int, c: int, v: u8) -> Seq<Seq<u8>> {
    if v != 0 && can_place(g, r, c, v) {
        place(g, r, c, v)
    } else {
        g
    }
}

/// Reads the characters of `line` from position `j` on into row `r` of `g`.
pub open spec fn read_line(g: Seq<Seq<u8>>, r: int, line: Seq<char>, j: int) -> Result<Seq<Seq<u8>>, ParseError>
    decreases line.len() - j,
{
    if j < 0 || j >= line.len() {
        Ok(g)
    } else if j >= 9 {
        Err(ParseError::TooManyDigits { line: (r + 1) as usize })
    } else {
        match char_value(line[j]) {
            None => Err(ParseError::InvalidChar { ch: line[j] }),
            Some(v) => read_line(place_if_fits(g, r, j, v), r, line, j + 1),
        }
    }
}

/// Reads `lines` from line `i` on into `g`, stopping at the first error.
pub open spec fn read_lines(g: Seq<Seq<u8>>, lines: Seq<Seq<char>>, i: int) -> Result<Seq<Seq<u8>>, ParseError>
    decreases lines.len() - i,
{
    if i < 0 || i >= lines.len() {
        Ok(g)
    } else if i >= 9 {
        Err(ParseError::TooManyLines)
    } else {
        match read_line(g, i, lines[i], 0) {
            Err(e) => Err(e),
            Ok(g2) => read_lines(g2, lines, i + 1),
        }
    }
}

/// What reading `lines` into an empty grid gives.
pub open spec fn parse_lines(lines: Seq<Seq<char>>) -> Result<Seq<Seq<u8>>, ParseError> {
    read_lines(empty_grid(), lines, 0)
}

/// The views of a list of strings.
pub open spec fn views(lines: Seq<String>) -> Seq<Seq<char>> {
    lines.map_values(|l: String| l@)
}

/// The lines of a text as `str::lines` splits it.
pub uninterp spec fn lines_of(s: Seq<char>) -> Seq<Seq<char>>;

/// A line without its leading and trailing whitespace, as `str::trim` cuts it.
pub uninterp spec fn trim_of(s: Seq<char>) -> Seq<char>;

/// The lines of a text, each trimmed.
pub open spec fn trimmed_lines(s: Seq<char>) -> Seq<Seq<char>> {
    lines_of(s).map_values(|l: Seq<char>| trim_of(l))
}

/// Relies on `str::lines`: the lines of `text`, without their line endings.
#[verifier::external_body]
fn text_lines(text: &str) -> (r: Vec<String>)
    ensures
        views(r@) == lines_of(text@),
{
    text.lines().map(String::from).collect()
}

/// Relies on `str::trim`: `line` without leading and trailing whitespace.
#[verifier::external_body]
fn trim_line(line: &str) -> (r: String)
    ensures
        r@ == trim_of(line@),
{
    String::from(line.trim())
}

/// The line drawn above the grid and below every third row.
pub open spec fn border() -> Seq<char> {
    BORDER@
}

/// The border line with its line ending.
pub const BORDER: &'static str = "+-------+-------+-------+\n";

/// How a cell value is shown: its digit, or `_` for an empty cell.
pub open spec fn cell_char(v: u8) -> char {
    if v == 0 {
        '_'
    } else {
        ((v + 48) as u8) as char
    }
}

/// Cells `c..9` of row `r`, each after a space, with ` |` after every third.
pub open spec fn render_cells(g: Seq<Seq<u8>>, r: int, c: int) -> Seq<char>
    decreases 9 - c,
{
    if c < 0 || c >= 9 {
        Seq::empty()
    } else {
        seq![' ', cell_char(g[r][c])] + (if c % 3 == 2 { seq![' ', '|'] } else { Seq::empty() })
            + render_cells(g, r, c + 1)
    }
}

/// Rows `r..9`, each as `|` and its cells, with a border after every third.
pub open spec fn render_rows(g: Seq<Seq<u8>>, r: int) -> Seq<char>
    decreases 9 - r,
{
    if r < 0 || r >= 9 {
        Seq::empty()
    } else {
        seq!['|'] + render_cells(g, r, 0) + seq!['\n'] + (if r % 3 == 2 { border() } else { Seq::empty() })
            + render_rows(g, r + 1)
    }
}

/// The grid as bordered text.
pub open spec fn rendering(g: Seq<Seq<u8>>) -> Seq<char> {
    border() + render_rows(g, 0)
}

/// Relies on `String::push`: appends one character.
#[verifier::external_body]
fn push_char(s: &mut String, c: char)
    ensures
        final(s)@ == old(s)@.push(c),
{
    s.push(c)
}

impl SudokuGrid {
    /// Reads a grid from lines that are already trimmed. Digits are placed
    /// with `set`: one that repeats a digit of its row, column or square is
    /// left out without an error.
    pub fn from_lines(lines: &Vec<String>) -> (r: Result<SudokuGrid, ParseError>)
        ensures
            r matches Ok(g) ==> g.wf() && parse_lines(views(lines@)) == Ok::<Seq<Seq<u8>>, ParseError>(g@),
            r matches Err(e) ==> parse_lines(views(lines@)) == Err::<Seq<Seq<u8>>, ParseError>(e),
    {
        let ghost ls = views(lines@);
        let mut grid = SudokuGrid::new();
        proof {
            assert(grid@ =~= empty_grid()) by {
                assert forall|r: int| 0 <= r < 9 implies grid@[r] =~= empty_grid()[r] by {}
            }
        }
        let mut i: usize = 0;
        while i < lines.len()
            invariant
                i <= lines.len(),
                ls == views(lines@),
                grid.wf(),
                parse_lines(ls) == read_lines(grid@, ls, i as int),
                forall|r: int, c: int| i <= r < 9 && 0 <= c < 9 ==> #[trigger] grid@[r][c] == 0,
            decreases lines.len() - i,
        {
            if i >= 9 {
                return Err(ParseError::TooManyLines);
            }
            let line: &str = lines[i].as_str();
            let ghost l = line@;
            let ghost g_i = grid@;
            assert(l == ls[i as int]);
            let n = line.unicode_len();
            let mut j: usize = 0;
            while j < n
                invariant
                    i < 9,
                    j <= n,
                    n == l.len(),
                    l == line@,
                    i < ls.len(),
                    ls == views(lines@),
                    l == ls[i as int],
                    parse_lines(ls) == read_lines(g_i, ls, i as int),
                    grid.wf(),
                    read_line(g_i, i as int, l, 0) == read_line(grid@, i as int, l, j as int),
                    forall|r: int, c: int| i < r < 9 && 0 <= c < 9 ==> #[trigger] grid@[r][c] == 0,
                    forall|c: int| j <= c < 9 ==> #[trigger] grid@[i as int][c] == 0,
                decreases n - j,
            {
                if j >= 9 {
                    assert(read_line(grid@, i as int, l, j as int) == Err::<Seq<Seq<u8>>, ParseError>(
                        ParseError::TooManyDigits { line: (i + 1) as usize }));
                    assert(read_lines(g_i, ls, i as int) == Err::<Seq<Seq<u8>>, ParseError>(
                        ParseError::TooManyDigits { line: (i + 1) as usize }));
                    return Err(ParseError::TooManyDigits { line: i + 1 });
                }
                let ch = line.get_char(j);
                let value: u8;
                if ch == '0' || ch == '.' || ch == '_' {
                    value = 0;
                } else if '1' <= ch && ch <= '9' {
                    value = (ch as u32 - '0' as u32) as u8;
                } else {
                    assert(read_line(grid@, i as int, l, j as int) == Err::<Seq<Seq<u8>>, ParseError>(
                        ParseError::InvalidChar { ch }));
                    assert(read_lines(g_i, ls, i as int) == Err::<Seq<Seq<u8>>, ParseError>(
                        ParseError::InvalidChar { ch }));
                    return Err(ParseError::InvalidChar { ch });
                }
                assert(char_value(ch) == Some(value));
                if value != 0 {
                    let _ = grid.set(i, j, value);
                }
                j += 1;
            }
            i += 1;
        }
        Ok(grid)
    }

    /// The grid as bordered text: a border line, then each row as `|` followed
    /// by its cells (a space and the digit, or `_` when empty) with ` |` after
    /// every third cell, and a border line after every third row.
    pub fn render(&self) -> (r: String)
        requires
            shaped(self@),
        ensures
            r@ == rendering(self@),
    {
        let mut out = String::new();
        out.append(BORDER);
        let mut i: usize = 0;
        while i < 9
            invariant
                i <= 9,
                shaped(self@),
                out@ + render_rows(self@, i as int) == rendering(self@),
            decreases 9 - i,
        {
            let ghost row_start = out@;
            push_char(&mut out, '|');
            let mut j: usize = 0;
            while j < 9
                invariant
                    i < 9,
                    j <= 9,
                    shaped(self@),
                    out@ + render_cells(self@, i as int, j as int) == row_start + seq!['|'] + render_cells(self@, i as int, 0),
                decreases 9 - j,
            {
                let ghost cell_start = out@;
                let v = self.at(i, j);
                push_char(&mut out, ' ');
                if v == 0 {
                    push_char(&mut out, '_');
                } else {
                    push_char(&mut out, (v + 48) as char);
                }
                if j % 3 == 2 {
                    push_char(&mut out, ' ');
                    push_char(&mut out, '|');
                }
                proof {
                    let rest = render_cells(self@, i as int, j as int + 1);
                    assert(out@ + rest =~= cell_start + render_cells(self@, i as int, j as int));
                }
                j += 1;
            }
            push_char(&mut out, '\n');
            if i % 3 == 2 {
                out.append(BORDER);
            }
            proof {
                let tail = render_rows(self@, i as int + 1);
                assert(render_cells(self@, i as int, 9) == Seq::<char>::empty());
                assert(out@ + tail =~= row_start + render_rows(self@, i as int));
            }
            i += 1;
        }
        proof {
            assert(out@ + render_rows(self@, 9) =~= out@);
        }
        out
    }

    /// Reads a grid from puzzle text: each line is trimmed, then read as
    /// `from_lines` reads it.
    pub fn from_text(text: &str) -> (r: Result<SudokuGrid, ParseError>)
        ensures
            r matches Ok(g) ==> g.wf() && parse_lines(trimmed_lines(text@)) == Ok::<Seq<Seq<u8>>, ParseError>(g@),
            r matches Err(e) ==> parse_lines(trimmed_lines(text@)) == Err::<Seq<Seq<u8>>, ParseError>(e),
    {
        let raw = text_lines(text);
        let mut lines: Vec<String> = Vec::new();
        let mut i: usize = 0;
        while i < raw.len()
            invariant
                i <= raw.len(),
                views(raw@) == lines_of(text@),
                lines@.len() == i,
                forall|k: int| 0 <= k < i ==> #[trigger] lines@[k]@ == trim_of(raw@[k]@),
            decreases raw.len() - i,
        {
            lines.push(trim_line(raw[i].as_str()));
            i += 1;
        }
        proof {
            assert(views(lines@) =~= trimmed_lines(text@)) by {
                assert forall|k: int| 0 <= k < lines@.len() implies #[trigger] views(lines@)[k] == trimmed_lines(text@)[k] by {
                    assert(views(raw@)[k] == raw@[k]@);
                }
            }
        }
        Self::from_lines(&lines)
    }
}

} // verus!
