use vstd::prelude::*;

use crate::grid::{at, CellState, Coordinate, Grid, COL_COUNT, ROW_COUNT};

verus! {

/// The decimal digit for `v`, for `v` in `0..=9`.
pub open spec fn digit(v: int) -> char {
    if v == 0 {
        '0'
    } else if v == 1 {
        '1'
    } else if v == 2 {
        '2'
    } else if v == 3 {
        '3'
    } else if v == 4 {
        '4'
    } else if v == 5 {
        '5'
    } else if v == 6 {
        '6'
    } else if v == 7 {
        '7'
    } else if v == 8 {
        '8'
    } else {
        '9'
    }
}

/// First line of the text: a blank line, then the column numbers 1 to 9, each right-aligned
/// in four places after one leading space.
pub open spec fn header_text() -> Seq<char> {
    seq!['\n', ' '] + Seq::new(36, |k: int| if k % 4 == 3 { digit(k / 4 + 1) } else { ' ' })
}

/// A cell as text: its value in brackets, or blank brackets, and a space.
pub open spec fn cell_text(s: CellState) -> Seq<char> {
    match s {
        CellState::Filled(v) => seq!['[', digit(v as int), ']', ' '],
        CellState::Empty => seq!['[', ' ', ']', ' '],
    }
}

/// The first `n` cells of row `r` as text.
pub open spec fn cells_text(b: Seq<CellState>, r: int, n: nat) -> Seq<char>
    decreases n,
{
    if n == 0 {
        Seq::empty()
    } else {
        cells_text(b, r, (n - 1) as nat) + cell_text(at(b, r, n - 1))
    }
}

/// Start of row `r`: a blank line, then the row number, 1-based, and two spaces.
pub open spec fn row_head(r: int) -> Seq<char> {
    seq!['\n', '\n', digit(r + 1), ' ', ' ']
}

/// The header followed by the first `n` rows.
pub open spec fn rows_text(b: Seq<CellState>, n: nat) -> Seq<char>
    decreases n,
{
    if n == 0 {
        header_text()
    } else {
        rows_text(b, (n - 1) as nat) + row_head(n - 1) + cells_text(b, n - 1, 9)
    }
}

/// The whole board as text.
pub open spec fn board_text(b: Seq<CellState>) -> Seq<char> {
    rows_text(b, 9)
}

/// Relies on `String`'s `FromIterator<char>`: the string holds the characters in order.
#[verifier::external_body]
fn string_of_chars(chars: &Vec<char>) -> (s: String)
    ensures
        s@ == chars@,
{
    chars.iter().collect::<String>()
}

fn digit_char(v: usize) -> (c: char)
    requires
        v <= 9,
    ensures
        c == digit(v as int),
{
    match v {
        0 => '0',
        1 => '1',
        2 => '2',
        3 => '3',
        4 => '4',
        5 => '5',
        6 => '6',
        7 => '7',
        8 => '8',
        _ => '9',
    }
}

impl Grid {
    /// The grid as text, for reading: a header line of column numbers, then each row on
    /// a line of its own, after a blank line, with its number and its cells in brackets.
    pub fn to_text(&self) -> (s: String)
        requires
            self.wf(),
        ensures
            s@ == board_text(self.board()),
    {
        let mut out: Vec<char> = Vec::new();
        out.push('\n');
        out.push(' ');
        let mut i: usize = 1;
        while i <= COL_COUNT
            invariant
                1 <= i <= 10,
                out@ == header_text().take(2 + 4 * (i - 1)),
            decreases 10 - i,
        {
            out.push(' ');
            out.push(' ');
            out.push(' ');
            out.push(digit_char(i));
            assert(out@ =~= header_text().take(2 + 4 * i));
            i += 1;
        }
        assert(out@ =~= rows_text(self.board(), 0));
        let mut row: usize = 0;
        while row < ROW_COUNT
            invariant
                self.wf(),
                row <= 9,
                out@ == rows_text(self.board(), row as nat),
            decreases 9 - row,
        {
            let ghost before = out@;
            out.push('\n');
            out.push('\n');
            out.push(digit_char(row + 1));
            out.push(' ');
            out.push(' ');
            assert(out@ =~= before + row_head(row as int) + cells_text(self.board(), row as int, 0));
            let mut col: usize = 0;
            while col < COL_COUNT
                invariant
                    self.wf(),
                    row < 9,
                    col <= 9,
                    out@ == before + row_head(row as int) + cells_text(self.board(), row as int, col as nat),
                decreases 9 - col,
            {
                let ghost mid = out@;
                let cell = self.cell_at_unchecked(Coordinate { row, col });
                out.push('[');
                match cell.state {
                    CellState::Filled(value) => out.push(digit_char(value as usize)),
                    CellState::Empty => out.push(' '),
                }
                out.push(']');
                out.push(' ');
                assert(out@ =~= mid + cell_text(at(self.board(), row as int, col as int)));
                assert(out@ =~= before + row_head(row as int) + cells_text(self.board(), row as int, (col + 1) as nat));
                col += 1;
            }
            row += 1;
        }
        string_of_chars(&out)
    }
}

} // verus!
