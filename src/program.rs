use vstd::prelude::*;

use crate::solver::{empty_count, search_size, SolveError, MAX_STEPS};
use crate::grid::{
    complete, consistent, extends, in_bounds, index_of, same_layout, solution_of, states_valid, unsolvable, Cell, CellState, Coordinate, Grid,
};

verus! {

/// What the player is doing with the grid.
#[derive(Debug, Clone, Copy, PartialEq, Eq, Structural)]
pub enum Mode {
    Idle,
    Playing,
    Solving,
}

/// A request from the interactive front end.
#[derive(Debug, Clone)]
pub enum Message {
    /// Empty every cell.
    ClearGrid,
    /// Replace the grid with a random full solution.
    RandomiseGrid,
    /// Complete the grid as it stands.
    SolveGrid,
    /// The player typed text into the cell at the coordinate.
    ChangedNumber(Coordinate, String),
}

/// The state of the interactive front end: the grid being played and the mode.
pub struct Program {
    pub grid: Grid,
    pub mode: Mode,
}

/// Value of a string of decimal digits.
pub open spec fn digits_value(s: Seq<char>) -> int
    decreases s.len(),
{
    if s.len() == 0 {
        0
    } else {
        digits_value(s.drop_last()) * 10 + (s.last() as int - '0' as int)
    }
}

/// Every character is a decimal digit.
pub open spec fn all_digits(s: Seq<char>) -> bool {
    forall|i: int| 0 <= i < s.len() ==> '0' <= #[trigger] s[i] <= '9'
}

/// The number that `s` writes in decimal, with an optional leading `+`, when it fits in
/// a byte.
pub open spec fn parsed_u8(s: Seq<char>) -> Option<u8> {
    let d = if s.len() > 0 && s[0] == '+' {
        s.drop_first()
    } else {
        s
    };
    if d.len() > 0 && all_digits(d) && digits_value(d) <= 255 {
        Some(digits_value(d) as u8)
    } else {
        None
    }
}

/// Relies on `str::parse::<u8>` (`u8::from_str_radix` in base 10): an optional `+`, then
/// one or more decimal digits whose value is at most 255; anything else is an error.
#[verifier::external_body]
fn parse_u8(s: &str) -> (r: Option<u8>)
    ensures
        r == parsed_u8(s@),
{
    s.parse::<u8>().ok()
}

/// The cells after an edit of the cell at `c` that puts `state` and `modifiable` there.
pub open spec fn edited(cells: Seq<Cell>, c: Coordinate, state: CellState, modifiable: bool) -> Seq<Cell> {
    cells.update(index_of(c), Cell { coordinate: cells[index_of(c)].coordinate, state, solver_modifiable: modifiable })
}

/// The cells after the player typed `s` into the cell at `c`: empty text clears the
/// cell and opens it to the solver, a number from 1 to 9 fills it and marks it as given,
/// any other text, or a coordinate off the grid, changes nothing.
pub open spec fn edit_applied(before: Seq<Cell>, after: Seq<Cell>, c: Coordinate, s: Seq<char>) -> bool {
    if !in_bounds(c) {
        after == before
    } else if s.len() == 0 {
        after == edited(before, c, CellState::Empty, true)
    } else {
        match parsed_u8(s) {
            Some(v) => if 1 <= v <= 9 {
                after == edited(before, c, CellState::Filled(v), false)
            } else {
                after == before
            },
            None => after == before,
        }
    }
}

impl Program {
    /// A program showing the empty grid.
    pub fn new() -> (p: Program)
        ensures
            p.grid.wf(),
            forall|i: int| 0 <= i < 81 ==> (#[trigger] p.grid@[i]).state == CellState::Empty,
    {
        Program { grid: Grid::new_empty(), mode: Mode::Idle }
    }

    /// Applies one request to the state and reports how a solve or a randomise ended;
    /// other requests always succeed. Typed text edits the cell when it lies on the
    /// grid: empty text clears the cell and opens it to the solver; a number from 1 to 9
    /// fills it and marks it as given; any other text changes nothing.
    pub fn update(&mut self, message: Message) -> (r: Result<(), SolveError>)
        requires
            old(self).grid.wf(),
        ensures
            final(self).grid.wf(),
            final(self).mode == old(self).mode,
            !(message is RandomiseGrid || message is SolveGrid) ==> r is Ok,
            message is ClearGrid ==> forall|i: int|
                0 <= i < 81 ==> (#[trigger] final(self).grid@[i]).state == CellState::Empty
                    && final(self).grid@[i].solver_modifiable,
            message is RandomiseGrid ==> match r {
                Ok(()) => complete(final(self).grid.board()) && consistent(final(self).grid.board())
                    && states_valid(final(self).grid.board()),
                Err(e) => e == SolveError::SearchBudgetExceeded && final(self).grid@ == old(self).grid@,
            },
            message is SolveGrid ==> same_layout(final(self).grid@, old(self).grid@),
            message is SolveGrid ==> match r {
                Ok(()) => extends(final(self).grid.board(), old(self).grid.board()) && complete(final(self).grid.board())
                    && (consistent(old(self).grid.board()) ==> solution_of(final(self).grid.board(), old(self).grid.board())),
                Err(SolveError::Unsolvable) => final(self).grid@ == old(self).grid@ && unsolvable(old(self).grid.board()),
                Err(SolveError::SearchBudgetExceeded) => final(self).grid@ == old(self).grid@
                    && search_size(empty_count(old(self).grid.board())) >= MAX_STEPS,
            },
            message is ChangedNumber ==> edit_applied(old(self).grid@, final(self).grid@, message->ChangedNumber_0, message->ChangedNumber_1@),
    {
        match message {
            Message::ClearGrid => {
                let grid = Grid::new_empty();
                assert(forall|i: int| 0 <= i < 81 ==> (#[trigger] grid@[i]).state == CellState::Empty
                    && grid@[i].solver_modifiable);
                self.grid = grid;
                Ok(())
            },
            Message::RandomiseGrid => {
                match Grid::new_random() {
                    Ok(grid) => {
                        self.grid = grid;
                        Ok(())
                    },
                    Err(e) => Err(e),
                }
            },
            Message::SolveGrid => self.grid.solve(),
            Message::ChangedNumber(coordinate, s) => {
                let (new_state, modifiable) = if s.as_str().is_empty() {
                    (CellState::Empty, true)
                } else if let Some(value) = parse_u8(s.as_str()) {
                    (CellState::Filled(value), false)
                } else {
                    return Ok(());
                };
                let ghost before = self.grid@;
                if let Ok(_) = self.grid.set_cell(coordinate, new_state) {
                    let _ = self.grid.set_cell_solver_modifiable(coordinate, modifiable);
                    assert(self.grid@ =~= edited(before, coordinate, new_state, modifiable));
                }
                Ok(())
            },
        }
    }
}

impl Default for Program {
    /// A program showing the empty grid.
    fn default() -> (p: Program)
        ensures
            p.grid.wf(),
            forall|i: int| 0 <= i < 81 ==> (#[trigger] p.grid@[i]).state == CellState::Empty,
    {
        Program::new()
    }
}

} // verus!
