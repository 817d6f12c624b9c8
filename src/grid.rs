use vstd::prelude::*;

use crate::error::Error;

verus! {

/// Number of rows in one subgrid.
pub const SUBGRID_ROWS: usize = 3;
/// Number of columns in one subgrid.
pub const SUBGRID_COLS: usize = 3;
/// Number of subgrids along each side of the grid.
pub const SUBGRID_COUNT: usize = 3;
/// Number of rows of the grid.
pub const ROW_COUNT: usize = 9;
/// Number of columns of the grid.
pub const COL_COUNT: usize = 9;
/// Number of cells of the grid.
pub const CELL_COUNT: usize = 81;
/// Smallest value a cell can hold.
pub const MIN_CELL_VALUE: u8 = 1;
/// Largest value a cell can hold.
pub const MAX_CELL_VALUE: u8 = 9;

/// A position on the grid: row and column, each meant to lie in `0..9`.
#[derive(Debug, Clone, Copy, PartialEq, Eq, Structural)]
pub struct Coordinate {
    pub row: usize,
    pub col: usize,
}

/// What a cell holds.
#[derive(Debug, Default, Clone, Copy, PartialEq, Eq, Structural)]
pub enum CellState {
    #[default]
    Empty,
    Filled(u8),
}

/// One position of the grid with its state and whether the solver may overwrite it.
#[derive(Debug, Clone, Copy)]
pub struct Cell {
    pub coordinate: Coordinate,
    pub state: CellState,
    pub solver_modifiable: bool,
}

/// The 81 cells of a grid, in row-major order.
pub struct Grid {
    pub cells: Vec<Cell>,
}

// ---------------------------------------------------------------------------
// The mathematical model: a board is the sequence of the 81 cell states.

/// Both components of the coordinate lie in `0..9`.
pub open spec fn in_bounds(c: Coordinate) -> bool {
    c.row < 9 && c.col < 9
}

/// A value that a cell may be filled with.
pub open spec fn valid_value(v: u8) -> bool {
    1 <= v <= 9
}

/// A state that a cell of a well-formed grid may have.
pub open spec fn valid_state(s: CellState) -> bool {
    match s {
        CellState::Empty => true,
        CellState::Filled(v) => valid_value(v),
    }
}

pub open spec fn is_filled(s: CellState) -> bool {
    s matches CellState::Filled(_)
}

/// Row-major position of a coordinate.
pub open spec fn index_of(c: Coordinate) -> int {
    c.row * 9 + c.col
}

/// Top-left corner of the subgrid holding `c`.
pub open spec fn subgrid_start_of(c: Coordinate) -> Coordinate {
    Coordinate { row: (c.row / 3 * 3) as usize, col: (c.col / 3 * 3) as usize }
}

/// State of the cell at row `r`, column `c` of a board.
pub open spec fn at(b: Seq<CellState>, r: int, c: int) -> CellState {
    b[r * 9 + c]
}

/// Some cell of row `r` holds `v`.
pub open spec fn row_holds(b: Seq<CellState>, r: int, v: u8) -> bool {
    exists|c: int| 0 <= c < 9 && #[trigger] at(b, r, c) == CellState::Filled(v)
}

/// Some cell of column `c` holds `v`.
pub open spec fn column_holds(b: Seq<CellState>, c: int, v: u8) -> bool {
    exists|r: int| 0 <= r < 9 && #[trigger] at(b, r, c) == CellState::Filled(v)
}

/// Some cell of the subgrid that holds position `(r, c)` holds `v`.
pub open spec fn subgrid_holds(b: Seq<CellState>, r: int, c: int, v: u8) -> bool {
    exists|r2: int, c2: int|
        0 <= r2 < 9 && 0 <= c2 < 9 && r2 / 3 == r / 3 && c2 / 3 == c / 3
            && #[trigger] at(b, r2, c2) == CellState::Filled(v)
}

/// `v` can go at `(r, c)` without repeating a value in its row, column or subgrid.
pub open spec fn placeable(b: Seq<CellState>, r: int, c: int, v: u8) -> bool {
    !row_holds(b, r, v) && !column_holds(b, c, v) && !subgrid_holds(b, r, c, v)
}

/// Two positions share a row, a column or a subgrid.
pub open spec fn same_unit(r1: int, c1: int, r2: int, c2: int) -> bool {
    r1 == r2 || c1 == c2 || (r1 / 3 == r2 / 3 && c1 / 3 == c2 / 3)
}

/// No value is repeated within a row, a column or a subgrid.
pub open spec fn consistent(b: Seq<CellState>) -> bool {
    forall|r1: int, c1: int, r2: int, c2: int|
        0 <= r1 < 9 && 0 <= c1 < 9 && 0 <= r2 < 9 && 0 <= c2 < 9 && (r1 != r2 || c1 != c2)
            && same_unit(r1, c1, r2, c2) && is_filled(#[trigger] at(b, r1, c1))
            ==> at(b, r1, c1) != #[trigger] at(b, r2, c2)
}

/// Every cell is filled.
pub open spec fn complete(b: Seq<CellState>) -> bool {
    forall|i: int| 0 <= i < b.len() ==> is_filled(#[trigger] b[i])
}

/// Every cell holds a valid state.
pub open spec fn states_valid(b: Seq<CellState>) -> bool {
    forall|i: int| 0 <= i < b.len() ==> valid_state(#[trigger] b[i])
}

/// `b2` keeps every filled cell of `b1`.
pub open spec fn extends(b2: Seq<CellState>, b1: Seq<CellState>) -> bool {
    b2.len() == b1.len() && forall|i: int| 0 <= i < b1.len() && is_filled(#[trigger] b1[i]) ==> b2[i] == b1[i]
}

/// `s` is a completely and consistently filled board that keeps every filled cell of `b`.
pub open spec fn solution_of(s: Seq<CellState>, b: Seq<CellState>) -> bool {
    s.len() == 81 && extends(s, b) && complete(s) && consistent(s) && states_valid(s)
}

/// No solution keeps the filled cells of `b`.
pub open spec fn unsolvable(b: Seq<CellState>) -> bool {
    forall|s: Seq<CellState>| !#[trigger] solution_of(s, b)
}

/// The states of a sequence of cells.
pub open spec fn states_of(cells: Seq<Cell>) -> Seq<CellState> {
    cells.map_values(|cell: Cell| cell.state)
}

/// Same coordinates and solver flags, cell by cell.
pub open spec fn same_layout(a: Seq<Cell>, b: Seq<Cell>) -> bool {
    a.len() == b.len() && forall|i: int|
        0 <= i < a.len() ==> (#[trigger] a[i]).coordinate == b[i].coordinate && a[i].solver_modifiable
            == b[i].solver_modifiable
}

/// The cell `c` with its state replaced by `s`.
pub open spec fn with_state(c: Cell, s: CellState) -> Cell {
    Cell { coordinate: c.coordinate, state: s, solver_modifiable: c.solver_modifiable }
}

/// The cell `c` with its flag replaced by `m`.
pub open spec fn with_modifiable(c: Cell, m: bool) -> Cell {
    Cell { coordinate: c.coordinate, state: c.state, solver_modifiable: m }
}

impl View for Grid {
    type V = Seq<Cell>;

    /// The cells, in row-major order.
    open spec fn view(&self) -> Seq<Cell> {
        self.cells@
    }
}

impl Grid {
    /// The states of the cells, in row-major order.
    pub open spec fn board(self) -> Seq<CellState> {
        states_of(self@)
    }

    /// 81 cells, each at the coordinate of its row-major position, each holding a valid state.
    pub open spec fn wf(self) -> bool {
        &&& self@.len() == 81
        &&& forall|i: int|
            0 <= i < 81 ==> {
                &&& (#[trigger] self@[i]).coordinate.row == i / 9
                &&& self@[i].coordinate.col == i % 9
                &&& valid_state(self@[i].state)
            }
    }
}

/// Entry of a 9×9 matrix at row-major position `k`.
pub open spec fn entry(data: [[u8; 9]; 9], k: int) -> u8 {
    data@[k / 9]@[k % 9]
}

/// Cell state that the matrix entry at row-major position `k` stands for: 0 is empty.
pub open spec fn matrix_state(data: [[u8; 9]; 9], k: int) -> CellState {
    if entry(data, k) == 0 {
        CellState::Empty
    } else {
        CellState::Filled(entry(data, k))
    }
}

/// Every entry of the matrix is 0 or a valid value.
pub open spec fn matrix_valid(data: [[u8; 9]; 9]) -> bool {
    forall|k: int| 0 <= k < 81 ==> #[trigger] entry(data, k) <= 9
}

impl Cell {
    fn new(row: usize, col: usize) -> (cell: Cell)
        ensures
            cell.coordinate == (Coordinate { row, col }),
            cell.state == CellState::Empty,
            cell.solver_modifiable,
    {
        Cell {
            coordinate: Coordinate { row, col },
            state: CellState::Empty,
            solver_modifiable: true,
        }
    }
}

impl Grid {
    /// A grid whose 81 cells are all empty and all open to the solver.
    pub fn new_empty() -> (g: Grid)
        ensures
            g.wf(),
            forall|i: int| 0 <= i < 81 ==> (#[trigger] g@[i]).state == CellState::Empty,
            forall|i: int| 0 <= i < 81 ==> (#[trigger] g@[i]).solver_modifiable,
    {
        let mut cells: Vec<Cell> = Vec::new();
        let mut row: usize = 0;
        while row < ROW_COUNT
            invariant
                row <= 9,
                cells@.len() == row * 9,
                forall|i: int|
                    0 <= i < cells@.len() ==> {
                        &&& (#[trigger] cells@[i]).coordinate.row == i / 9
                        &&& cells@[i].coordinate.col == i % 9
                        &&& cells@[i].state == CellState::Empty
                        &&& cells@[i].solver_modifiable
                    },
            decreases 9 - row,
        {
            let mut col: usize = 0;
            while col < COL_COUNT
                invariant
                    row < 9,
                    col <= 9,
                    cells@.len() == row * 9 + col,
                    forall|i: int|
                        0 <= i < cells@.len() ==> {
                            &&& (#[trigger] cells@[i]).coordinate.row == i / 9
                            &&& cells@[i].coordinate.col == i % 9
                            &&& cells@[i].state == CellState::Empty
                            &&& cells@[i].solver_modifiable
                        },
                decreases 9 - col,
            {
                cells.push(Cell::new(row, col));
                col += 1;
            }
            row += 1;
        }
        Grid { cells }
    }

    /// The cell at `c`, or `CellIndexOutOfRange` when `c` lies off the grid.
    pub fn cell_at(&self, c: Coordinate) -> (r: Result<&Cell, Error>)
        requires
            self.wf(),
        ensures
            match r {
                Ok(cell) => in_bounds(c) && *cell == self@[index_of(c)],
                Err(e) => !in_bounds(c) && e == Error::CellIndexOutOfRange(c),
            },
    {
        if c.row >= ROW_COUNT || c.col >= COL_COUNT {
            return Err(Error::CellIndexOutOfRange(c));
        }
        Ok(self.cell_at_unchecked(c))
    }

    /// The cell at `c`, which must lie on the grid.
    pub fn cell_at_unchecked(&self, c: Coordinate) -> (cell: &Cell)
        requires
            self.wf(),
            in_bounds(c),
        ensures
            *cell == self@[index_of(c)],
    {
        &self.cells[c.row * COL_COUNT + c.col]
    }

    /// Top-left corner of the subgrid holding `c`, or `CellIndexOutOfRange` when `c` lies
    /// off the grid.
    pub fn get_subgrid_start(c: &Coordinate) -> (r: Result<Coordinate, Error>)
        ensures
            in_bounds(*c) ==> r == Ok::<Coordinate, Error>(subgrid_start_of(*c)),
            !in_bounds(*c) ==> r == Err::<Coordinate, Error>(Error::CellIndexOutOfRange(*c)),
    {
        if c.row >= ROW_COUNT || c.col >= COL_COUNT {
            return Err(Error::CellIndexOutOfRange(*c));
        }
        Ok(Grid::get_subgrid_start_unchecked(c))
    }

    fn get_subgrid_start_unchecked(c: &Coordinate) -> (r: Coordinate)
        ensures
            r == subgrid_start_of(*c),
    {
        Coordinate {
            row: c.row / SUBGRID_ROWS * SUBGRID_ROWS,
            col: c.col / SUBGRID_COLS * SUBGRID_COLS,
        }
    }
}

impl Grid {
    /// Whether `value` is absent from row `row`; fails on a row off the grid or a value
    /// outside `1..=9`.
    pub fn can_place_in_row(&self, row: usize, value: u8) -> (r: Result<bool, Error>)
        requires
            self.wf(),
        ensures
            row >= 9 ==> r == Err::<bool, Error>(Error::CellIndexOutOfRange((Coordinate { row: row, col: 0 }))),
            row < 9 && !valid_value(value) ==> r == Err::<bool, Error>(Error::ValueOutOfRange(value)),
            row < 9 && valid_value(value) ==> r == Ok::<bool, Error>(!row_holds(self.board(), row as int, value)),
    {
        if row >= ROW_COUNT {
            return Err(Error::CellIndexOutOfRange(Coordinate { row: row, col: 0 }));
        } else if value < MIN_CELL_VALUE || value > MAX_CELL_VALUE {
            return Err(Error::ValueOutOfRange(value));
        }
        Ok(self.can_place_in_row_unchecked(row, value))
    }

    fn can_place_in_row_unchecked(&self, row: usize, value: u8) -> (r: bool)
        requires
            self.wf(),
            row < 9,
        ensures
            r == !row_holds(self.board(), row as int, value),
    {
        let mut col: usize = 0;
        while col < COL_COUNT
            invariant
                self.wf(),
                row < 9,
                col <= 9,
                forall|c: int| 0 <= c < col ==> at(self.board(), row as int, c) != CellState::Filled(value),
            decreases 9 - col,
        {
            if self.cells[row * COL_COUNT + col].state == CellState::Filled(value) {
                assert(at(self.board(), row as int, col as int) == CellState::Filled(value));
                return false;
            }
            col += 1;
        }
        true
    }

    /// Whether `value` is absent from column `col`; fails on a column off the grid or a
    /// value outside `1..=9`.
    pub fn can_place_in_column(&self, col: usize, value: u8) -> (r: Result<bool, Error>)
        requires
            self.wf(),
        ensures
            col >= 9 ==> r == Err::<bool, Error>(Error::CellIndexOutOfRange((Coordinate { row: 0, col: col }))),
            col < 9 && !valid_value(value) ==> r == Err::<bool, Error>(Error::ValueOutOfRange(value)),
            col < 9 && valid_value(value) ==> r == Ok::<bool, Error>(!column_holds(self.board(), col as int, value)),
    {
        if col >= COL_COUNT {
            return Err(Error::CellIndexOutOfRange(Coordinate { row: 0, col: col }));
        } else if value < MIN_CELL_VALUE || value > MAX_CELL_VALUE {
            return Err(Error::ValueOutOfRange(value));
        }
        Ok(self.can_place_in_column_unchecked(col, value))
    }

    fn can_place_in_column_unchecked(&self, col: usize, value: u8) -> (r: bool)
        requires
            self.wf(),
            col < 9,
        ensures
            r == !column_holds(self.board(), col as int, value),
    {
        let mut row: usize = 0;
        while row < ROW_COUNT
            invariant
                self.wf(),
                col < 9,
                row <= 9,
                forall|r: int| 0 <= r < row ==> at(self.board(), r, col as int) != CellState::Filled(value),
            decreases 9 - row,
        {
            if self.cells[row * COL_COUNT + col].state == CellState::Filled(value) {
                assert(at(self.board(), row as int, col as int) == CellState::Filled(value));
                return false;
            }
            row += 1;
        }
        true
    }

    /// Whether `value` is absent from the subgrid holding `c`; fails on a coordinate off
    /// the grid or a value outside `1..=9`.
    pub fn can_place_in_subgrid(&self, c: Coordinate, value: u8) -> (r: Result<bool, Error>)
        requires
            self.wf(),
        ensures
            !in_bounds(c) ==> r == Err::<bool, Error>(Error::CellIndexOutOfRange(c)),
            in_bounds(c) && !valid_value(value) ==> r == Err::<bool, Error>(Error::ValueOutOfRange(value)),
            in_bounds(c) && valid_value(value) ==> r == Ok::<bool, Error>(
                !subgrid_holds(self.board(), c.row as int, c.col as int, value),
            ),
    {
        if c.row >= ROW_COUNT || c.col >= COL_COUNT {
            return Err(Error::CellIndexOutOfRange(c));
        } else if value < MIN_CELL_VALUE || value > MAX_CELL_VALUE {
            return Err(Error::ValueOutOfRange(value));
        }
        Ok(self.can_place_in_subgrid_unchecked(c, value))
    }

    fn can_place_in_subgrid_unchecked(&self, c: Coordinate, value: u8) -> (r: bool)
        requires
            self.wf(),
            in_bounds(c),
        ensures
            r == !subgrid_holds(self.board(), c.row as int, c.col as int, value),
    {
        let start = Grid::get_subgrid_start_unchecked(&c);
        let mut i: usize = 0;
        while i < SUBGRID_ROWS
            invariant
                self.wf(),
                in_bounds(c),
                start == subgrid_start_of(c),
                i <= 3,
                forall|r2: int, c2: int|
                    0 <= r2 < 9 && 0 <= c2 < 9 && r2 / 3 == c.row / 3 && c2 / 3 == c.col / 3
                        && r2 < start.row + i ==> at(self.board(), r2, c2) != CellState::Filled(value),
            decreases 3 - i,
        {
            let row = start.row + i;
            let mut j: usize = 0;
            while j < SUBGRID_COLS
                invariant
                    self.wf(),
                    in_bounds(c),
                    start == subgrid_start_of(c),
                    i < 3,
                    j <= 3,
                    row == start.row + i,
                    forall|r2: int, c2: int|
                        0 <= r2 < 9 && 0 <= c2 < 9 && r2 / 3 == c.row / 3 && c2 / 3 == c.col / 3
                            && r2 < start.row + i ==> at(self.board(), r2, c2) != CellState::Filled(value),
                    forall|c2: int|
                        0 <= c2 < 9 && c2 / 3 == c.col / 3 && c2 < start.col + j
                            ==> at(self.board(), row as int, c2) != CellState::Filled(value),
                decreases 3 - j,
            {
                let col = start.col + j;
                if self.cells[row * COL_COUNT + col].state == CellState::Filled(value) {
                    assert(at(self.board(), row as int, col as int) == CellState::Filled(value));
                    return false;
                }
                j += 1;
            }
            i += 1;
        }
        true
    }

    /// Whether `value` is absent from the row, the column and the subgrid of `c`; fails on
    /// a coordinate off the grid or a value outside `1..=9`.
    pub fn can_place_at(&self, c: Coordinate, value: u8) -> (r: Result<bool, Error>)
        requires
            self.wf(),
        ensures
            !in_bounds(c) ==> r == Err::<bool, Error>(Error::CellIndexOutOfRange(c)),
            in_bounds(c) && !valid_value(value) ==> r == Err::<bool, Error>(Error::ValueOutOfRange(value)),
            in_bounds(c) && valid_value(value) ==> r == Ok::<bool, Error>(
                placeable(self.board(), c.row as int, c.col as int, value),
            ),
    {
        if c.row >= ROW_COUNT || c.col >= COL_COUNT {
            return Err(Error::CellIndexOutOfRange(c));
        } else if value < MIN_CELL_VALUE || value > MAX_CELL_VALUE {
            return Err(Error::ValueOutOfRange(value));
        }
        Ok(self.can_place_in_column_unchecked(c.col, value) && self.can_place_in_row_unchecked(
            c.row,
            value,
        ) && self.can_place_in_subgrid_unchecked(c, value))
    }
}

impl Grid {
    /// Puts `state` into the cell at `c`. Fails, leaving the grid as it was, on a
    /// coordinate off the grid or a fill value outside `1..=9`. Consistency with the rest
    /// of the grid is not checked.
    pub fn set_cell(&mut self, c: Coordinate, state: CellState) -> (r: Result<(), Error>)
        requires
            old(self).wf(),
        ensures
            final(self).wf(),
            !in_bounds(c) ==> r == Err::<(), Error>(Error::CellIndexOutOfRange(c)) && final(self)@ == old(self)@,
            in_bounds(c) && !valid_state(state) ==> r == Err::<(), Error>(Error::ValueOutOfRange(state->Filled_0))
                && final(self)@ == old(self)@,
            in_bounds(c) && valid_state(state) ==> r == Ok::<(), Error>(())
                && final(self)@ == old(self)@.update(index_of(c), with_state(old(self)@[index_of(c)], state)),
    {
        if c.row >= ROW_COUNT || c.col >= COL_COUNT {
            return Err(Error::CellIndexOutOfRange(c));
        } else if let CellState::Filled(value) = state {
            if value < MIN_CELL_VALUE || value > MAX_CELL_VALUE {
                return Err(Error::ValueOutOfRange(value));
            }
        }
        self.set_cell_unchecked(c, state);
        Ok(())
    }

    /// Puts `state` into the cell at `c` without the argument checks of `set_cell`: the
    /// caller has already established them.
    pub fn set_cell_unchecked(&mut self, c: Coordinate, state: CellState)
        requires
            old(self).wf(),
            in_bounds(c),
            valid_state(state),
        ensures
            final(self).wf(),
            final(self)@ == old(self)@.update(index_of(c), with_state(old(self)@[index_of(c)], state)),
    {
        let idx = c.row * COL_COUNT + c.col;
        let old_cell = self.cells[idx];
        self.cells.set(
            idx,
            Cell { coordinate: old_cell.coordinate, state, solver_modifiable: old_cell.solver_modifiable },
        );
    }

    /// Mutable access to the cell at `c`, or `CellIndexOutOfRange` when `c` lies off the
    /// grid.
    pub fn cell_at_mut(&mut self, c: Coordinate) -> (r: Result<&mut Cell, Error>)
        requires
            old(self).wf(),
        ensures
            match r {
                Ok(cell) => in_bounds(c) && *cell == old(self)@[index_of(c)]
                    && final(self)@ == old(self)@.update(index_of(c), *final(cell)),
                Err(e) => !in_bounds(c) && e == Error::CellIndexOutOfRange(c) && final(self)@ == old(self)@,
            },
    {
        if c.row >= ROW_COUNT || c.col >= COL_COUNT {
            return Err(Error::CellIndexOutOfRange(c));
        }
        Ok(self.cell_at_mut_unchecked(c))
    }

    /// Mutable access to the cell at `c`, which must lie on the grid.
    pub fn cell_at_mut_unchecked(&mut self, c: Coordinate) -> (cell: &mut Cell)
        requires
            old(self)@.len() == 81,
            in_bounds(c),
        ensures
            *cell == old(self)@[index_of(c)],
            final(self)@ == old(self)@.update(index_of(c), *final(cell)),
    {
        &mut self.cells[c.row * COL_COUNT + c.col]
    }

    /// Records whether the solver may overwrite the cell at `c`; fails, leaving the grid as
    /// it was, when `c` lies off the grid.
    pub fn set_cell_solver_modifiable(&mut self, c: Coordinate, solver_modifiable: bool) -> (r: Result<(), Error>)
        requires
            old(self).wf(),
        ensures
            final(self).wf(),
            !in_bounds(c) ==> r == Err::<(), Error>(Error::CellIndexOutOfRange(c)) && final(self)@ == old(self)@,
            in_bounds(c) ==> r == Ok::<(), Error>(())
                && final(self)@ == old(self)@.update(index_of(c), with_modifiable(old(self)@[index_of(c)], solver_modifiable)),
    {
        match self.cell_at_mut(c) {
            Ok(cell) => {
                cell.solver_modifiable = solver_modifiable;
                Ok(())
            },
            Err(e) => Err(e),
        }
    }
}

impl Grid {
    /// A grid filled from a 9×9 matrix, row by row, where 0 stands for an empty cell.
    /// Fails with `ValueOutOfRange` carrying the first entry, in row-major order, that is
    /// greater than 9.
    pub fn from(data: &[[u8; 9]; 9]) -> (r: Result<Grid, Error>)
        ensures
            match r {
                Ok(g) => {
                    &&& matrix_valid(*data)
                    &&& g.wf()
                    &&& forall|k: int| 0 <= k < 81 ==> #[trigger] g.board()[k] == matrix_state(*data, k)
                    &&& forall|k: int| 0 <= k < 81 ==> (#[trigger] g@[k]).solver_modifiable
                },
                Err(e) => {
                    &&& !matrix_valid(*data)
                    &&& exists|k: int|
                        0 <= k < 81 && #[trigger] entry(*data, k) > 9 && e == Error::ValueOutOfRange(entry(*data, k))
                            && forall|j: int| 0 <= j < k ==> #[trigger] entry(*data, j) <= 9
                },
            },
    {
        let mut grid = Grid::new_empty();
        let mut k: usize = 0;
        while k < CELL_COUNT
            invariant
                k <= 81,
                grid.wf(),
                forall|i: int| 0 <= i < 81 ==> (#[trigger] grid@[i]).solver_modifiable,
                forall|i: int| 0 <= i < k ==> #[trigger] grid.board()[i] == matrix_state(*data, i),
                forall|i: int| k <= i < 81 ==> #[trigger] grid.board()[i] == CellState::Empty,
                forall|j: int| 0 <= j < k ==> #[trigger] entry(*data, j) <= 9,
            decreases 81 - k,
        {
            let row = k / COL_COUNT;
            let col = k % COL_COUNT;
            let value = data[row][col];
            assert(value == entry(*data, k as int));
            if value != 0 {
                let ghost before = grid.board();
                match grid.set_cell(Coordinate { row, col }, CellState::Filled(value)) {
                    Ok(_) => {
                        assert(grid.board() =~= before.update(k as int, CellState::Filled(value)));
                    },
                    Err(e) => {
                        return Err(e);
                    },
                }
            }
            k += 1;
        }
        Ok(grid)
    }
}

impl Default for Grid {
    /// The empty grid.
    fn default() -> (g: Grid)
        ensures
            g.wf(),
            forall|i: int| 0 <= i < 81 ==> (#[trigger] g@[i]).state == CellState::Empty,
            forall|i: int| 0 <= i < 81 ==> (#[trigger] g@[i]).solver_modifiable,
    {
        Grid::new_empty()
    }
}

} // verus!
