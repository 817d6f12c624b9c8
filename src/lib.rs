//! A 9×9 Sudoku grid with checked cell access, placement queries and a
//! randomised backtracking solver, all verified.

pub mod error;
pub mod grid;
pub mod lemmas;
pub mod program;
pub mod solver;
pub mod text;

pub use error::Error;
pub use grid::{Cell, CellState, Coordinate, Grid};
pub use program::{Message, Mode, Program};
pub use solver::SolveError;
