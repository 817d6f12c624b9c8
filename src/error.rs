use vstd::prelude::*;

use crate::grid::Coordinate;

verus! {

/// What a grid operation reports when it is handed an argument it cannot take.
#[derive(Debug, Clone, Copy, PartialEq, Eq, Structural)]
pub enum Error {
    /// The row or the column of the coordinate is 9 or more.
    CellIndexOutOfRange(Coordinate),
    /// A fill value is 0 or greater than 9.
    ValueOutOfRange(u8),
}

} // verus!
