use vstd::prelude::*;

verus! {

/// Why a board or a solver could not be built, an accessor refused its
/// index, or a search found no completion.
#[derive(Debug, Clone, Copy, PartialEq, Eq, Structural)]
pub enum SudokuError {
    /// The grid is not 9 rows of 9 cells.
    InvalidDimensions,
    /// A cell holds a value above 9.
    InvalidValue,
    /// A row, column or box index lies outside `0..=8`.
    InvalidIndex,
    /// Some row, column or box holds the same non-zero value twice.
    InvalidPuzzle,
    /// The puzzle breaks no rule but has no completion.
    Unsolvable,
}

} // verus!
