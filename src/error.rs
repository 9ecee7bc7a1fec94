use vstd::prelude::*;

verus! {

/// The ways in which a step of the collapse can fail.
#[derive(Clone, Copy, Debug, PartialEq, Eq, Structural)]
pub enum WfcError {
    /// A cell was asked for while every cell holds at most one candidate.
    NoUndecidedCell,
    /// Dropping the variants that point off the grid left the cell at
    /// `(row, col)` with no candidate.
    UnsatisfiableCell { row: usize, col: usize },
    /// Narrowing the neighbour at `(row, col)` left it with no candidate.
    Contradiction { row: usize, col: usize },
}

} // verus!
