//! The ways in which building a puzzle fails.

use vstd::prelude::*;

verus! {

/// Why no puzzle was built. No partial puzzle is handed out with any of
/// these.
#[derive(Clone, Copy, Debug, PartialEq, Eq, Structural)]
pub enum PuzzleError {
    /// The number of equations asked for is zero.
    InvalidArgument,
    /// A cell to be written lies outside the grid: the grid is too small
    /// for the equation.
    InternalBoundsError,
    /// The attempts allowed for placing one more equation were used up
    /// without finding a place for it.
    AttemptsExhausted,
}

} // verus!
