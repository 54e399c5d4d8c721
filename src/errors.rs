use vstd::prelude::*;

verus! {

/// The two ways an operation of this library can fail.
#[derive(Debug, Clone, Copy, PartialEq, Eq, Structural)]
pub enum Error {
    /// A row, column or offset lies outside the board.
    OutOfRange,
    /// A text does not name one of the sixty-four squares.
    InvalidSquare,
}

} // verus!
