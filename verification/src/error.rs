//! The fatal conditions of a run.

use vstd::prelude::*;

verus! {

/// `ParseError`: a token expected to be an integer is not one.
/// `ShapeError`: a board's rows do not form a square grid.
/// `NoWinnerError`: the draw sequence ended with no board ever winning.
#[derive(Clone, Copy, Debug, PartialEq, Eq, Structural)]
pub enum BingoError {
    ParseError,
    ShapeError,
    NoWinnerError,
}

} // verus!
