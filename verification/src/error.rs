use crate::position::Position;
use vstd::prelude::*;

verus! {

/// Why an attempted operation on a position was rejected.
#[derive(Debug, PartialEq, Eq)]
pub enum PositionOpError {
    /// The requested column index lies outside the board's seven columns.
    OutOfRangeCol(usize),
    /// The requested column is in range but already holds six chips.
    FullCol(usize),
    /// A replayed move sequence contained an illegal move: the wrapped leaf
    /// error, the whole sequence, and the index at which replay stopped.
    InvalidSequence { source: Box<PositionOpError>, seq: Vec<usize>, bad_idx: usize },
}

/// A rejected move together with the position it was attempted on, kept for
/// diagnostic reporting.
pub struct InvalidMoveError {
    col: usize,
    position: Position,
}

impl InvalidMoveError {
    /// The column of the rejected move.
    pub closed spec fn spec_col(self) -> usize {
        self.col
    }

    /// The position the move was attempted on.
    pub closed spec fn spec_position(self) -> Position {
        self.position
    }

    pub fn new(col: usize, pos: Position) -> (r: Self)
        ensures
            r.spec_col() == col,
            r.spec_position() == pos,
    {
        InvalidMoveError { col, position: pos }
    }

    /// The column of the rejected move.
    pub fn col(&self) -> (c: usize)
        ensures
            c == self.spec_col(),
    {
        self.col
    }

    /// The position the rejected move was attempted on.
    pub fn position(&self) -> (p: &Position)
        ensures
            *p == self.spec_position(),
    {
        &self.position
    }
}

} // verus!
