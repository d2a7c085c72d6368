//! An exact Connect-4 solver.
//!
//! A [`position::Position`] models the 6-row, 7-column board and is grown one
//! validated chip drop at a time; the [`solver::Solver`] replays a sequence of
//! column moves from the empty board and computes the game-theoretic score of
//! the resulting position by negamax search with alpha-beta pruning, a
//! transposition cache and center-first move ordering.

pub mod board;
pub mod color;
pub mod error;
pub mod position;
pub mod solver;
