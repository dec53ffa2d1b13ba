//! A verified solver for the game of Chomp.
//!
//! Players alternately pick a remaining cell of a rectangular chocolate bar
//! and eat it together with every cell to its upper right; whoever is forced
//! to take the poisoned cell at the origin loses.  The `board` module holds
//! the board representation and move application, the `solver` module the
//! memoized negamax search that computes the game-theoretic outcome and a
//! recommended move.

pub mod board;
pub mod solver;
