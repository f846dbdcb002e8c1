//! Expectimax move search for the 2048 puzzle.
//!
//! A board is a `u64` of sixteen 4-bit ranks (rank `n` is the tile `2^n`, rank
//! 0 an empty cell). Row tables give, for every 16-bit row, its slides, the
//! points of its merges and a heuristic score; moves and the static evaluation
//! read them. The search alternates move states and spawn states, memoises
//! spawn states by board, and ranks the legal moves of a board.
//!
//! Scores are integers: the heuristic weights are integers, a spawn state
//! averages with weights 9 and 1 (in tenths) and rounds down, and search values
//! saturate at `search::VALUE_CAP`.
use vstd::prelude::*;

pub mod board;
pub mod row;
pub mod tables;
pub mod moves;
pub mod eval;
pub mod cache;
pub mod search;

verus! {

} // verus!
