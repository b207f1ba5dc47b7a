//! A move-selection engine for five-in-a-row (Gomoku) on an N x N board:
//! incremental position hashing, a static positional evaluator, heuristic
//! candidate ranking, and an iterative-deepening negamax search with
//! alpha-beta pruning and a transposition cache.

use vstd::prelude::*;

pub mod board;
pub mod eval;
pub mod host;
pub mod laws;
pub mod rank;
pub mod search;
pub mod zobrist;

verus! {

/// An empty cell.
pub const EMPTY: i8 = 0;

/// Largest supported board edge; keeps every score sum well inside `i64`.
pub const MAX_SIZE: usize = 1024;

/// Deepest supported search; bounds recursion and the `depth * depth`
/// history bonus.
pub const MAX_DEPTH: usize = 64;

/// Terminal score for a completed five-in-a-row line.
pub const WIN: i64 = 100_000;

/// Root alpha-beta window bound.
pub const INF: i64 = 1_000_000;

/// Every score that the search manipulates stays within this magnitude.
pub const SCORE_LIMIT: i64 = 2_000_000_000_000;

/// Cap on an accumulated history value; the table saturates here.
pub const HIST_CAP: i64 = 1_000_000_000;

} // verus!
