//! A verified Connect-Four solver.
//!
//! The board is a 7-column, 6-row grid encoded in two 64-bit bitboards
//! (one byte per column, row 0 at the bottom).  `board` holds the bitboard
//! representation, move generation, win detection and the positional
//! heuristics; `engine` holds the depth-bounded negamax search with
//! alpha-beta pruning; `bits` holds the word-level reasoning toolkit that
//! the contracts are stated with.

pub mod bits;
pub mod board;
pub mod engine;
