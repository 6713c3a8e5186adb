//! A territory-expansion board game engine and its training rules.
//!
//! The board is a rectangular grid of cells.  Stones are played on *playable*
//! (`Yellow`) cells only; the *spread* mechanic gradually converts hidden
//! (`White`) cells to playable ones around the last play, or across the whole
//! board when no local reveal happens.  A player wins by completing three of
//! their stones in a row in any of the eight compass directions.
//!
//! On top of the board sit a positional heuristic evaluator, a depth-bounded
//! lookahead search, and the decision rules of an evolutionary trainer that
//! mutates a move-scoring policy and accepts a mutant only when it beats the
//! current champion's benchmark fitness.

pub mod eval;
pub mod grid;
pub mod runner;
pub mod search;
