//! A move generator for crossword-style tile games.
//!
//! Given a rectangular board with some tiles already played, a dictionary and a
//! rack of letters (blanks included), the [`solver::Solver`] enumerates every
//! legal placement of rack tiles that forms only dictionary words, ranked by
//! score.  The engine is the Appel-Jacobson walk over a GADDAG word graph.
//!
//! - [`letters`]: the alphabet and sets of letters.
//! - [`dag`]: the word graph.
//! - [`tiles`]: rack letters, tiles, placements, directions, errors.
//! - [`grid`]: the mathematical model of the board, with anchors, cross-sets
//!   and the rules for laying a move.
//! - [`board`]: the board, which keeps anchors and cross-sets up to date.
//! - [`rules`]: the tests that hold a move against the rules.
//! - [`plays`]: what a legal play is.
//! - [`walk`], [`track`]: what the walk of the move generator proves of the
//!   moves that it records, and why it misses none.
//! - [`movegen`]: the move generator.
//! - [`scoring`]: the scoring policy and the score of a play.
//! - [`ranking`]: solutions and their order.
//! - [`solver`]: the solver.
//! - [`laws`]: what holds of the solver on every board.

pub mod letters;
pub mod dag;
pub mod tiles;
pub mod grid;
pub mod board;
pub mod rules;
pub mod plays;
pub mod walk;
pub mod track;
pub mod movegen;
pub mod scoring;
pub mod ranking;
pub mod solver;
pub mod laws;
