//! Generation and solving of single-box sliding puzzles.
//!
//! The library enumerates or samples square boards of floor and wall
//! cells, prunes them down to a single connected floor region, places a
//! movable piece and a goal, deduplicates layouts under the symmetries of
//! the square, and decides by exhaustive search whether a board can be
//! solved and in how many moves.

pub mod base;
pub mod empty;
pub mod filter;
pub mod iters;
pub mod rng;
pub mod play;
pub mod tools;
