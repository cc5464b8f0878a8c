//! The lazy board pipeline: empty-board makers, piece/goal fillers, the
//! symmetry and solvability filters, and the connectors that compose them.

pub mod empty;
pub mod filled;
pub mod holistic;
pub mod filter;
pub mod solvable;
