//! Board utilities: flood fill, cell statistics, and the symmetries of the
//! square.

pub mod fill;
pub mod stats;
pub mod symmetry;
