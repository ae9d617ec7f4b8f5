//! Squared Euclidean distance transform of binary grids.
//!
//! For every cell of a two-dimensional binary grid, the transform computes
//! the squared Euclidean distance to the nearest feature cell (a cell that
//! holds `true`).  The core is the one-dimensional lower-envelope algorithm
//! of Felzenszwalb and Huttenlocher, extended to two dimensions by two
//! separable one-dimensional passes (columns, then rows).

pub mod dt;
pub mod grid;
pub mod props;
