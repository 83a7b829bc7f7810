//! A minimal discrete constraint-propagation (wave-function-collapse style)
//! tile-map generator: a grid of possibility sets is narrowed round by round
//! by collapsing a minimum-entropy cell to a random kind and intersecting its
//! four neighbors' sets with the kind's adjacency rule.
//!
//! - [`tile`]: the closed kind set, the adjacency rule, set intersection.
//! - [`grid`]: cells and the bounds-checked grid, with their views.
//! - [`solver`]: entropy scan, candidate selection, collapse, propagation,
//!   and the fixed-round run loop, with its error conditions.
//! - [`laws`]: proved properties — monotonic narrowing, determinism under a
//!   fixed random trace, collapse stability, local adjacency.
//! - [`render`]: the character rendering of a finished grid.

pub mod grid;
pub mod laws;
pub mod render;
pub mod solver;
pub mod tile;
