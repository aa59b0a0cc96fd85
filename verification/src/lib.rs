//! An N-dimensional maze library: seeded spanning-tree maze generation over a
//! hyper-grid, O(1) wall queries, and a navigable 2D-projected view.

pub mod cells;
pub mod grid;
pub mod maze;
pub mod nav;
mod rng;
pub mod spanning;
