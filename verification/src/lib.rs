//! A falling-sand cellular automaton on an unbounded two-dimensional grid.
//!
//! The engine keeps a sparse store of cells, advances the world one tick at
//! a time, and moves material between neighbouring coordinates through a
//! density-weighted probabilistic swap primitive.

pub mod cells;
pub mod laws;
pub mod point;
mod rng;

pub use point::Point;
pub use point::point;
