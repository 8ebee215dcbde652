//! Conway's Game of Life on a fixed-size toroidal grid.

pub mod bits;
pub mod universe;

pub use universe::Universe;
