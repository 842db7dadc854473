//! Conway's Game of Life on a fixed-size toroidal grid, with a small
//! run/pause/kill life cycle around the generation step.

pub mod grid;
pub mod engine;
pub mod laws;

pub use engine::{Gol, GolError};
