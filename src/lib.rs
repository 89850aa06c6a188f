//! Generation of an "all colors" mosaic: every discretized RGB color is placed
//! exactly once on a square toroidal grid, grown from its nearest already-placed
//! neighbor in color space.

pub mod color;
pub mod engine;
pub mod open_set;
pub mod rng;
