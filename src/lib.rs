//! Partitioning of an indexed triangle mesh into square cells of a 2D grid,
//! and selection of the cells that moving loaders keep active.

pub mod geometry;
pub mod partition;
pub mod laws;
pub mod streaming;
