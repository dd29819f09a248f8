//! A small maze library: a square occupancy grid, a seeded random source,
//! and an incremental randomized depth-first maze generator that carves a
//! spanning tree of passages between the logical cells of the grid.

pub mod controller;
pub mod generator;
pub mod grid;
pub mod render;
pub mod rng;
