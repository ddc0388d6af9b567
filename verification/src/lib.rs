//! A dynamic spatial index over axis-aligned boxes on an integer grid.

pub mod geometry;
pub mod handle_table;
pub mod hierarchy;
pub mod index;
pub mod laws;
pub mod node;
pub mod proximity;
pub mod rebuild;
pub mod slab_table;
