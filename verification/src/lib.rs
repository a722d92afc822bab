//! Spatial indexing for game worlds: a hierarchical quad-tree, a uniform grid
//! hash and a spatial hash that files sized entries under every cell they
//! cover.
//!
//! Coordinates are binary64 numbers held by their bit patterns; the library
//! compares them exactly as the hardware does, and leaves arithmetic on them
//! (cell computation, subdivision midpoints, distances) to the caller, which
//! hands the results in as plain values.
pub mod cells;
pub mod coord;
pub mod entry;
pub mod geometry;
pub mod grid;
pub mod quadtree;
pub mod ranking;
pub mod spatial_hash;

pub use coord::Coord;
pub use entry::{EntryView, SpatialEntry};
pub use geometry::{AABB, Vec2};
pub use grid::GridHash;
pub use quadtree::{QuadTree, Quarters};
pub use spatial_hash::SpatialHash;
