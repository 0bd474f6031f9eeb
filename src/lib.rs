//! A two-dimensional particle solver: Verlet integration, a circular boundary,
//! collisions found through a uniform grid, and rigid-distance links.
//!
//! All lengths are fixed-point integers in a unit chosen by the caller; times
//! are whole microseconds.

pub mod geometry;
pub mod object;
pub mod grid;
pub mod constraint;
pub mod engine;

pub use geometry::Vec2;
pub use object::Object;
pub use grid::Grid;
pub use engine::{Link, LinkError, PhysicsEngine};
