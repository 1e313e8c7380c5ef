//! A 2D continuous-collision engine for rigid convex polygons.
//!
//! Bodies move under constant acceleration; collisions between them are
//! detected with sub-frame precision (a time-of-impact solver over a
//! sweep-and-prune broad phase) and resolved with elastic impulses.
//!
//! All quantities are fixed-point values: an `i64` raw value counts
//! multiples of `1 / SCALE` world units. Arithmetic saturates at
//! `[-FX_MAX, FX_MAX]`, and every contract states the exact fixed-point
//! result, clipping included.

pub mod fixed;
pub mod geometry;
pub mod object;
pub mod camera;
pub mod traversed;
pub mod broad;
pub mod simulator;
pub mod laws;
