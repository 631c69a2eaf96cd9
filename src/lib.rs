//! Spreads 2D points apart until no two are closer than a target distance,
//! moving them as little as possible: an inverse-square repulsion between
//! close pairs, a per-iteration cap on every step, and an iteration ceiling.
//! Coordinates are fixed-point integers, `SCALE` units to the whole unit.
pub mod geometry;
pub mod model;
pub mod engine;
pub mod laws;

pub use engine::{space, space_with, Layout, Outcome, RelaxConfig};
pub use geometry::{Point, COORD_LIMIT, SCALE};
