//! Solver for the snake-cube puzzle: fold a chain of rigid unit-cube
//! segments, joined by pivoting joints, into a solid cube of a given side
//! length so that every cell is covered exactly once.
//!
//! The crate is organised leaf-first: vector geometry, the per-direction
//! extent bounds and the occupancy tracker, then the backtracking search
//! engine that ties them together. The search engine's contract pins its
//! outcome to a specification-level model of the same expansion order, so
//! the returned fold sequence is the first valid one under the fixed
//! direction order, deterministically.

pub mod bounds;
pub mod geometry;
pub mod occupancy;
pub mod search;
pub mod state;
pub mod validate;

pub use bounds::Bounds;
pub use geometry::{Direction, Position};
pub use occupancy::Bitmask;
pub use state::AttemptParams;
pub use validate::{validate_input, InputError};
