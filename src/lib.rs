//! Integer-valued broad-phase grid, gravity integration and pairwise
//! collision resolution for many circular bodies.
//!
//! Every length, speed and force is an integer in a unit chosen by the
//! caller (for example thousandths of a world unit), so that each step of
//! the simulation has an exact meaning that the contracts can state.

pub mod geometry;
pub mod grid;
pub mod gravity;
pub mod body;
