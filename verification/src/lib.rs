//! Simulation core of a procedurally generated space station: the tile grid,
//! routing across it, the items that furnish it and the inhabitants that live
//! in it.
//!
//! Everything here works on whole grid cells. Continuous motion between two
//! cells, drawing and persistence are left to the host program, which reports
//! back what it observed.

pub mod inhabitant;
pub mod item;
pub mod random;
pub mod station;
