//! The station grid and what stands on it.

pub mod generation;
pub mod gridmap;
pub mod gridposition;
pub mod pathfinding;
pub mod routing;
pub mod station;
pub mod tile;
