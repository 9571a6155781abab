//! Coordination of a fleet of remotely driven vehicles over a road network.
//!
//! The library builds a routable graph from raw road geometry, plans shortest
//! routes between points as ordered waypoint sequences, keeps an append-only
//! registry of vehicles, and decides, step by step, the timed commands that
//! drive a vehicle along its route.
//!
//! All coordinates are fixed-point integers in milli-units: one map unit is
//! 1000. Distances are Euclidean, rounded down to the nearest milli-unit.

pub mod drive;
pub mod fleet;
pub mod geometry;
pub mod map;
pub mod navigation;
pub mod pathfinding;
