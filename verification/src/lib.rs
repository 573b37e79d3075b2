//! Constrained shortest paths between waypoints for vehicles with different
//! maximum hop distances.
//!
//! Distances are whole metres and coordinates are millionths of a degree, so
//! that every rule of the planner is exact integer arithmetic.
//!
//! * `waypoint`: waypoints, their selection round a centre, waypoint sets.
//! * `graph`: the proximity graph of a waypoint set under a constraint.
//! * `search`: lowest-cost walks in a proximity graph.
//! * `registry`: one router per vehicle profile over a shared waypoint set.
//! * `service`: the operations offered to a front end.

pub mod waypoint;
pub mod graph;
pub mod search;
pub mod registry;
pub mod service;
