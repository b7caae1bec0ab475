//! Any-angle path planning on an integer grid.
//!
//! Obstacles are polygons whose corners are grid points; the planner routes
//! between two grid points through the corners of the obstacles, and may cut
//! straight across wherever nothing stands in the way. Coordinates are whole
//! numbers of grid units: a caller that works in another unit picks the grid
//! spacing and converts at the edge. Lengths are measured finer than that, in
//! parts of a grid unit, so that a way along a diagonal is not made longer
//! than it is by more than one such part for each of its legs.

pub mod distance;
pub mod model;
pub mod obstacles;
pub mod open_list;
pub mod pathfinding;
pub mod route;
mod search;
pub mod utils;
