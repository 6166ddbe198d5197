//! Paths between cells of a weighted grid, found by A* search.
//!
//! - [`board`]: the grid of plots and the movable cells around a cell.
//! - [`grid_text`]: reading a grid from its comma-separated text.
//! - [`distance`]: the straight-line distance estimate, in fixed point.
//! - [`frontier`]: the open set, with lazy deletion of stale entries.
//! - [`astar`]: the expansion loop, and the path rebuilt from predecessor links.
//! - [`corridor`]: what the search gives on a grid one row high.
pub mod astar;
pub mod board;
pub mod corridor;
pub mod distance;
pub mod frontier;
pub mod grid_text;
