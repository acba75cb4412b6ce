//! One step at a time of an A* search over a fixed rectangular grid, and the
//! state that a program running the search keeps between steps.

pub mod astar;
pub mod coordinate;
pub mod state;

pub use astar::{astar_engine, get_manhattan_distance, get_neighbors, AStarPayload, AStarStatus};
pub use coordinate::{
    default_goal, default_start, grid_cells, Coordinate, ALLOW_DIAGONAL, TOTAL_X, TOTAL_Y,
};
pub use state::{speed_label, SearchState};
