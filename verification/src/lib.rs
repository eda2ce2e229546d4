//! Core logic of an autonomous exploration agent on a 2D occupancy grid.
//!
//! The agent senses its surroundings with a rotating range sensor, integrates
//! the returns into an occupancy grid, picks frontier cells to explore, plans
//! safety-weighted paths to them, and follows those paths with local reactive
//! avoidance.  All geometry is fixed point: world positions are integer world
//! units, unit vectors and commands are thousandths.

pub mod cmd_vel;
pub mod distance;
pub mod done;
pub mod follow;
pub mod frontier;
pub mod grid;
pub mod mode;
pub mod params;
pub mod pathfind;
pub mod planner;
pub mod sensor;
pub mod update;
pub mod visited;
