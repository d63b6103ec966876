//! Generation of perfect mazes on an odd-sized square grid.
//!
//! A grid of alternating passage and wall cells is built, every wall cell is
//! collected into a worklist, and walls are then knocked down in random order
//! by a disjoint-set merge, so that the finished maze is connected and free of
//! cycles.

pub mod config;
pub mod laws;
pub mod maze;
pub mod maze_cell;

use vstd::prelude::*;

pub use config::Config;
pub use config::Mode;
pub use maze::generate_maze;
pub use maze::Maze;
pub use maze_cell::Cell;
pub use maze_cell::Neighbours;
pub use maze_cell::Pos;

verus! {

/// Marker for a blocked cell.
pub const WALL: u8 = 1;

/// Marker for an open (passage) cell.
pub const GROUND: u8 = 0;

} // verus!
