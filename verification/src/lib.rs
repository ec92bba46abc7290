//! Online maze solving for a grid robot: a wall and distance map of the maze,
//! the trace of cells that were driven, and the search that picks the next cell.

use vstd::prelude::*;

pub mod bounded;
pub mod cell_map;
pub mod maze;
pub mod path;
pub mod pathfinder;
pub mod search;
pub mod vec;
pub mod ways;

verus! {

/// The maze width.
pub const MAZE_WIDTH_U8: u8 = 16;

/// The maze width, for indexing.
pub const MAZE_WIDTH_USIZE: usize = 16;

/// The maze height.
pub const MAZE_HEIGHT_U8: u8 = 16;

/// The maze height, for indexing.
pub const MAZE_HEIGHT_USIZE: usize = 16;

/// The maze size: the number of cells.
pub const MAZE_SIZE: usize = MAZE_WIDTH_USIZE * MAZE_HEIGHT_USIZE;

} // verus!
