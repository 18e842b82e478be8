//! Perfect mazes on a rectangular grid, carved by a randomized depth-first
//! walk, with the wall layout of every tile open to queries.

pub mod grid;
pub mod maze;
pub mod path;
pub mod perfect;
pub mod shuffle;
pub mod tile;
pub mod tree;
pub mod walk;

pub use crate::maze::{Maze, MazeError};
pub use crate::tile::Direction;
