//! Maze generation: cells packed into bytes, a grid of them, and generators
//! that record every change they make so that it can be replayed step by step.
pub mod cell;
pub mod generators;
pub mod maze;
pub mod utils;

pub use cell::{Cell, CellType};
pub use generators::generator::{MazeBuilder, MazeGenerator};
pub use maze::{Maze, MazeChange};
pub use utils::Draws;
