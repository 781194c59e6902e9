//! Rule engine of a Minesweeper game: a grid of cells, mine placement,
//! adjacency numbers, cascading reveal, flags and win / loss evaluation.

pub mod board;
pub mod cell;
pub mod game;
pub mod graphics;

pub use board::Board;
pub use cell::Cell;
pub use game::{Difficulty, Game};
pub use graphics::{Point, Size, Vec2};
