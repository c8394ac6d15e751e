//! Sliding-tile puzzles with machine-checked contracts.
//!
//! A puzzle is a board of numbered tiles and one blank. The crate holds two
//! boards: [`grid2d::Grid2D`], a dense board behind the [`grid_traits::Grid`]
//! contract, and [`board::Board`], a flat board with the goal it is played
//! towards and a text form. [`generator`] lays out goal layouts and scrambles
//! a board by a random walk that never shows a layout twice. [`game`] and
//! [`launcher`] hold what a front end decides: what a move does to the tiles
//! on the screen, and which board a run starts from.
//!
//! Every function states what it returns and changes over the abstract
//! state of its types, their views, and Verus proves that it does so. The
//! one thing taken on trust is that shuffling a list of moves gives back the
//! same moves.

pub mod board;
pub mod game;
pub mod generator;
pub mod grid2d;
pub mod grid_traits;
pub mod launcher;
pub mod layout;
pub mod parse;
mod random;
pub mod spiral;
pub mod status;
pub mod text;
pub mod utils;

pub use board::Board;
pub use generator::{Generator, PuzzleType};
pub use grid2d::{Coords, Direction, Grid2D};
pub use grid_traits::Grid;
pub use launcher::{Launcher, PuzzleMode};
pub use status::ErrorKind;
