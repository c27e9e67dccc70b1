//! A picross (nonogram) clue extractor and deterministic line solver.
//!
//! The crate turns an RGB bitmap into a puzzle of row and column clues,
//! pairs it with a blank board, and repeatedly applies the exact-fit
//! line rule until the board is solved or no forced deduction remains.

pub mod board;
pub mod game;
pub mod picross_image;
pub mod solver;

pub use board::Board;
pub use game::Game;
pub use picross_image::Image;
pub use solver::SolverBuilder;

