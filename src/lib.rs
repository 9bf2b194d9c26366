//! Water-sort puzzles: a verified model of vials and pours, a compact text
//! form, and a best-first solver over the pour graph.
pub mod bound;
pub mod color;
pub mod error;
pub mod text;
pub mod vial;
pub mod puzzle;
pub mod queue;
pub mod seen;
pub mod solver;

pub use color::Color;
pub use error::PuzzleError;
pub use vial::Vial;
pub use puzzle::{Move, Puzzle};
pub use solver::solve;
