//! Constraint propagation for a 9×9 digit grid.
//!
//! Every position of the grid is a [`cell::Cell`]: a committed digit or a
//! set of candidate digits. A [`structure::Sudoku`] holds the 81 cells and
//! an ordered list of rules, and `solve` applies the rules until the grid is
//! solved or nothing more is committed. What the rules and a run compute is
//! defined in [`model`], and [`laws`] states what follows from it.

pub mod cell;
pub mod laws;
pub mod model;
pub mod presets;
pub mod rules;
pub mod structure;
pub mod text;
