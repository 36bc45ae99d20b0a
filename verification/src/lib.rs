//! A constraint-propagation solver for small grid-transformation puzzles.
//!
//! Training pairs of input/output grids are turned into directional
//! adjacency rules; a test grid then seeds a per-cell candidate-symbol
//! domain grid, which arc-consistency propagation and a budgeted
//! backtracking search narrow to a concrete output grid.

pub mod grid;
pub mod rules;
pub mod domain;
pub mod propagate;
pub mod search;
pub mod deduce;
pub mod canon;
