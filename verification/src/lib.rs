//! A sudoku solver and puzzle generator with verified elimination strategies.
pub mod bits;
pub mod cell;
pub mod grid;
pub mod model;
pub mod strategies;
pub mod level;
pub mod reduce;
pub mod search;
pub mod rng;
pub mod parse;
pub mod generate;
pub mod text;
pub mod unique;
