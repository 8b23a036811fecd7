//! The solver, from the bits up:
//!
//! - [`bitwise`] and [`data`]: the layout of one packed word and the word
//!   itself;
//! - [`rules`]: the game over a plain grid, and what a solution is;
//! - [`packed`]: what nine words mean as a grid with masks;
//! - [`text`]: the written forms of a grid;
//! - [`board`]: the board, its squares and its pool of blank squares;
//! - [`search`] and [`solve`]: what a search adds up to, and the engines;
//! - [`watch`]: the sequential search, one step at a time;
//! - [`square`] and [`square_order`]: a square that keeps its own packed
//!   state;
//! - [`laws`]: what holds of the solver as a whole.
pub mod bitwise;
pub mod board;
pub mod data;
pub mod laws;
pub mod packed;
pub mod rules;
pub mod search;
pub mod solve;
pub mod square;
pub mod square_order;
pub mod text;
pub mod watch;
