//! A 9x9 sudoku solver over a bit-packed board.
//!
//! The board is nine 64-bit words. Each word carries the digits of one row
//! and, in three 9-bit masks, the digits present in the row, the column and
//! the box that share the word's index. The search engines count or list
//! every completion of a puzzle, sequentially or on a thread pool, and their
//! contracts are stated against the plain rules of the game in
//! [`sudoku::rules`].
pub mod sudoku;
