//! A 9×9 Sudoku board with two interchangeable storages and an exhaustive
//! backtracking solver, with machine-checked contracts.
//!
//! * [`digit`]: the nine digits.
//! * [`board`]: the board as a mathematical value, and the rules of the puzzle.
//! * [`search`]: what the backtracking search computes, and the laws it obeys.
//! * [`grid`]: the [`grid::Grid`] interface with the operations on a board.
//! * [`naive`] and [`packed`]: one slot per cell, and two cells per byte.

pub mod digit;
pub mod board;
pub mod search;
mod frames;
pub mod grid;
pub mod naive;
pub mod packed;
