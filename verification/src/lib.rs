//! A 9x9 Sudoku solver: a fixed 81-cell board with row, column, and 3x3
//! tile legality checks, and an iterative backtracking search over the
//! board's unknown cells, bounded by an optional attempt budget.
//!
//! The solver is proved to terminate on every input, to leave the cells
//! fixed by the puzzle untouched, and, when it reports success, to leave
//! the board completely filled with no constraint broken.

pub mod board;
pub mod brute_force_solver;
