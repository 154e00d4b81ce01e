// A 9x9 Sudoku model: cells with reference-counted candidates, a board
// that keeps those counters in step with every write, a backtracking
// solver, and a puzzle generator.

pub mod board;
pub mod cell;
pub mod grid;
mod random;

pub use board::Board;
pub use cell::{Cell, CellStates};
