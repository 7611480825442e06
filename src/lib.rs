//! A 9x9 Sudoku solver by constraint propagation, with a reusable
//! before/after diff mechanism for undoable mutations.

pub mod board_index;
pub mod diff;
pub mod cell;
pub mod board;
