//! Naked-singles propagation for 9x9 sudoku boards, with machine-checked contracts.

pub mod candidates;
pub mod engine;
pub mod grid;
pub mod laws;
pub mod open_cells;
pub mod seq_facts;
pub mod sudoku;
pub mod validator;

pub use crate::engine::SolveError;
pub use crate::sudoku::{InputError, Sudoku};
