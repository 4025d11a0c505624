//! Constraint propagation for 9x9 Sudoku grids over bitmask candidate sets.

pub mod closure;
pub mod elimination;
pub mod entry_num;
pub mod omission;
pub mod render;
pub mod soundness;
pub mod sudoku;
pub mod sudoku_api;
pub mod sudoku_essentials;
pub mod sudoku_get_indices;
