//! A 9×9 sudoku solver: a candidate matrix narrowed by constraint
//! propagation, and an exhaustive backtracking enumerator for what
//! propagation leaves open.

pub mod entity;
pub mod rulers;
pub mod algorithm;
pub mod check_position;
pub mod position_mutex;
pub mod guess;
pub mod solution;
pub mod parse;
pub mod probability;
