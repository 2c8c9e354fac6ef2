//! Sudoku grids of any perfect-square size: constraint checking, a backtracking
//! solver, a capped solution counter and a puzzle digger that keeps the
//! solution unique.

pub mod grid;
pub mod laws;
pub mod random;
pub mod rules;
pub mod solver;
pub mod text;
pub mod digger;
pub mod existence;
