//! Sudoku puzzle logic: a bitmask constraint propagator, a backtracking solver
//! with uniqueness counting, a library of human solving techniques that yields
//! scored hints, a difficulty evaluator and a puzzle generator.

pub mod bits;
pub mod coloring;
pub mod deduce;
pub mod difficulty;
pub mod generator;
pub mod grid;
pub mod hint;
pub mod intersections;
pub mod scan;
pub mod singles;
pub mod solutions;
pub mod solver;
pub mod subsets;
pub mod techniques;
pub mod units;
pub mod wings;
