//! Solvers for a collection of daily puzzles.
//!
//! Every day is a module of its own with a `part_1` and a `part_2`; each part
//! has a `solve` that reads the puzzle text and computes the answer.  The
//! grammar of each puzzle text is stated as functions over the bytes of the
//! text, and every parser is proved to read exactly what its grammar says.
//! The answer of each part is stated over what the grammar reads, and `solve`
//! is proved to compute it.

pub mod cubes;
pub mod day01;
pub mod day02;
pub mod day04;
pub mod day05;
pub mod day06;
pub mod day07;
pub mod day08;
pub mod day09;
pub mod day10;
pub mod day11;
pub mod day12;
pub mod decimal;
pub mod error;
pub mod text;
