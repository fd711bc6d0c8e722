//! Solutions to a collection of daily programming puzzles, one module per
//! day.  Each module holds the data types and the computational rules of its
//! puzzle; reading input files and turning raw text into those types is left
//! to the surrounding application.

pub mod day02;
pub mod day03;
pub mod day04;
pub mod day05;
pub mod day08;
pub mod day09;
pub mod day10;
pub mod day11;
pub mod day12;
pub mod day13;
pub mod day15;
pub mod day18;
pub mod day19;
pub mod day20;
pub mod day22;
pub mod day23;
