//! Solutions to a series of daily puzzles, each a small verified pipeline
//! from input text to a pair of answers.
//!
//! `text` holds the byte-level parsing and formatting that the days share;
//! each `dayN` module holds one puzzle. `day20`, the pulse-propagation
//! simulator, carries the laws of its model as public proof functions.
pub mod text;
pub mod day0;
pub mod day1;
pub mod day2;
pub mod day3;
pub mod day4;
pub mod day5;
pub mod day6;
pub mod day7;
pub mod day8;
pub mod day9;
pub mod day11;
pub mod day12;
pub mod day13;
pub mod day14;
pub mod day15;
pub mod day16;
pub mod day18;
pub mod day19;
pub mod day20;
