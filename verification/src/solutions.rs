//! Puzzle solutions built on the helpers.

pub mod day01;
pub mod day02;
pub mod day03;
pub mod day05;
pub mod day06;
pub mod day07;
pub mod day08;
pub mod day11;
pub mod day19;
pub mod day20;
