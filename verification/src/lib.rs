//! Puzzle-solving building blocks: a circular order-statistics container and a
//! few small grid, parsing and iteration helpers, with the puzzle solutions that
//! use them.

pub mod helpers;
pub mod solutions;
