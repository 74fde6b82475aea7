//! Shared data structures.

pub mod aa_tree;
pub mod circular;
pub mod grids;
pub mod iter;
pub mod key_space;
pub mod parsing;
pub mod shuffle_tree;
pub mod text;
pub mod tree_facts;
