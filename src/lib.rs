//! Assembles the entries found by a walk of a directory, received in any
//! order, into one rooted tree held in an arena of `indextree`.
pub mod entry;
pub mod arena;
pub mod tree;
pub mod assembler;
