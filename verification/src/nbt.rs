//! The tagged binary tree format that holds a chunk's contents.

pub mod laws;
pub mod parse;
pub mod tag;
