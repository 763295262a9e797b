//! One record of a region file: a compressed tagged tree.

pub mod chunk;
pub mod codec;
pub mod compression_scheme;
