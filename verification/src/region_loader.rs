//! The region file: a header of two tables and, behind it, one record for
//! each chunk.

pub mod chunk_loader;
pub mod get_u32;
pub mod location;
pub mod region;
pub mod removal;
pub mod round_trip;
