//! What each mode of the optimizer decides for one region file.

pub mod optimize_result;
pub mod palette;
pub mod write;
