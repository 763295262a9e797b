//! Reclaims disk space in saved worlds: reads region files, decides which
//! chunks are worthless, removes them and writes the region back.

pub mod big_endian;
pub mod cli;
pub mod commands;
pub mod nbt;
pub mod region_loader;
