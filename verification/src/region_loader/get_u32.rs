//! Reading one entry of a table.

use crate::big_endian::{be_u32, read_u32};
use vstd::prelude::*;

verus! {

/// The number that the four bytes of `buf` from `offset` on spell, most
/// significant byte first.
pub fn get_u32(buf: &[u8], offset: usize) -> (value: u32)
    requires
        offset + 4 <= buf.len(),
    ensures
        value == be_u32(buf@, offset as int),
{
    read_u32(buf, offset)
}

} // verus!
