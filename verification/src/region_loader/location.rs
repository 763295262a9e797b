//! One entry of a region's header: where a record lies, how many sectors it
//! takes, and when it was last written.

use crate::big_endian::{push_u32, u32_bytes};
use vstd::prelude::*;

verus! {

/// The bytes of one sector.
pub const SECTOR_SIZE: usize = 4096;

/// The bytes of the header: a table of locations and a table of timestamps.
pub const HEADER_SIZE: usize = 8192;

/// The greatest sector offset that three bytes hold, plus one.
pub const SECTOR_OFFSET_LIMIT: u32 = 16777216;

/// Where a record lies. The offset counts sectors from the end of the header,
/// so that a record right behind the header has the offset 0.
#[derive(Debug, Clone, Copy, PartialEq, Eq, Structural)]
pub struct Location {
    pub sector_offset: u32,
    pub sector_count: u8,
    /// Seconds; carried through unchanged.
    pub timestamp: u32,
}

/// Whether a record of `size` bytes at the byte `position` of a file can be
/// named by a location: it starts on a sector behind the header, within the
/// reach of three bytes, and takes between 1 and 255 whole sectors.
pub open spec fn locatable(position: int, size: int) -> bool {
    &&& position >= HEADER_SIZE
    &&& (position - HEADER_SIZE) % 4096 == 0
    &&& (position - HEADER_SIZE) / 4096 < SECTOR_OFFSET_LIMIT
    &&& size % 4096 == 0
    &&& 1 <= size / 4096 <= 255
}

impl Location {
    /// Whether the offset fits the three bytes that a table entry has for it.
    pub open spec fn wf(&self) -> bool {
        self.sector_offset < SECTOR_OFFSET_LIMIT
    }

    /// The table entry of this location: the offset in the upper three bytes,
    /// the sector count in the lowest.
    pub open spec fn entry(&self) -> int {
        self.sector_offset * 256 + self.sector_count
    }

    /// The byte of the file at which the record starts.
    pub open spec fn offset(&self) -> int {
        HEADER_SIZE + 4096 * self.sector_offset
    }

    /// The location of a record of `size` bytes at the byte `position` of the
    /// file, where there is one.
    pub fn new(position: u64, size: u64, timestamp: u32) -> (res: Result<Location, &'static str>)
        ensures
            res is Ok <==> locatable(position as int, size as int),
            res matches Err(e) ==> e@ == "the record cannot be named by a location"@,
            res matches Ok(location) ==> {
                &&& location.wf()
                &&& location.offset() == position
                &&& location.sector_count as int * 4096 == size
                &&& location.timestamp == timestamp
            },
    {
        if position < 8192 || (position - 8192) % 4096 != 0 || size % 4096 != 0 {
            return Err("the record cannot be named by a location");
        }
        let sector_offset: u64 = (position - 8192) / 4096;
        let sector_count: u64 = size / 4096;
        if sector_offset >= 16777216 || sector_count < 1 || sector_count > 255 {
            return Err("the record cannot be named by a location");
        }
        Ok(
            Location {
                sector_offset: sector_offset as u32,
                sector_count: sector_count as u8,
                timestamp,
            },
        )
    }

    /// The location that a table entry and its timestamp spell.
    pub fn from_bytes(entry: u32, timestamp: u32) -> (location: Location)
        ensures
            location.wf(),
            location.entry() == entry,
            location.sector_offset == entry / 256,
            location.sector_count == entry % 256,
            location.timestamp == timestamp,
    {
        Location {
            sector_offset: entry / 256,
            sector_count: (entry % 256) as u8,
            timestamp,
        }
    }

    /// Whether the slot holds a record: an entry of zero means that it holds
    /// none.
    pub fn is_valid(&self) -> (valid: bool)
        ensures
            valid == (self.sector_offset != 0 || self.sector_count != 0),
            self.wf() ==> valid == (self.entry() != 0),
    {
        self.sector_offset != 0 || self.sector_count != 0
    }

    /// The byte of the file at which the record starts.
    pub fn get_offset(&self) -> (offset: u64)
        ensures
            offset == self.offset(),
    {
        8192 + 4096 * (self.sector_offset as u64)
    }

    /// The bytes that the record's sectors take.
    pub fn get_size(&self) -> (size: u64)
        ensures
            size == 4096 * self.sector_count,
    {
        4096 * (self.sector_count as u64)
    }

    /// The time at which the record was last written.
    pub fn get_timestamp(&self) -> (timestamp: u32)
        ensures
            timestamp == self.timestamp,
    {
        self.timestamp
    }

    /// The four bytes of the entry in the table of locations.
    pub fn to_location_bytes(&self) -> (bytes: Vec<u8>)
        requires
            self.wf(),
        ensures
            bytes@ == u32_bytes(self.entry()),
    {
        let mut bytes: Vec<u8> = Vec::new();
        push_u32(&mut bytes, self.sector_offset * 256 + self.sector_count as u32);
        assert(bytes@ =~= u32_bytes(self.entry()));
        bytes
    }

    /// The four bytes of the entry in the table of timestamps.
    pub fn to_timestamp_bytes(&self) -> (bytes: Vec<u8>)
        ensures
            bytes@ == u32_bytes(self.timestamp as int),
    {
        let mut bytes: Vec<u8> = Vec::new();
        push_u32(&mut bytes, self.timestamp);
        assert(bytes@ =~= u32_bytes(self.timestamp as int));
        bytes
    }
}

} // verus!
