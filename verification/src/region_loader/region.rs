//! A region: the chunks of one region file, read from its bytes and written
//! back to bytes.

use crate::big_endian::{be_u32, u32_bytes};
use crate::region_loader::chunk_loader::chunk::{
    bytes_of, chunk_at, lemma_plain_payload, payload_fits, plain_payload, position, record_with,
    settled, unpacks, writable, written_as, Chunk, ChunkView,
};
use crate::region_loader::get_u32::get_u32;
use crate::region_loader::location::{locatable, Location, HEADER_SIZE};
use crate::region_loader::round_trip::{
    addressed, lemma_round_trip, one_chunk_per_slot, positioned,
};
use vstd::prelude::*;

verus! {

/// The bytes of the table of locations.
pub const LOCATION_TABLE_SIZE: usize = 4096;

/// The bytes of the table of timestamps.
pub const TIMESTAMP_TABLE_SIZE: usize = 4096;

/// The slots of each table.
pub const SLOTS: usize = 1024;

/// The chunks of one region file, in the order in which they will be
/// written, and whether any was removed since the file was read.
#[derive(PartialEq, Debug)]
pub struct Region {
    chunks: Vec<Chunk>,
    is_modified: bool,
}

/// Why the bytes of a file gave no region.
#[derive(Debug, Clone, Copy, PartialEq, Eq, Structural)]
pub enum ParseRegionError {
    /// The file could not be read.
    ReadError,
    /// The file is shorter than a header.
    HeaderError,
}

/// A region as a mathematical value.
pub struct RegionView {
    pub chunks: Seq<ChunkView>,
    pub is_modified: bool,
}

/// The chunks of `s` as mathematical values, one for one.
pub open spec fn chunk_views(s: Seq<Chunk>) -> Seq<ChunkView> {
    s.map_values(|c: Chunk| c@)
}

/// The location that slot `i` of the header of `bytes` spells.
pub open spec fn slot_location(bytes: Seq<u8>, i: int) -> Location {
    Location {
        sector_offset: (be_u32(bytes, 4 * i) / 256) as u32,
        sector_count: (be_u32(bytes, 4 * i) % 256) as u8,
        timestamp: be_u32(bytes, LOCATION_TABLE_SIZE + 4 * i) as u32,
    }
}

/// The chunks that the first `n` slots of the header of `bytes` name, in the
/// order of the slots. A slot whose entry is zero names none, and neither
/// does one at whose location no whole record stands.
pub open spec fn chunks_in(bytes: Seq<u8>, n: int) -> Seq<ChunkView>
    decreases n,
{
    if n <= 0 {
        Seq::empty()
    } else {
        let before = chunks_in(bytes, n - 1);
        if be_u32(bytes, 4 * (n - 1)) != 0 {
            match chunk_at(bytes, slot_location(bytes, n - 1), (n - 1) as usize) {
                Some(chunk) => before.push(chunk),
                None => before,
            }
        } else {
            before
        }
    }
}

/// The region that `bytes` hold: `HeaderError` where they are shorter than a
/// header, else the chunks that the 1024 slots name, with nothing modified.
pub open spec fn parsed(bytes: Seq<u8>) -> Result<RegionView, ParseRegionError> {
    if bytes.len() < HEADER_SIZE {
        Err(ParseRegionError::HeaderError)
    } else {
        Ok(RegionView { chunks: chunks_in(bytes, SLOTS as int), is_modified: false })
    }
}

/// The byte of a table at which the entry of the chunk at `(x, z)` stands:
/// four bytes for each of the 32 by 32 chunks of a region, row by row.
pub open spec fn table_position(x: i32, z: i32) -> int {
    4 * ((x as int % 32) + (z as int % 32) * 32)
}

/// The bytes that fill a record up to the next whole sector.
pub open spec fn padding(len: int) -> int {
    (4096 - len % 4096) % 4096
}

/// A record filled up with zero bytes to whole sectors.
pub open spec fn padded(record: Seq<u8>) -> Seq<u8> {
    record + Seq::new(padding(record.len() as int) as nat, |i: int| 0u8)
}

/// `table` with the four bytes `entry` written at the byte `at`.
pub open spec fn with_entry(table: Seq<u8>, at: int, entry: Seq<u8>) -> Seq<u8> {
    table.update(at, entry[0]).update(at + 1, entry[1]).update(at + 2, entry[2]).update(
        at + 3,
        entry[3],
    )
}

/// The parts of a region file: the two tables and what follows the header.
pub struct Parts {
    pub locations: Seq<u8>,
    pub timestamps: Seq<u8>,
    pub data: Seq<u8>,
}

/// The parts of a file that holds no chunk yet: two tables of zeros.
pub open spec fn no_parts() -> Parts {
    Parts {
        locations: Seq::new(LOCATION_TABLE_SIZE as nat, |i: int| 0u8),
        timestamps: Seq::new(TIMESTAMP_TABLE_SIZE as nat, |i: int| 0u8),
        data: Seq::empty(),
    }
}

/// The parts of a file with one more record: the record is filled up to
/// whole sectors and appended. Where its chunk has a position, the record's
/// location and the chunk's timestamp are entered in the tables at the slot
/// of that position, over what an earlier chunk may have entered there; a
/// chunk without a position gets no entry. `None` where the record comes to
/// lie where no location can name it.
pub open spec fn placed(
    parts: Parts,
    position: Option<(i32, i32)>,
    timestamp: u32,
    record: Seq<u8>,
) -> Option<Parts> {
    let sectors = padded(record);
    if !locatable(HEADER_SIZE + parts.data.len(), sectors.len() as int) {
        None
    } else {
        let entry = (parts.data.len() / 4096) * 256 + sectors.len() / 4096;
        match position {
            Some((x, z)) => Some(
                Parts {
                    locations: with_entry(
                        parts.locations,
                        table_position(x, z),
                        u32_bytes(entry as int),
                    ),
                    timestamps: with_entry(
                        parts.timestamps,
                        table_position(x, z),
                        u32_bytes(timestamp as int),
                    ),
                    data: parts.data + sectors,
                },
            ),
            None => Some(
                Parts {
                    locations: parts.locations,
                    timestamps: parts.timestamps,
                    data: parts.data + sectors,
                },
            ),
        }
    }
}

/// The parts of the file after the first `n` of `chunks` were written in
/// their order, the chunk `i` with the payload `payloads[i]`. `None` where
/// one of them has no record, or its record cannot be placed.
pub open spec fn written_parts(chunks: Seq<ChunkView>, payloads: Seq<Seq<u8>>, n: int) -> Option<
    Parts,
>
    decreases n,
{
    if n <= 0 {
        Some(no_parts())
    } else {
        match written_parts(chunks, payloads, n - 1) {
            None => None,
            Some(parts) => match record_with(chunks[n - 1], payloads[n - 1]) {
                None => None,
                Some(record) => placed(
                    parts,
                    position(chunks[n - 1]),
                    chunks[n - 1].location.timestamp,
                    record,
                ),
            },
        }
    }
}

/// The bytes of a file: the table of locations, the table of timestamps, the
/// records.
pub open spec fn joined(parts: Parts) -> Seq<u8> {
    parts.locations + parts.timestamps + parts.data
}

/// The bytes that `chunks` are written as with the payloads `payloads`;
/// `None` where a chunk has no record or a record cannot be placed.
pub open spec fn written(chunks: Seq<ChunkView>, payloads: Seq<Seq<u8>>) -> Option<Seq<u8>> {
    match written_parts(chunks, payloads, chunks.len() as int) {
        Some(parts) => Some(joined(parts)),
        None => None,
    }
}

/// Whether `payloads` holds, for each of `chunks`, a payload that the chunk
/// may be written with at the level `level`.
pub open spec fn payloads_fit(chunks: Seq<ChunkView>, level: u32, payloads: Seq<Seq<u8>>) -> bool {
    &&& payloads.len() == chunks.len()
    &&& forall|i: int|
        0 <= i < chunks.len() ==> payload_fits(chunks[i], level, #[trigger] payloads[i])
}

/// Payloads that fit `chunks` whatever the compressors do.
pub open spec fn plain_payloads(chunks: Seq<ChunkView>, level: u32) -> Seq<Seq<u8>> {
    Seq::new(chunks.len(), |i: int| plain_payload(chunks[i], level))
}

/// `plain_payloads` fit the chunks.
pub proof fn lemma_plain_payloads(chunks: Seq<ChunkView>, level: u32)
    ensures
        payloads_fit(chunks, level, plain_payloads(chunks, level)),
{
    assert forall|i: int| 0 <= i < chunks.len() implies payload_fits(
        chunks[i],
        level,
        #[trigger] plain_payloads(chunks, level)[i],
    ) by {
        lemma_plain_payload(chunks[i], level);
    }
}

/// Once a chunk cannot be written, the file cannot.
pub proof fn lemma_written_parts_none(
    chunks: Seq<ChunkView>,
    payloads: Seq<Seq<u8>>,
    m: int,
    n: int,
)
    requires
        0 <= m <= n,
        written_parts(chunks, payloads, m) is None,
    ensures
        written_parts(chunks, payloads, n) is None,
    decreases n - m,
{
    if m < n {
        lemma_written_parts_none(chunks, payloads, m, n - 1);
    }
}

/// What is written of the first `n` chunks depends on the first `n`
/// payloads only.
pub proof fn lemma_written_parts_agree(
    chunks: Seq<ChunkView>,
    a: Seq<Seq<u8>>,
    b: Seq<Seq<u8>>,
    n: int,
)
    requires
        forall|i: int| 0 <= i < n ==> a[i] == b[i],
    ensures
        written_parts(chunks, a, n) == written_parts(chunks, b, n),
    decreases n,
{
    if n > 0 {
        lemma_written_parts_agree(chunks, a, b, n - 1);
    }
}

/// Whether the compressor took the tree of every chunk: each payload of a
/// decoded chunk decodes to the bytes of the chunk's tree.
pub open spec fn all_unpack(chunks: Seq<ChunkView>, payloads: Seq<Seq<u8>>) -> bool {
    forall|i: int| 0 <= i < chunks.len() ==> unpacks(chunks[i], #[trigger] payloads[i])
}

/// Whether `out` is what writing `chunks` at the level `level` gives where
/// their payloads come to be `payloads`: each payload fits its chunk, `out`
/// is the file with those payloads, and where there is a file, the
/// compressor took every tree and no two chunks claim one slot, the file
/// holds the chunks again when it is read.
pub open spec fn region_written_as(
    chunks: Seq<ChunkView>,
    level: u32,
    payloads: Seq<Seq<u8>>,
    out: Option<Seq<u8>>,
) -> bool {
    &&& payloads_fit(chunks, level, payloads)
    &&& out == written(chunks, payloads)
    &&& out matches Some(file) ==> (one_chunk_per_slot(chunks) && all_unpack(chunks, payloads)
        ==> round_trips(chunks, file))
}

/// Whether `file` holds `chunks` again when it is read: it is read as an
/// unmodified region of as many chunks as have a position; that region
/// resolves the position of each of them to the chunk's content and
/// timestamp; and the tables of the file address each of them.
pub open spec fn round_trips(chunks: Seq<ChunkView>, file: Seq<u8>) -> bool {
    &&& parsed(file) matches Ok(r) && r.chunks.len() == positioned(chunks, chunks.len() as int)
        && !r.is_modified
    &&& resolves_all(chunks, parsed(file))
    &&& forall|i: int| 0 <= i < chunks.len() ==> addressed(#[trigger] chunks[i], file)
}

/// Whether the region `region` resolves the position of the chunk `c` to a
/// chunk with the content and the timestamp of `c`.
pub open spec fn resolves(c: ChunkView, region: Result<RegionView, ParseRegionError>) -> bool {
    match (region, position(c)) {
        (Ok(r), Some((x, z))) => {
            &&& first_at(r.chunks, x, z, 0) matches Some(j)
            &&& r.chunks[j].nbt == c.nbt
            &&& r.chunks[j].location.timestamp == c.location.timestamp
        },
        _ => false,
    }
}

/// Whether the region `region` resolves the position of every one of
/// `chunks` that has one.
pub open spec fn resolves_all(
    chunks: Seq<ChunkView>,
    region: Result<RegionView, ParseRegionError>,
) -> bool {
    forall|i: int|
        0 <= i < chunks.len() && position(chunks[i]) is Some ==> resolves(
            #[trigger] chunks[i],
            region,
        )
}

/// The index of the first chunk from `from` on that stands at `(x, z)`.

pub open spec fn first_at(chunks: Seq<ChunkView>, x: i32, z: i32, from: int) -> Option<int>
    decreases chunks.len() - from,
{
    if from < 0 || from >= chunks.len() {
        None
    } else if position(chunks[from]) == Some((x, z)) {
        Some(from)
    } else {
        first_at(chunks, x, z, from + 1)
    }
}

/// `chunk_views` of a sequence with one more chunk.
pub proof fn lemma_chunk_views_push(s: Seq<Chunk>, c: Chunk)
    ensures
        chunk_views(s.push(c)) == chunk_views(s).push(c@),
{
    assert(chunk_views(s.push(c)) =~= chunk_views(s).push(c@));
}

impl View for Region {
    type V = RegionView;

    closed spec fn view(&self) -> RegionView {
        RegionView { chunks: chunk_views(self.chunks@), is_modified: self.is_modified }
    }
}

impl ParseRegionError {
    /// What went wrong, in words.
    pub fn message(&self) -> (text: &'static str)
        ensures
            text@ == match self {
                ParseRegionError::ReadError => "error while reading the file"@,
                ParseRegionError::HeaderError => "cannot read header of region file"@,
            },
    {
        match self {
            ParseRegionError::ReadError => "error while reading the file",
            ParseRegionError::HeaderError => "cannot read header of region file",
        }
    }
}

impl Region {
    /// Whether every chunk of the region is as it is read from a file, and
    /// can be written down.
    pub closed spec fn wf(&self) -> bool {
        forall|i: int|
            0 <= i < self.chunks.len() ==> (#[trigger] self.chunks[i]).wf() && settled(
                self.chunks[i]@,
            )
    }

    /// `wf` says of the region's view that each chunk is writable and
    /// settled.
    pub proof fn lemma_wf(&self)
        ensures
            self.wf() <==> forall|i: int|
                0 <= i < self@.chunks.len() ==> writable(#[trigger] self@.chunks[i]) && settled(
                    self@.chunks[i],
                ),
    {
        if self.wf() {
            assert forall|i: int| 0 <= i < self@.chunks.len() implies writable(
                #[trigger] self@.chunks[i],
            ) && settled(self@.chunks[i]) by {
                assert(self.chunks[i].wf());
            }
        }
        if forall|i: int|
            0 <= i < self@.chunks.len() ==> writable(#[trigger] self@.chunks[i]) && settled(
                self@.chunks[i],
            ) {
            assert forall|i: int| 0 <= i < self.chunks.len() implies (
            #[trigger] self.chunks[i]).wf() && settled(self.chunks[i]@) by {
                assert(writable(self@.chunks[i]));
            }
        }
    }

    /// The region of a file, from what reading the file gave: `None` stands
    /// for a file that could not be read.
    pub fn from_file_name(contents: Option<Vec<u8>>) -> (res: Result<Self, ParseRegionError>)
        ensures
            match res {
                Ok(region) => contents matches Some(bytes) && parsed(bytes@) == Ok::<
                    RegionView,
                    ParseRegionError,
                >(region@) && region.wf(),
                Err(e) => match contents {
                    Some(bytes) => parsed(bytes@) == Err::<RegionView, ParseRegionError>(e),
                    None => e == ParseRegionError::ReadError,
                },
            },
    {
        match contents {
            Some(bytes) => Region::from_bytes(bytes.as_slice()),
            None => Err(ParseRegionError::ReadError),
        }
    }

    /// The region that the bytes of a file hold.
    pub fn from_bytes(bytes: &[u8]) -> (res: Result<Self, ParseRegionError>)
        ensures
            match res {
                Ok(region) => parsed(bytes@) == Ok::<RegionView, ParseRegionError>(region@)
                    && region.wf(),
                Err(e) => parsed(bytes@) == Err::<RegionView, ParseRegionError>(e),
            },
    {
        if bytes.len() < HEADER_SIZE {
            return Err(ParseRegionError::HeaderError);
        }
        let mut chunks: Vec<Chunk> = Vec::new();
        let mut i: usize = 0;
        assert(chunk_views(chunks@) =~= chunks_in(bytes@, 0));
        while i < SLOTS
            invariant
                i <= SLOTS,
                bytes.len() >= HEADER_SIZE,
                chunk_views(chunks@) == chunks_in(bytes@, i as int),
                forall|j: int|
                    0 <= j < chunks.len() ==> (#[trigger] chunks[j]).wf() && settled(chunks[j]@),
            decreases SLOTS - i,
        {
            let l = get_u32(bytes, 4 * i);
            let timestamp = get_u32(bytes, LOCATION_TABLE_SIZE + 4 * i);
            let location = Location::from_bytes(l, timestamp);
            assert(location == slot_location(bytes@, i as int));
            if location.is_valid() {
                match Chunk::from_location(bytes, location, i) {
                    Ok(chunk) => {
                        proof {
                            lemma_chunk_views_push(chunks@, chunk);
                        }
                        chunks.push(chunk);
                    },
                    Err(_) => {},
                }
            }
            i += 1;
        }
        Ok(Self { chunks, is_modified: false })
    }

    /// The chunks of the region, in their order.
    pub fn get_chunks(&self) -> (chunks: &Vec<Chunk>)
        ensures
            chunk_views(chunks@) == self@.chunks,
            self.wf() ==> forall|i: int|
                0 <= i < chunks.len() ==> (#[trigger] chunks[i]).wf() && settled(chunks[i]@),
    {
        &self.chunks
    }

    /// The first chunk that stands at `(x, z)`.
    pub fn get_chunk(&self, x: i32, z: i32) -> (res: Option<&Chunk>)
        ensures
            match res {
                Some(chunk) => first_at(self@.chunks, x, z, 0) matches Some(i) && self@.chunks[i]
                    == chunk@,
                None => first_at(self@.chunks, x, z, 0) is None,
            },
    {
        let mut i: usize = 0;
        while i < self.chunks.len()
            invariant
                i <= self.chunks.len(),
                first_at(self@.chunks, x, z, 0) == first_at(self@.chunks, x, z, i as int),
            decreases self.chunks.len() - i,
        {
            assert(self@.chunks[i as int] == self.chunks[i as int]@);
            match self.chunks[i].get_position() {
                Ok(position) => {
                    if position.0 == x && position.1 == z {
                        return Some(&self.chunks[i]);
                    }
                },
                Err(_) => {},
            }
            i += 1;
        }
        None
    }

    /// The number of chunks.
    pub fn get_chunk_count(&self) -> (count: usize)
        ensures
            count == self@.chunks.len(),
    {
        self.chunks.len()
    }

    /// Removes the chunk at `index`; the chunks behind it move up by one. The
    /// region counts as modified from then on.
    pub fn remove_chunk_by_index(&mut self, index: usize)
        requires
            index < old(self)@.chunks.len(),
        ensures
            final(self)@.chunks == old(self)@.chunks.remove(index as int),
            final(self)@.is_modified,
            old(self).wf() ==> final(self).wf(),
    {
        self.chunks.remove(index);
        self.is_modified = true;
        assert(chunk_views(self.chunks@) =~= chunk_views(old(self).chunks@).remove(index as int));
        assert(old(self).wf() ==> self.wf()) by {
            if old(self).wf() {
                assert forall|i: int| 0 <= i < self.chunks.len() implies (
                #[trigger] self.chunks[i]).wf() && settled(self.chunks[i]@) by {
                    if i < index {
                        assert(old(self).chunks[i].wf());
                    } else {
                        assert(old(self).chunks[i + 1].wf());
                    }
                }
            }
        }
    }

    /// Whether the region holds no chunk.
    pub fn is_empty(&self) -> (empty: bool)
        ensures
            empty == (self@.chunks.len() == 0),
    {
        self.chunks.is_empty()
    }

    /// Whether a chunk was removed since the region was read.
    pub fn is_modified(&self) -> (modified: bool)
        ensures
            modified == self@.is_modified,
    {
        self.is_modified
    }

    /// Lets the region count as modified.
    pub fn mark_as_modified(&mut self)
        ensures
            final(self)@.chunks == old(self)@.chunks,
            final(self)@.is_modified,
            old(self).wf() ==> final(self).wf(),
    {
        self.is_modified = true;
    }
}

/// The byte of a table at which the entry of the chunk at `(x, z)` stands.
pub fn get_position_in_table(x: i32, z: i32) -> (at: usize)
    ensures
        at == table_position(x, z),
        at % 4 == 0,
        at + 4 <= LOCATION_TABLE_SIZE,
{
    let column: i32 = x & 31;
    let row: i32 = z & 31;
    assert(0 <= column < 32 && column == x % 32) by (bit_vector)
        requires
            column == x & 31,
    ;
    assert(0 <= row < 32 && row == z % 32) by (bit_vector)
        requires
            row == z & 31,
    ;
    (4 * (column + row * 32)) as usize
}

/// Fills `vec` up with zero bytes to the next whole sector.
pub fn align_vec_size(vec: &mut Vec<u8>)
    requires
        old(vec).len() + 4095 <= usize::MAX,
    ensures
        final(vec)@ == padded(old(vec)@),
        final(vec).len() % 4096 == 0,
        final(vec).len() == ((old(vec).len() + 4095) / 4096) * 4096,
{
    let aligned_size: usize = ((vec.len() + 4095) / 4096) * 4096;
    vec.resize(aligned_size, 0);
    assert(vec@ =~= padded(old(vec)@));
}

/// A region file in the making: the two tables and the records written so
/// far.
pub struct Assembly {
    locations: Vec<u8>,
    timestamps: Vec<u8>,
    data: Vec<u8>,
}

impl View for Assembly {
    type V = Parts;

    closed spec fn view(&self) -> Parts {
        Parts { locations: self.locations@, timestamps: self.timestamps@, data: self.data@ }
    }
}

impl Assembly {
    /// Whether the tables are whole and the records end on a sector.
    pub open spec fn wf(&self) -> bool {
        &&& self@.locations.len() == LOCATION_TABLE_SIZE
        &&& self@.timestamps.len() == TIMESTAMP_TABLE_SIZE
        &&& self@.data.len() % 4096 == 0
    }

    /// A file that holds no chunk yet.
    pub fn new() -> (assembly: Assembly)
        ensures
            assembly@ == no_parts(),
            assembly.wf(),
    {
        let locations: Vec<u8> = vec![0u8; 4096];
        let timestamps: Vec<u8> = vec![0u8; 4096];
        let data: Vec<u8> = Vec::new();
        assert(locations@ =~= no_parts().locations);
        assert(timestamps@ =~= no_parts().timestamps);
        assert(data@ =~= no_parts().data);
        Assembly { locations, timestamps, data }
    }

    /// Appends one record and enters it in the tables: see `placed`. Where
    /// the record cannot be placed, nothing changes and `false` comes back.
    pub fn place(&mut self, position: Option<(i32, i32)>, timestamp: u32, record: Vec<u8>) -> (done:
        bool)
        requires
            old(self).wf(),
        ensures
            match placed(old(self)@, position, timestamp, record@) {
                Some(parts) => done && final(self)@ == parts && final(self).wf(),
                None => !done && final(self)@ == old(self)@,
            },
    {
        let mut serialized = record;
        let written: u64 = self.data.len() as u64;
        if serialized.len() > 255 * 4096 || written >= 16777216 * 4096 {
            return false;
        }
        align_vec_size(&mut serialized);
        let new_position: u64 = written + 8192;
        let new_size: u64 = serialized.len() as u64;
        let new_location = match Location::new(new_position, new_size, timestamp) {
            Ok(location) => location,
            Err(_) => {
                return false;
            },
        };
        assert(new_location.entry() == (self.data.len() / 4096) * 256 + serialized.len() / 4096);
        match position {
            Some((x, z)) => {
                let position_in_table = get_position_in_table(x, z);
                let location_bytes = new_location.to_location_bytes();
                write_entry(&mut self.locations, position_in_table, &location_bytes);
                let timestamp_bytes = new_location.to_timestamp_bytes();
                write_entry(&mut self.timestamps, position_in_table, &timestamp_bytes);
            },
            None => {},
        }
        self.data.append(&mut serialized);
        true
    }

    /// The bytes of the file.
    pub fn into_bytes(self) -> (bytes: Vec<u8>)
        ensures
            bytes@ == joined(self@),
    {
        let mut result: Vec<u8> = Vec::new();
        result.extend_from_slice(self.locations.as_slice());
        result.extend_from_slice(self.timestamps.as_slice());
        result.extend_from_slice(self.data.as_slice());
        assert(result@ =~= joined(self@));
        result
    }
}

/// Writes the four bytes `entry` into `table` at the byte `at`.
fn write_entry(table: &mut Vec<u8>, at: usize, entry: &Vec<u8>)
    requires
        entry.len() == 4,
        at + 4 <= old(table).len(),
    ensures
        final(table)@ == with_entry(old(table)@, at as int, entry@),
        final(table).len() == old(table).len(),
{
    table.set(at, entry[0]);
    table.set(at + 1, entry[1]);
    table.set(at + 2, entry[2]);
    table.set(at + 3, entry[3]);
}

impl Region {
    /// The bytes of the region's file: each chunk's record at the level
    /// `compression_level`, in the order of the chunks, behind the two
    /// tables. `None` where a chunk's payload is too long for a record, or a
    /// record is too large or lies too far for a location. Where the
    /// compressor took every tree and no two chunks claim one slot, the file
    /// is read as a region that resolves the position of every chunk to the
    /// chunk's content and timestamp.
    pub fn to_bytes(&self, compression_level: u32) -> (res: Option<Vec<u8>>)
        requires
            self.wf(),
            compression_level <= 9,
        ensures
            exists|payloads: Seq<Seq<u8>>| #[trigger]
                region_written_as(self@.chunks, compression_level, payloads, bytes_of(res)),
    {
        let mut assembly = Assembly::new();
        let ghost mut payloads = plain_payloads(self@.chunks, compression_level);
        proof {
            lemma_plain_payloads(self@.chunks, compression_level);
        }
        let mut i: usize = 0;
        while i < self.chunks.len()
            invariant
                i <= self.chunks.len(),
                self.wf(),
                compression_level <= 9,
                assembly.wf(),
                payloads_fit(self@.chunks, compression_level, payloads),
                written_parts(self@.chunks, payloads, i as int) == Some(assembly@),
            decreases self.chunks.len() - i,
        {
            let chunk = &self.chunks[i];
            assert(self@.chunks[i as int] == chunk@);
            assert(chunk.wf() && settled(chunk@));
            let record = chunk.to_bytes(compression_level);
            proof {
                let before = payloads;
                let payload = choose|payload: Seq<u8>| #[trigger]
                    written_as(chunk@, compression_level, payload, bytes_of(record));
                payloads = before.update(i as int, payload);
                lemma_written_parts_agree(self@.chunks, before, payloads, i as int);
                assert(payloads_fit(self@.chunks, compression_level, payloads)) by {
                    assert forall|j: int| 0 <= j < self@.chunks.len() implies payload_fits(
                        self@.chunks[j],
                        compression_level,
                        #[trigger] payloads[j],
                    ) by {
                        if j != i {
                            assert(payloads[j] == before[j]);
                        }
                    }
                }
            }
            let serialized = match record {
                Some(bytes) => bytes,
                None => {
                    proof {
                        lemma_written_parts_none(
                            self@.chunks,
                            payloads,
                            i + 1,
                            self@.chunks.len() as int,
                        );
                        assert(region_written_as(
                            self@.chunks,
                            compression_level,
                            payloads,
                            bytes_of(None),
                        ));
                    }
                    return None;
                },
            };
            let position = match chunk.get_position() {
                Ok(p) => Some(p),
                Err(_) => None,
            };
            let done = assembly.place(position, chunk.location.get_timestamp(), serialized);
            if !done {
                proof {
                    lemma_written_parts_none(
                        self@.chunks,
                        payloads,
                        i + 1,
                        self@.chunks.len() as int,
                    );
                    assert(region_written_as(
                        self@.chunks,
                        compression_level,
                        payloads,
                        bytes_of(None),
                    ));
                }
                return None;
            }
            i += 1;
        }
        let bytes = assembly.into_bytes();
        proof {
            self.lemma_wf();
            if one_chunk_per_slot(self@.chunks) && all_unpack(self@.chunks, payloads) {
                lemma_round_trip(self@.chunks, compression_level, payloads);
            }
            assert(region_written_as(
                self@.chunks,
                compression_level,
                payloads,
                bytes_of(Some(bytes)),
            ));
        }
        Some(bytes)
    }
}

} // verus!
