//! What a written region holds when it is read again.

use crate::big_endian::{be_u32, lemma_read_of_u32_bytes, u32_bytes};
use crate::nbt::laws::lemma_split;
use crate::region_loader::chunk_loader::chunk::{
    chunk_at, content_of, framed, lemma_chunk_at, lemma_reads_back, position, reads_back,
    record_fits, record_payload, record_with, settled, writable, ChunkView,
};
use crate::region_loader::chunk_loader::compression_scheme::{
    byte_of, scheme_of, CompressionScheme,
};
use crate::region_loader::location::{locatable, Location};
use crate::region_loader::region::{
    all_unpack, chunks_in, first_at, joined, padded, padding, parsed, payloads_fit, placed,
    resolves, round_trips, slot_location, table_position, with_entry, written, written_parts,
    ParseRegionError, Parts, RegionView,
};
use crate::region_loader::removal::lemma_first_at_found;
use vstd::prelude::*;

verus! {

/// The byte of the records at which the record of the chunk `n` starts: the
/// bytes that the records of the chunks before it take.
pub open spec fn start_of(chunks: Seq<ChunkView>, payloads: Seq<Seq<u8>>, n: int) -> int {
    match written_parts(chunks, payloads, n) {
        Some(parts) => parts.data.len() as int,
        None => 0,
    }
}

/// The sectors that the record of the chunk `i` takes: the record, filled up.
pub open spec fn sectors_of(chunks: Seq<ChunkView>, payloads: Seq<Seq<u8>>, i: int) -> Seq<u8> {
    padded(record_with(chunks[i], payloads[i]).unwrap())
}

/// The entry that the table of locations gets for the chunk `i`.
pub open spec fn entry_of(chunks: Seq<ChunkView>, payloads: Seq<Seq<u8>>, i: int) -> int {
    (start_of(chunks, payloads, i) / 4096) * 256 + sectors_of(chunks, payloads, i).len() / 4096
}

/// A record that is filled up takes whole sectors, and less than one sector
/// more than the record.
pub proof fn lemma_padded_len(record: Seq<u8>)
    ensures
        padded(record).len() % 4096 == 0,
        record.len() <= padded(record).len() < record.len() + 4096,
        padded(record).subrange(0, record.len() as int) == record,
{
    let len = record.len() as int;
    assert(0 <= padding(len) < 4096);
    assert((len + padding(len)) % 4096 == 0);
    assert(padded(record).subrange(0, len) =~= record);
}

/// Whether parts are two whole tables and whole sectors of records.
pub open spec fn whole(parts: Parts) -> bool {
    &&& parts.locations.len() == 4096
    &&& parts.timestamps.len() == 4096
    &&& parts.data.len() % 4096 == 0
}

/// Placing a record keeps the parts whole and appends the record's sectors.
pub proof fn lemma_placed(parts: Parts, at: Option<(i32, i32)>, timestamp: u32, record: Seq<u8>)
    requires
        whole(parts),
        placed(parts, at, timestamp, record) is Some,
    ensures
        whole(placed(parts, at, timestamp, record).unwrap()),
        placed(parts, at, timestamp, record).unwrap().data == parts.data + padded(record),
        locatable(8192 + parts.data.len() as int, padded(record).len() as int),
{
    lemma_padded_len(record);
    let after = placed(parts, at, timestamp, record).unwrap();
    assert(after.data == parts.data + padded(record));
    assert(after.data.len() == parts.data.len() + padded(record).len());
}

/// Where the first `n` chunks can be written, the parts are whole.
pub proof fn lemma_written_parts_whole(chunks: Seq<ChunkView>, payloads: Seq<Seq<u8>>, n: int)
    requires
        written_parts(chunks, payloads, n) is Some,
    ensures
        whole(written_parts(chunks, payloads, n).unwrap()),
    decreases n,
{
    if n > 0 {
        lemma_written_parts_whole(chunks, payloads, n - 1);
        let before = written_parts(chunks, payloads, n - 1).unwrap();
        let record = record_with(chunks[n - 1], payloads[n - 1]).unwrap();
        lemma_placed(before, position(chunks[n - 1]), chunks[n - 1].location.timestamp, record);
    }
}

/// Where the first `n` chunks can be written, fewer of them can be written
/// too.
pub proof fn lemma_written_parts_before(
    chunks: Seq<ChunkView>,
    payloads: Seq<Seq<u8>>,
    m: int,
    n: int,
)
    requires
        m <= n,
        written_parts(chunks, payloads, n) is Some,
    ensures
        written_parts(chunks, payloads, m) is Some,
    decreases n - m,
{
    if m < n && n > 0 {
        lemma_written_parts_before(chunks, payloads, m, n - 1);
    }
}

/// Where the first `n` chunks can be written, the chunk `i` among them has a
/// record, the record's sectors start and end on sectors within the records
/// that were written, and they can be located.
pub proof fn lemma_written_step(chunks: Seq<ChunkView>, payloads: Seq<Seq<u8>>, n: int, i: int)
    requires
        written_parts(chunks, payloads, n) is Some,
        0 <= i < n,
    ensures
        record_with(chunks[i], payloads[i]) is Some,
        start_of(chunks, payloads, i) >= 0,
        start_of(chunks, payloads, i) % 4096 == 0,
        sectors_of(chunks, payloads, i).len() % 4096 == 0,
        locatable(
            8192 + start_of(chunks, payloads, i),
            sectors_of(chunks, payloads, i).len() as int,
        ),
        start_of(chunks, payloads, i + 1) == start_of(chunks, payloads, i) + sectors_of(
            chunks,
            payloads,
            i,
        ).len(),
        written_parts(chunks, payloads, i + 1).unwrap().data == written_parts(
            chunks,
            payloads,
            i,
        ).unwrap().data + sectors_of(chunks, payloads, i),
{
    lemma_written_parts_before(chunks, payloads, i + 1, n);
    lemma_written_parts_before(chunks, payloads, i, n);
    lemma_written_parts_whole(chunks, payloads, i);
    let before = written_parts(chunks, payloads, i).unwrap();
    let record = record_with(chunks[i], payloads[i]).unwrap();
    lemma_placed(before, position(chunks[i]), chunks[i].location.timestamp, record);
    lemma_padded_len(record);
}

/// The records grow with each chunk.
pub proof fn lemma_start_grows(chunks: Seq<ChunkView>, payloads: Seq<Seq<u8>>, m: int, n: int)
    requires
        0 <= m <= n,
        written_parts(chunks, payloads, n) is Some,
    ensures
        start_of(chunks, payloads, m) <= start_of(chunks, payloads, n),
        written_parts(chunks, payloads, n).unwrap().data.subrange(
            0,
            start_of(chunks, payloads, m),
        ) == written_parts(chunks, payloads, m).unwrap().data,
    decreases n - m,
{
    lemma_written_parts_before(chunks, payloads, m, n);
    let whole_data = written_parts(chunks, payloads, n).unwrap().data;
    if m < n {
        lemma_written_parts_before(chunks, payloads, n - 1, n);
        lemma_start_grows(chunks, payloads, m, n - 1);
        lemma_written_step(chunks, payloads, n, n - 1);
        let before = written_parts(chunks, payloads, n - 1).unwrap().data;
        assert(whole_data.subrange(0, start_of(chunks, payloads, m)) =~= before.subrange(
            0,
            start_of(chunks, payloads, m),
        ));
    } else {
        assert(whole_data.subrange(0, whole_data.len() as int) =~= whole_data);
    }
}

/// The sectors of each chunk stand in the records where the chunk starts.
pub proof fn lemma_written_data(chunks: Seq<ChunkView>, payloads: Seq<Seq<u8>>, n: int, i: int)
    requires
        written_parts(chunks, payloads, n) is Some,
        0 <= i < n,
    ensures
        ({
            let data = written_parts(chunks, payloads, n).unwrap().data;
            let start = start_of(chunks, payloads, i);
            let sectors = sectors_of(chunks, payloads, i);
            &&& 0 <= start
            &&& start + sectors.len() <= data.len()
            &&& data.subrange(start, start + sectors.len()) == sectors
        }),
{
    lemma_written_step(chunks, payloads, n, i);
    lemma_start_grows(chunks, payloads, i + 1, n);
    let data = written_parts(chunks, payloads, n).unwrap().data;
    let upto = written_parts(chunks, payloads, i + 1).unwrap().data;
    let start = start_of(chunks, payloads, i);
    let sectors = sectors_of(chunks, payloads, i);
    assert(upto.subrange(start, start + sectors.len()) =~= sectors);
    assert(data.subrange(start, start + sectors.len()) =~= data.subrange(
        0,
        start_of(chunks, payloads, i + 1),
    ).subrange(start, start + sectors.len()));
}

/// The chunk among the first `n` that was the last to enter itself at the
/// byte `at` of the tables.
pub open spec fn last_writer(chunks: Seq<ChunkView>, n: int, at: int) -> Option<int>
    decreases n,
{
    if n <= 0 {
        None
    } else {
        match position(chunks[n - 1]) {
            Some((x, z)) => if table_position(x, z) == at {
                Some(n - 1)
            } else {
                last_writer(chunks, n - 1, at)
            },
            None => last_writer(chunks, n - 1, at),
        }
    }
}

/// An entry of a table stands at a multiple of four within the table.
pub proof fn lemma_table_position(x: i32, z: i32)
    ensures
        0 <= table_position(x, z) <= 4092,
        table_position(x, z) % 4 == 0,
{
}

/// Writing an entry changes the four bytes of that entry and no other entry.
pub proof fn lemma_with_entry(table: Seq<u8>, written_at: int, entry: Seq<u8>, at: int)
    requires
        entry.len() == 4,
        0 <= written_at,
        written_at + 4 <= table.len(),
        written_at % 4 == 0,
        0 <= at,
        at + 4 <= table.len(),
        at % 4 == 0,
    ensures
        with_entry(table, written_at, entry).len() == table.len(),
        at == written_at ==> with_entry(table, written_at, entry).subrange(at, at + 4) == entry,
        at != written_at ==> with_entry(table, written_at, entry).subrange(at, at + 4)
            == table.subrange(at, at + 4),
{
    let after = with_entry(table, written_at, entry);
    if at == written_at {
        assert(after.subrange(at, at + 4) =~= entry);
    } else {
        assert(after.subrange(at, at + 4) =~= table.subrange(at, at + 4));
    }
}

/// Four bytes of zero.
pub open spec fn no_entry() -> Seq<u8> {
    Seq::new(4, |i: int| 0u8)
}

/// What placing one record does to the entry at the byte `at` of the tables.
pub proof fn lemma_placed_tables(
    parts: Parts,
    position: Option<(i32, i32)>,
    timestamp: u32,
    record: Seq<u8>,
    at: int,
)
    requires
        whole(parts),
        placed(parts, position, timestamp, record) is Some,
        0 <= at,
        at + 4 <= 4096,
        at % 4 == 0,
    ensures
        ({
            let after = placed(parts, position, timestamp, record).unwrap();
            let entry = (parts.data.len() / 4096) * 256 + padded(record).len() / 4096;
            if position matches Some((x, z)) && table_position(x, z) == at {
                &&& after.locations.subrange(at, at + 4) == u32_bytes(entry as int)
                &&& after.timestamps.subrange(at, at + 4) == u32_bytes(timestamp as int)
            } else {
                &&& after.locations.subrange(at, at + 4) == parts.locations.subrange(at, at + 4)
                &&& after.timestamps.subrange(at, at + 4) == parts.timestamps.subrange(
                    at,
                    at + 4,
                )
            }
        }),
{
    let entry = (parts.data.len() / 4096) * 256 + padded(record).len() / 4096;
    match position {
        Some((x, z)) => {
            lemma_table_position(x, z);
            lemma_with_entry(parts.locations, table_position(x, z), u32_bytes(entry as int), at);
            lemma_with_entry(
                parts.timestamps,
                table_position(x, z),
                u32_bytes(timestamp as int),
                at,
            );
        },
        None => {},
    }
}

/// The entry at the byte `at` of the written tables is that of the last
/// chunk that entered itself there, with that chunk's timestamp; it is zero
/// where no chunk did.
pub proof fn lemma_written_tables(chunks: Seq<ChunkView>, payloads: Seq<Seq<u8>>, n: int, at: int)
    requires
        written_parts(chunks, payloads, n) is Some,
        0 <= at,
        at + 4 <= 4096,
        at % 4 == 0,
    ensures
        ({
            let parts = written_parts(chunks, payloads, n).unwrap();
            match last_writer(chunks, n, at) {
                Some(i) => {
                    &&& 0 <= i < n
                    &&& position(chunks[i]) matches Some((x, z)) && table_position(x, z) == at
                    &&& parts.locations.subrange(at, at + 4) == u32_bytes(
                        entry_of(chunks, payloads, i),
                    )
                    &&& parts.timestamps.subrange(at, at + 4) == u32_bytes(
                        chunks[i].location.timestamp as int,
                    )
                },
                None => {
                    &&& parts.locations.subrange(at, at + 4) == no_entry()
                    &&& parts.timestamps.subrange(at, at + 4) == no_entry()
                },
            }
        }),
    decreases n,
{
    let parts = written_parts(chunks, payloads, n).unwrap();
    if n <= 0 {
        assert(parts.locations.subrange(at, at + 4) =~= no_entry());
        assert(parts.timestamps.subrange(at, at + 4) =~= no_entry());
    } else {
        lemma_written_parts_before(chunks, payloads, n - 1, n);
        lemma_written_parts_whole(chunks, payloads, n - 1);
        lemma_written_tables(chunks, payloads, n - 1, at);
        let before = written_parts(chunks, payloads, n - 1).unwrap();
        let record = record_with(chunks[n - 1], payloads[n - 1]).unwrap();
        lemma_placed_tables(
            before,
            position(chunks[n - 1]),
            chunks[n - 1].location.timestamp,
            record,
            at,
        );
    }
}

/// A record that stands in `file` at the byte `at` is read from there: its
/// length fits, and its scheme byte and payload are those that were framed.
pub proof fn lemma_record_read(
    file: Seq<u8>,
    at: int,
    scheme: CompressionScheme,
    payload: Seq<u8>,
)
    requires
        0 <= at,
        payload.len() < u32::MAX,
        at + payload.len() + 5 <= file.len(),
        file.subrange(at, at + payload.len() + 5) == framed(scheme, payload),
    ensures
        record_fits(file, at),
        be_u32(file, at) == payload.len() + 1,
        file[at + 4] == byte_of(scheme),
        record_payload(file, at) == payload,
{
    let head = u32_bytes(payload.len() as int + 1) + seq![byte_of(scheme)];
    assert(framed(scheme, payload) =~= head + payload);
    assert(head.len() == 5);
    lemma_split(file, at, head, payload);
    lemma_split(file, at, u32_bytes(payload.len() as int + 1), seq![byte_of(scheme)]);
    lemma_read_of_u32_bytes(file, at, payload.len() as int + 1);
    assert(file.subrange(at + 4, at + 5)[0] == seq![byte_of(scheme)][0]);
}

/// The entries of a file's tables are those of its parts.
pub proof fn lemma_joined_tables(parts: Parts, at: int)
    requires
        whole(parts),
        0 <= at,
        at + 4 <= 4096,
    ensures
        joined(parts).len() == 8192 + parts.data.len(),
        joined(parts).subrange(at, at + 4) == parts.locations.subrange(at, at + 4),
        joined(parts).subrange(4096 + at, 4096 + at + 4) == parts.timestamps.subrange(
            at,
            at + 4,
        ),
{
    let file = joined(parts);
    assert(file.subrange(at, at + 4) =~= parts.locations.subrange(at, at + 4));
    assert(file.subrange(4096 + at, 4096 + at + 4) =~= parts.timestamps.subrange(at, at + 4));
}

/// The records of a file are those of its parts, behind the header.
pub proof fn lemma_joined_data(parts: Parts, a: int, b: int)
    requires
        whole(parts),
        0 <= a <= b <= parts.data.len(),
    ensures
        joined(parts).len() == 8192 + parts.data.len(),
        joined(parts).subrange(8192 + a, 8192 + b) == parts.data.subrange(a, b),
{
    assert(joined(parts).subrange(8192 + a, 8192 + b) =~= parts.data.subrange(a, b));
}

/// An entry is taken apart into the sector at which a record starts and the
/// sectors that it takes.
pub proof fn lemma_entry_parts(start: int, size: int)
    requires
        0 <= start,
        start % 4096 == 0,
        locatable(8192 + start, size),
    ensures
        ({
            let entry = (start / 4096) * 256 + size / 4096;
            &&& 0 < entry < 4294967296
            &&& entry / 256 == start / 4096
            &&& entry % 256 == size / 4096
            &&& 0 <= start / 4096 < 16777216
            &&& 1 <= size / 4096 <= 255
            &&& 8192 + 4096 * (start / 4096) == 8192 + start
        }),
{
    let sector = start / 4096;
    let count = size / 4096;
    assert(0 <= sector < 16777216);
    assert(1 <= count <= 255);
    assert(start == 4096 * sector);
}

/// What the header of a written file says at the slot `slot`: the entry and
/// the timestamp of the last chunk that entered itself there, or an entry of
/// zero.
pub proof fn lemma_slot_entry(chunks: Seq<ChunkView>, payloads: Seq<Seq<u8>>, slot: int)
    requires
        written(chunks, payloads) is Some,
        0 <= slot < 1024,
    ensures
        ({
            let file = written(chunks, payloads).unwrap();
            match last_writer(chunks, chunks.len() as int, 4 * slot) {
                Some(i) => {
                    &&& 0 <= i < chunks.len()
                    &&& be_u32(file, 4 * slot) == entry_of(chunks, payloads, i)
                    &&& be_u32(file, 4096 + 4 * slot) == chunks[i].location.timestamp
                },
                None => be_u32(file, 4 * slot) == 0,
            }
        }),
{
    let n = chunks.len() as int;
    let parts = written_parts(chunks, payloads, n).unwrap();
    let file = joined(parts);
    let at = 4 * slot;
    lemma_written_parts_whole(chunks, payloads, n);
    lemma_joined_tables(parts, at);
    lemma_written_tables(chunks, payloads, n, at);
    match last_writer(chunks, n, at) {
        Some(i) => {
            lemma_written_step(chunks, payloads, n, i);
            lemma_entry_parts(
                start_of(chunks, payloads, i),
                sectors_of(chunks, payloads, i).len() as int,
            );
            lemma_read_of_u32_bytes(file, at, entry_of(chunks, payloads, i));
            lemma_read_of_u32_bytes(file, 4096 + at, chunks[i].location.timestamp as int);
        },
        None => {
            assert(no_entry() =~= u32_bytes(0));
            lemma_read_of_u32_bytes(file, at, 0);
        },
    }
}

/// The record of the chunk `i` is read from a written file where the chunk's
/// sectors start.
pub proof fn lemma_record_in_file(chunks: Seq<ChunkView>, payloads: Seq<Seq<u8>>, i: int)
    requires
        written(chunks, payloads) is Some,
        0 <= i < chunks.len(),
    ensures
        ({
            let file = written(chunks, payloads).unwrap();
            let at = 8192 + start_of(chunks, payloads, i);
            &&& record_fits(file, at)
            &&& file[at + 4] == byte_of(chunks[i].compression_scheme)
            &&& record_payload(file, at) == payloads[i]
        }),
{
    let n = chunks.len() as int;
    let parts = written_parts(chunks, payloads, n).unwrap();
    let file = joined(parts);
    lemma_written_parts_whole(chunks, payloads, n);
    lemma_written_step(chunks, payloads, n, i);
    lemma_written_data(chunks, payloads, n, i);
    let start = start_of(chunks, payloads, i);
    let sectors = sectors_of(chunks, payloads, i);
    let record = record_with(chunks[i], payloads[i]).unwrap();
    let payload = payloads[i];
    lemma_padded_len(record);
    assert(record.len() == payload.len() + 5);
    lemma_joined_data(parts, start, start + sectors.len());
    assert(file.subrange(8192 + start, 8192 + start + record.len()) =~= sectors.subrange(
        0,
        record.len() as int,
    ));
    lemma_record_read(file, 8192 + start, chunks[i].compression_scheme, payload);
}

/// The chunk that is read from the slot `slot` of a written file where the
/// chunk `c` entered itself, its record starting at the byte `start` of the
/// records and taking `sectors` bytes: what its payload decodes to, under the
/// scheme that its scheme byte names, at its new location with its old
/// timestamp.
pub open spec fn read_back(
    c: ChunkView,
    payload: Seq<u8>,
    start: int,
    sectors: int,
    slot: usize,
) -> ChunkView {
    ChunkView {
        nbt: content_of(scheme_of(byte_of(c.compression_scheme)), payload),
        location: Location {
            sector_offset: (start / 4096) as u32,
            sector_count: (sectors / 4096) as u8,
            timestamp: c.location.timestamp,
        },
        compression_scheme: scheme_of(byte_of(c.compression_scheme)),
        index: slot,
    }
}

/// What the slot `slot` of a written file holds: nothing where no chunk
/// entered itself there, else the last chunk that did, read back.
pub open spec fn slot_of_written(
    chunks: Seq<ChunkView>,
    payloads: Seq<Seq<u8>>,
    slot: int,
) -> Option<ChunkView> {
    match last_writer(chunks, chunks.len() as int, 4 * slot) {
        Some(i) => Some(
            read_back(
                chunks[i],
                payloads[i],
                start_of(chunks, payloads, i),
                sectors_of(chunks, payloads, i).len() as int,
                slot as usize,
            ),
        ),
        None => None,
    }
}

/// Reading one slot of a written file gives what `slot_of_written` says.
pub proof fn lemma_read_slot(chunks: Seq<ChunkView>, payloads: Seq<Seq<u8>>, slot: int)
    requires
        written(chunks, payloads) is Some,
        0 <= slot < 1024,
    ensures
        ({
            let file = written(chunks, payloads).unwrap();
            match slot_of_written(chunks, payloads, slot) {
                Some(chunk) => be_u32(file, 4 * slot) != 0 && chunk_at(
                    file,
                    slot_location(file, slot),
                    slot as usize,
                ) == Some(chunk),
                None => be_u32(file, 4 * slot) == 0,
            }
        }),
{
    let n = chunks.len() as int;
    let file = written(chunks, payloads).unwrap();
    lemma_slot_entry(chunks, payloads, slot);
    match last_writer(chunks, n, 4 * slot) {
        Some(i) => {
            lemma_written_step(chunks, payloads, n, i);
            lemma_record_in_file(chunks, payloads, i);
            let start = start_of(chunks, payloads, i);
            let size = sectors_of(chunks, payloads, i).len() as int;
            lemma_entry_parts(start, size);
            let location = slot_location(file, slot);
            assert(location.sector_offset == start / 4096);
            assert(location.sector_count == size / 4096);
            assert(location.timestamp == chunks[i].location.timestamp);
            assert(location.offset() == 8192 + start);
        },
        None => {},
    }
}

/// The chunks that the first `n` slots of a written file hold, in the order
/// of the slots.
pub open spec fn reread(chunks: Seq<ChunkView>, payloads: Seq<Seq<u8>>, n: int) -> Seq<ChunkView>
    decreases n,
{
    if n <= 0 {
        Seq::empty()
    } else {
        match slot_of_written(chunks, payloads, n - 1) {
            Some(chunk) => reread(chunks, payloads, n - 1).push(chunk),
            None => reread(chunks, payloads, n - 1),
        }
    }
}

/// Reading the first `n` slots of a written file gives what `reread` says.
pub proof fn lemma_chunks_in_written(chunks: Seq<ChunkView>, payloads: Seq<Seq<u8>>, n: int)
    requires
        written(chunks, payloads) is Some,
        n <= 1024,
    ensures
        chunks_in(written(chunks, payloads).unwrap(), n) == reread(chunks, payloads, n),
    decreases n,
{
    if n > 0 {
        lemma_chunks_in_written(chunks, payloads, n - 1);
        lemma_read_slot(chunks, payloads, n - 1);
    }
}

/// A written file is read as the region of the chunks that its slots hold,
/// with nothing modified.
pub proof fn lemma_parsed_written(chunks: Seq<ChunkView>, payloads: Seq<Seq<u8>>)
    requires
        written(chunks, payloads) is Some,
    ensures
        parsed(written(chunks, payloads).unwrap()) == Ok::<RegionView, ParseRegionError>(
            RegionView { chunks: reread(chunks, payloads, 1024), is_modified: false },
        ),
{
    let n = chunks.len() as int;
    let parts = written_parts(chunks, payloads, n).unwrap();
    lemma_written_parts_whole(chunks, payloads, n);
    lemma_joined_tables(parts, 0);
    lemma_chunks_in_written(chunks, payloads, 1024);
}

/// What the first `m` slots hold stands at the front of what the first `n`
/// hold, and each chunk that the first `n` slots hold is held by one of them.
pub proof fn lemma_reread_prefix(chunks: Seq<ChunkView>, payloads: Seq<Seq<u8>>, m: int, n: int)
    requires
        0 <= m <= n,
    ensures
        reread(chunks, payloads, m).len() <= reread(chunks, payloads, n).len(),
        reread(chunks, payloads, n).take(reread(chunks, payloads, m).len() as int) == reread(
            chunks,
            payloads,
            m,
        ),
        forall|j: int|
            0 <= j < reread(chunks, payloads, n).len() ==> exists|slot: int|
                0 <= slot < n && slot_of_written(chunks, payloads, slot) == Some(
                    #[trigger] reread(chunks, payloads, n)[j],
                ),
    decreases n - m, n,
{
    let all = reread(chunks, payloads, n);
    if n == 0 {
        assert(all.take(0) =~= reread(chunks, payloads, m));
    } else {
        let before = reread(chunks, payloads, n - 1);
        lemma_reread_prefix(chunks, payloads, n - 1, n - 1);
        assert forall|j: int| 0 <= j < all.len() implies exists|slot: int|
            0 <= slot < n && slot_of_written(chunks, payloads, slot) == Some(#[trigger] all[j]) by {
            if j < before.len() {
                let slot = choose|slot: int|
                    0 <= slot < n - 1 && slot_of_written(chunks, payloads, slot) == Some(before[j]);
                assert(0 <= slot < n && slot_of_written(chunks, payloads, slot) == Some(all[j]));
            } else {
                assert(0 <= n - 1 < n && slot_of_written(chunks, payloads, n - 1) == Some(all[j]));
            }
        }
        if m == n {
            assert(all.take(all.len() as int) =~= all);
        } else {
            lemma_reread_prefix(chunks, payloads, m, n - 1);
            assert(all.take(reread(chunks, payloads, m).len() as int) =~= before.take(
                reread(chunks, payloads, m).len() as int,
            ));
        }
    }
}

/// Every chunk that is read from a written file is one of the chunks that
/// were written, read back.
pub proof fn lemma_reread_from(chunks: Seq<ChunkView>, payloads: Seq<Seq<u8>>, j: int)
    requires
        0 <= j < reread(chunks, payloads, 1024).len(),
    ensures
        exists|i: int, slot: int|
            {
                &&& 0 <= i < chunks.len()
                &&& 0 <= slot < 1024
                &&& last_writer(chunks, chunks.len() as int, 4 * slot) == Some(i)
                &&& #[trigger] read_back(
                    chunks[i],
                    payloads[i],
                    start_of(chunks, payloads, i),
                    sectors_of(chunks, payloads, i).len() as int,
                    slot as usize,
                ) == reread(chunks, payloads, 1024)[j]
            },
{
    lemma_reread_prefix(chunks, payloads, 1024, 1024);
    let slot = choose|slot: int|
        0 <= slot < 1024 && slot_of_written(chunks, payloads, slot) == Some(
            reread(chunks, payloads, 1024)[j],
        );
    lemma_last_writer(chunks, chunks.len() as int, 4 * slot);
    let i = last_writer(chunks, chunks.len() as int, 4 * slot).unwrap();
    assert(read_back(
        chunks[i],
        payloads[i],
        start_of(chunks, payloads, i),
        sectors_of(chunks, payloads, i).len() as int,
        slot as usize,
    ) == reread(chunks, payloads, 1024)[j]);
}

/// The last writer of an entry is one of the chunks, stands at a position of
/// that entry, and no chunk behind it does.
pub proof fn lemma_last_writer(chunks: Seq<ChunkView>, n: int, at: int)
    ensures
        match last_writer(chunks, n, at) {
            Some(i) => {
                &&& 0 <= i < n
                &&& position(chunks[i]) matches Some((x, z)) && table_position(x, z) == at
                &&& forall|j: int|
                    i < j < n ==> !(position(#[trigger] chunks[j]) matches Some((x, z))
                        && table_position(x, z) == at)
            },
            None => forall|j: int|
                0 <= j < n ==> !(position(#[trigger] chunks[j]) matches Some((x, z))
                    && table_position(x, z) == at),
        },
    decreases n,
{
    if n > 0 {
        lemma_last_writer(chunks, n - 1, at);
    }
}

/// Whether no two of the chunks stand at positions of one entry of the
/// tables.
pub open spec fn one_chunk_per_slot(chunks: Seq<ChunkView>) -> bool {
    forall|i: int, j: int|
        0 <= i < chunks.len() && 0 <= j < chunks.len() && i != j ==> !({
            &&& position(#[trigger] chunks[i]) matches Some((x, z))
            &&& position(#[trigger] chunks[j]) matches Some((u, w))
            &&& table_position(x, z) == table_position(u, w)
        })
}

/// The round trip of a region. Where each chunk's record holds the chunk's
/// content again when it is read, and no two chunks claim one slot, the
/// written file is read as a region in which every chunk that has a position
/// is found at that position, with the content and the timestamp that it had.
pub proof fn lemma_written_then_parsed(chunks: Seq<ChunkView>, payloads: Seq<Seq<u8>>, i: int)
    requires
        written(chunks, payloads) is Some,
        forall|k: int| 0 <= k < chunks.len() ==> reads_back(#[trigger] chunks[k], payloads[k]),
        one_chunk_per_slot(chunks),
        0 <= i < chunks.len(),
        position(chunks[i]) is Some,
    ensures
        ({
            let region = parsed(written(chunks, payloads).unwrap());
            let (x, z) = position(chunks[i]).unwrap();
            &&& region matches Ok(r)
            &&& first_at(r.chunks, x, z, 0) matches Some(j)
            &&& r.chunks[j].nbt == chunks[i].nbt
            &&& r.chunks[j].location.timestamp == chunks[i].location.timestamp
            &&& position(r.chunks[j]) == Some((x, z))
        }),
{
    let n = chunks.len() as int;
    let (x, z) = position(chunks[i]).unwrap();
    let at = table_position(x, z);
    let slot = at / 4;
    lemma_table_position(x, z);
    lemma_parsed_written(chunks, payloads);
    lemma_last_writer(chunks, n, at);
    assert(last_writer(chunks, n, at) == Some(i)) by {
        match last_writer(chunks, n, at) {
            Some(w) => {
                if w != i {
                    assert(position(chunks[w]) is Some && position(chunks[i]) is Some);
                }
            },
            None => {
                assert(!(position(chunks[i]) matches Some((u, w)) && table_position(u, w) == at));
            },
        }
    }
    let all = reread(chunks, payloads, 1024);
    let front = reread(chunks, payloads, slot);
    let upto = reread(chunks, payloads, slot + 1);
    let j = front.len() as int;
    lemma_reread_prefix(chunks, payloads, slot + 1, 1024);
    lemma_reread_prefix(chunks, payloads, slot, slot);
    let found = slot_of_written(chunks, payloads, slot).unwrap();
    assert(upto == front.push(found));
    assert(all.take(upto.len() as int)[j] == upto[j]);
    assert(all[j] == found);
    assert(reads_back(chunks[i], payloads[i]));
    assert(found.nbt == chunks[i].nbt);
    assert(position(found) == position(chunks[i]));
    assert forall|k: int| 0 <= k < j implies position(#[trigger] all[k]) != Some((x, z)) by {
        assert(all.take(upto.len() as int)[k] == upto[k]);
        assert(upto[k] == front[k]);
        let other = choose|other: int|
            0 <= other < slot && slot_of_written(chunks, payloads, other) == Some(front[k]);
        lemma_last_writer(chunks, n, 4 * other);
        let w = last_writer(chunks, n, 4 * other).unwrap();
        assert(reads_back(chunks[w], payloads[w]));
        assert(front[k].nbt == chunks[w].nbt);
        assert(position(front[k]) == position(chunks[w]));
        if position(chunks[w]) == Some((x, z)) {
            assert(table_position(x, z) == 4 * other);
        }
    }
    lemma_first_at_found(all, x, z, 0, j);
}

/// Every chunk that is read from a written file has the content of one of
/// the chunks that were written, where each chunk's record holds the chunk's
/// content again when it is read.
pub proof fn lemma_parsed_written_contents(chunks: Seq<ChunkView>, payloads: Seq<Seq<u8>>, j: int)
    requires
        written(chunks, payloads) is Some,
        forall|k: int| 0 <= k < chunks.len() ==> reads_back(#[trigger] chunks[k], payloads[k]),
        0 <= j < reread(chunks, payloads, 1024).len(),
    ensures
        exists|i: int|
            0 <= i < chunks.len() && (#[trigger] chunks[i]).nbt == reread(
                chunks,
                payloads,
                1024,
            )[j].nbt,
{
    lemma_reread_from(chunks, payloads, j);
    let (i, slot) = choose|i: int, slot: int|
        {
            &&& 0 <= i < chunks.len()
            &&& 0 <= slot < 1024
            &&& last_writer(chunks, chunks.len() as int, 4 * slot) == Some(i)
            &&& #[trigger] read_back(
                chunks[i],
                payloads[i],
                start_of(chunks, payloads, i),
                sectors_of(chunks, payloads, i).len() as int,
                slot as usize,
            ) == reread(chunks, payloads, 1024)[j]
        };
    assert(reads_back(chunks[i], payloads[i]));
    assert(chunks[i].nbt == reread(chunks, payloads, 1024)[j].nbt);
}

/// Where no two chunks claim one slot, a chunk that has a position is the
/// last writer of its entry.
pub proof fn lemma_sole_writer(chunks: Seq<ChunkView>, i: int)
    requires
        one_chunk_per_slot(chunks),
        0 <= i < chunks.len(),
        position(chunks[i]) is Some,
    ensures
        ({
            let (x, z) = position(chunks[i]).unwrap();
            last_writer(chunks, chunks.len() as int, table_position(x, z)) == Some(i)
        }),
{
    let n = chunks.len() as int;
    let (x, z) = position(chunks[i]).unwrap();
    let at = table_position(x, z);
    lemma_last_writer(chunks, n, at);
    match last_writer(chunks, n, at) {
        Some(w) => {
            if w != i {
                assert(position(chunks[w]) is Some && position(chunks[i]) is Some);
            }
        },
        None => {
            assert(!(position(chunks[i]) matches Some((u, w)) && table_position(u, w) == at));
        },
    }
}

/// Whether the file `file` addresses the chunk `c`: the entry at the slot of
/// the chunk's position is not zero, and the record that it names holds the
/// chunk's content, with the chunk's timestamp. Nothing is asked for a chunk
/// without a position.
pub open spec fn addressed(c: ChunkView, file: Seq<u8>) -> bool {
    match position(c) {
        Some((x, z)) => {
            let at = table_position(x, z);
            let slot = at / 4;
            &&& be_u32(file, at) != 0
            &&& chunk_at(file, slot_location(file, slot), slot as usize) matches Some(d)
            &&& d.nbt == c.nbt
            &&& d.location.timestamp == c.location.timestamp
        },
        None => true,
    }
}

/// Where each chunk's record holds the chunk's content again when it is
/// read, and no two chunks claim one slot, the written file addresses every
/// chunk that has a position.
pub proof fn lemma_written_is_addressed(chunks: Seq<ChunkView>, payloads: Seq<Seq<u8>>, i: int)
    requires
        written(chunks, payloads) is Some,
        reads_back(chunks[i], payloads[i]),
        one_chunk_per_slot(chunks),
        0 <= i < chunks.len(),
    ensures
        addressed(chunks[i], written(chunks, payloads).unwrap()),
{
    match position(chunks[i]) {
        Some((x, z)) => {
            lemma_table_position(x, z);
            lemma_sole_writer(chunks, i);
            lemma_read_slot(chunks, payloads, table_position(x, z) / 4);
        },
        None => {},
    }
}

/// How many of the first `m` slots a chunk among the first `n` has entered
/// itself in.
pub open spec fn entered(chunks: Seq<ChunkView>, n: int, m: int) -> nat
    decreases m,
{
    if m <= 0 {
        0
    } else {
        entered(chunks, n, m - 1) + if last_writer(chunks, n, 4 * (m - 1)) is Some {
            1nat
        } else {
            0nat
        }
    }
}

/// How many of the first `n` chunks have a position.
pub open spec fn positioned(chunks: Seq<ChunkView>, n: int) -> nat
    decreases n,
{
    if n <= 0 {
        0
    } else {
        positioned(chunks, n - 1) + if position(chunks[n - 1]) is Some {
            1nat
        } else {
            0nat
        }
    }
}

/// As many chunks are read from the first `m` slots of a written file as
/// slots were entered.
pub proof fn lemma_reread_len(chunks: Seq<ChunkView>, payloads: Seq<Seq<u8>>, m: int)
    ensures
        reread(chunks, payloads, m).len() == entered(chunks, chunks.len() as int, m),
    decreases m,
{
    if m > 0 {
        lemma_reread_len(chunks, payloads, m - 1);
    }
}

/// Where no two chunks claim one slot, one more chunk enters one more slot
/// if it has a position, and none if it has not.
pub proof fn lemma_entered_step(chunks: Seq<ChunkView>, n: int, m: int)
    requires
        one_chunk_per_slot(chunks),
        0 < n <= chunks.len(),
    ensures
        entered(chunks, n, m) == entered(chunks, n - 1, m) + match position(chunks[n - 1]) {
            Some((x, z)) => if table_position(x, z) / 4 < m {
                1nat
            } else {
                0nat
            },
            None => 0nat,
        },
    decreases m,
{
    if m > 0 {
        lemma_entered_step(chunks, n, m - 1);
        let at = 4 * (m - 1);
        match position(chunks[n - 1]) {
            Some((x, z)) => {
                lemma_table_position(x, z);
                if table_position(x, z) == at {
                    lemma_last_writer(chunks, n - 1, at);
                    match last_writer(chunks, n - 1, at) {
                        Some(w) => {
                            assert(position(chunks[w]) is Some && position(chunks[n - 1]) is Some);
                        },
                        None => {},
                    }
                }
            },
            None => {},
        }
    } else {
        match position(chunks[n - 1]) {
            Some((x, z)) => {
                lemma_table_position(x, z);
            },
            None => {},
        }
    }
}

/// Where no two chunks claim one slot, as many slots are entered as chunks
/// have a position.
pub proof fn lemma_entered_all(chunks: Seq<ChunkView>, n: int)
    requires
        one_chunk_per_slot(chunks),
        0 <= n <= chunks.len(),
    ensures
        entered(chunks, n, 1024) == positioned(chunks, n),
    decreases n,
{
    if n > 0 {
        lemma_entered_all(chunks, n - 1);
        lemma_entered_step(chunks, n, 1024);
        match position(chunks[n - 1]) {
            Some((x, z)) => {
                lemma_table_position(x, z);
            },
            None => {},
        }
    } else {
        lemma_entered_none(chunks, 1024);
    }
}

/// No chunk enters no slot.
pub proof fn lemma_entered_none(chunks: Seq<ChunkView>, m: int)
    ensures
        entered(chunks, 0, m) == 0,
    decreases m,
{
    if m > 0 {
        lemma_entered_none(chunks, m - 1);
    }
}

/// Where no two chunks claim one slot, a written file is read as a region of
/// as many chunks as have a position.
pub proof fn lemma_written_count(chunks: Seq<ChunkView>, payloads: Seq<Seq<u8>>)
    requires
        written(chunks, payloads) is Some,
        one_chunk_per_slot(chunks),
    ensures
        parsed(written(chunks, payloads).unwrap()) matches Ok(r) && r.chunks.len() == positioned(
            chunks,
            chunks.len() as int,
        ) && !r.is_modified,
{
    lemma_parsed_written(chunks, payloads);
    lemma_reread_len(chunks, payloads, 1024);
    lemma_entered_all(chunks, chunks.len() as int);
}

/// Where every chunk has a position, all of them are counted.
pub proof fn lemma_positioned_all(chunks: Seq<ChunkView>, n: int)
    requires
        0 <= n <= chunks.len(),
        forall|i: int| 0 <= i < chunks.len() ==> position(#[trigger] chunks[i]) is Some,
    ensures
        positioned(chunks, n) == n,
    decreases n,
{
    if n > 0 {
        lemma_positioned_all(chunks, n - 1);
    }
}

/// Every chunk that is read from a file can be written down again, and is
/// settled.
pub proof fn lemma_chunks_in_settled(bytes: Seq<u8>, n: int)
    ensures
        forall|i: int|
            0 <= i < chunks_in(bytes, n).len() ==> writable(#[trigger] chunks_in(bytes, n)[i])
                && settled(chunks_in(bytes, n)[i]),
    decreases n,
{
    if n > 0 {
        lemma_chunks_in_settled(bytes, n - 1);
        let before = chunks_in(bytes, n - 1);
        let all = chunks_in(bytes, n);
        let location = slot_location(bytes, n - 1);
        let read = chunk_at(bytes, location, (n - 1) as usize);
        if be_u32(bytes, 4 * (n - 1)) != 0 && read is Some {
            lemma_chunk_at(bytes, location, (n - 1) as usize);
            assert(all == before.push(read.unwrap()));
        } else {
            assert(all == before);
        }
        assert forall|i: int| 0 <= i < all.len() implies writable(#[trigger] all[i]) && settled(
            all[i],
        ) by {
            if i < before.len() {
                assert(all[i] == before[i]);
            }
        }
    }
}

/// The round trip of chunks that were read. Chunks that are writable and
/// settled, as chunks are that were read from a file, written with
/// payloads that fit them and that the compressor took, no two of them
/// claiming one slot, give a file that holds them again when it is read.
pub proof fn lemma_round_trip(chunks: Seq<ChunkView>, level: u32, payloads: Seq<Seq<u8>>)
    requires
        forall|i: int|
            0 <= i < chunks.len() ==> writable(#[trigger] chunks[i]) && settled(chunks[i]),
        payloads_fit(chunks, level, payloads),
        all_unpack(chunks, payloads),
        one_chunk_per_slot(chunks),
        written(chunks, payloads) is Some,
    ensures
        round_trips(chunks, written(chunks, payloads).unwrap()),
{
    let file = written(chunks, payloads).unwrap();
    assert forall|k: int| 0 <= k < chunks.len() implies reads_back(
        #[trigger] chunks[k],
        payloads[k],
    ) by {
        assert(writable(chunks[k]) && settled(chunks[k]));
        lemma_reads_back(chunks[k], level, payloads[k]);
    }
    assert forall|k: int| 0 <= k < chunks.len() && position(chunks[k]) is Some implies resolves(
        #[trigger] chunks[k],
        parsed(file),
    ) by {
        lemma_written_then_parsed(chunks, payloads, k);
    }
    assert forall|k: int| 0 <= k < chunks.len() implies addressed(#[trigger] chunks[k], file) by {
        lemma_written_is_addressed(chunks, payloads, k);
    }
    lemma_written_count(chunks, payloads);
}

/// The round trip of a region: parse, then write. Where the bytes `bytes`
/// hold a region, its chunks are written with payloads that fit them and
/// that the compressor took, and no two of them claim one slot, the written
/// file holds the chunks again when it is read.
pub proof fn lemma_parse_then_write(bytes: Seq<u8>, level: u32, payloads: Seq<Seq<u8>>)
    requires
        parsed(bytes) is Ok,
        payloads_fit(parsed(bytes).unwrap().chunks, level, payloads),
        all_unpack(parsed(bytes).unwrap().chunks, payloads),
        one_chunk_per_slot(parsed(bytes).unwrap().chunks),
        written(parsed(bytes).unwrap().chunks, payloads) is Some,
    ensures
        round_trips(
            parsed(bytes).unwrap().chunks,
            written(parsed(bytes).unwrap().chunks, payloads).unwrap(),
        ),
{
    lemma_chunks_in_settled(bytes, 1024);
    lemma_round_trip(parsed(bytes).unwrap().chunks, level, payloads);
}

} // verus!
