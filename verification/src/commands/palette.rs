//! Palette mode: chunks selected by the blocks that they hold, listed and
//! deleted by their coordinates.

use crate::commands::optimize_result::{zero, Counts, OptimizeResult};
use crate::commands::write::{plan_of, ActionView, FileAction, Plan, PlanView};
use crate::region_loader::chunk_loader::chunk::{
    block_count, bytes_of, deletable, lemma_reads_back, position, reads_back, settled, writable,
    Chunk, ChunkView,
};
use crate::region_loader::region::{
    all_unpack, chunk_views, first_at, lemma_plain_payloads, parsed, payloads_fit,
    plain_payloads, region_written_as, round_trips, written, Region,
};
use crate::region_loader::round_trip::{
    lemma_chunks_in_settled, lemma_parsed_written, lemma_parsed_written_contents,
    lemma_round_trip, one_chunk_per_slot, reread,
};
use crate::region_loader::removal::{
    lemma_first_at, lemma_listed_below, lemma_listed_push, lemma_without_agrees,
    lemma_without_prefix, listed, rising_below, without,
};
use vstd::prelude::*;
use vstd::string::StringSliceAdditionalSpecFns;

verus! {

/// One chunk of a list: the region file that holds it and its coordinates.
#[derive(Debug)]
pub struct PaletteResult {
    pub region_file_path: String,
    pub chunk_x: i32,
    pub chunk_z: i32,
}

impl Clone for PaletteResult {
    fn clone(&self) -> (res: Self)
        ensures
            res.region_file_path@ == self.region_file_path@,
            res.chunk_x == self.chunk_x,
            res.chunk_z == self.chunk_z,
    {
        PaletteResult {
            region_file_path: self.region_file_path.clone(),
            chunk_x: self.chunk_x,
            chunk_z: self.chunk_z,
        }
    }
}

/// The level at which a region is written after an import.
pub const IMPORT_COMPRESSION_LEVEL: u32 = 6;

/// The bytes of the block name that is asked for, where one is.
pub open spec fn filter_bytes(id_filter: Option<&str>) -> Option<Seq<u8>> {
    match id_filter {
        Some(id) => Some(id.spec_bytes()),
        None => None,
    }
}

/// Whether the filter selects the chunk. With a block name, the chunk must
/// name that block at least `threshold` times, or once where there is no
/// threshold; without a block name, the chunk must be one that a sweep
/// deletes.
pub open spec fn selected(c: ChunkView, id: Option<Seq<u8>>, threshold: Option<u32>) -> bool {
    match id {
        Some(name) => match threshold {
            Some(t) => block_count(c, name) >= t,
            None => block_count(c, name) > 0,
        },
        None => deletable(c),
    }
}

/// The coordinates of the chunks among the first `n` that the filter selects
/// and that have coordinates, in the order of the chunks.
pub open spec fn exported(
    chunks: Seq<ChunkView>,
    id: Option<Seq<u8>>,
    threshold: Option<u32>,
    n: int,
) -> Seq<(i32, i32)>
    decreases n,
{
    if n <= 0 {
        Seq::empty()
    } else {
        let before = exported(chunks, id, threshold, n - 1);
        if selected(chunks[n - 1], id, threshold) {
            match position(chunks[n - 1]) {
                Some(p) => before.push(p),
                None => before,
            }
        } else {
            before
        }
    }
}

/// The coordinates that an export lists for a file: none where the file
/// cannot be read or holds no region.
pub open spec fn export_of(
    contents: Option<Seq<u8>>,
    id: Option<Seq<u8>>,
    threshold: Option<u32>,
) -> Seq<(i32, i32)> {
    match contents {
        Some(bytes) => match parsed(bytes) {
            Ok(region) => exported(region.chunks, id, threshold, region.chunks.len() as int),
            Err(_) => Seq::empty(),
        },
        None => Seq::empty(),
    }
}

/// The coordinates that `results` list, one for one.
pub open spec fn coordinates(results: Seq<PaletteResult>) -> Seq<(i32, i32)> {
    results.map_values(|r: PaletteResult| (r.chunk_x, r.chunk_z))
}

/// The indices of the chunks that stand at `(x, z)`.
pub open spec fn standing_at(chunks: Seq<ChunkView>, x: i32, z: i32) -> Set<int> {
    Set::new(|i: int| 0 <= i < chunks.len() && position(chunks[i]) == Some((x, z)))
}

/// The chunks that are left when those at `(x, z)` are deleted.
pub open spec fn cleared(chunks: Seq<ChunkView>, x: i32, z: i32) -> Seq<ChunkView> {
    without(chunks, standing_at(chunks, x, z), chunks.len() as int)
}

/// What an import counts for one row of its list: nothing for a file that
/// cannot be read or holds no region; else the chunks at the row's
/// coordinates count as deleted, and the region where none is left. An import
/// does not count the chunks that it looked at.
pub open spec fn import_counts(contents: Option<Seq<u8>>, x: i32, z: i32) -> Counts {
    match contents {
        Some(bytes) => match parsed(bytes) {
            Ok(region) => Counts {
                total_chunks: 0,
                deleted_chunks: (region.chunks.len() - cleared(region.chunks, x, z).len()) as nat,
                deleted_regions: if cleared(region.chunks, x, z).len() == 0 {
                    1
                } else {
                    0
                },
            },
            Err(_) => zero(),
        },
        None => zero(),
    }
}

/// What an import does with the file of one row, where the chunks that are
/// left come to be written with the payloads `payloads`. A file that cannot
/// be read or holds no region is kept as it is. Else the import does as a
/// sweep does, with the chunks at the row's coordinates in place of the
/// worthless ones: it deletes the file where no chunk is left, writes the
/// chunks that are left where any was deleted, and else keeps the file.
/// `None` where the chunks that are left cannot be written.
pub open spec fn import_action(
    contents: Option<Seq<u8>>,
    x: i32,
    z: i32,
    payloads: Seq<Seq<u8>>,
) -> Option<ActionView> {
    match contents {
        Some(bytes) => match parsed(bytes) {
            Ok(region) => {
                let left = cleared(region.chunks, x, z);
                if left.len() == 0 {
                    Some(ActionView::Delete)
                } else if left.len() < region.chunks.len() {
                    match written(left, payloads) {
                        Some(file) => Some(ActionView::Write(file)),
                        None => None,
                    }
                } else {
                    Some(ActionView::Keep)
                }
            },
            Err(_) => Some(ActionView::Keep),
        },
        None => Some(ActionView::Keep),
    }
}

/// The chunks that an import of the row at `(x, z)` leaves of what a file
/// holds; none where the file holds no region.
pub open spec fn cleared_of(contents: Option<Seq<u8>>, x: i32, z: i32) -> Seq<ChunkView> {
    match contents {
        Some(bytes) => match parsed(bytes) {
            Ok(region) => cleared(region.chunks, x, z),
            Err(_) => Seq::empty(),
        },
        None => Seq::empty(),
    }
}

/// Whether `plan` is what an import of the row at `(x, z)` gives for
/// `contents` where the chunks that are left come to be written with the
/// payloads `payloads`: the payloads fit the chunks that are left, at the
/// level of an import; the plan counts what `import_counts` says and does
/// what `import_action` says; and of a file that is written holds what
/// `import_holds` says.
pub open spec fn imported_as(
    contents: Option<Seq<u8>>,
    x: i32,
    z: i32,
    payloads: Seq<Seq<u8>>,
    plan: Option<PlanView>,
) -> bool {
    &&& payloads_fit(cleared_of(contents, x, z), IMPORT_COMPRESSION_LEVEL, payloads)
    &&& match plan {
        Some(p) => import_action(contents, x, z, payloads) == Some(p.action) && p.result
            == import_counts(contents, x, z),
        None => import_action(contents, x, z, payloads) is None,
    }
    &&& plan matches Some(p) ==> (p.action matches ActionView::Write(file) ==> import_holds(
        cleared_of(contents, x, z),
        x,
        z,
        payloads,
        file,
    ))
}

/// What holds of the file `file` that an import of the row at `(x, z)`
/// wrote, with the payloads `payloads`, of the chunks `left` that it left.
/// Where the compressor took every tree, the file is read as a region in
/// which no chunk stands at `(x, z)`. Where also no two chunks claim one
/// slot, the file holds the chunks that were left again when it is read.
pub open spec fn import_holds(
    left: Seq<ChunkView>,
    x: i32,
    z: i32,
    payloads: Seq<Seq<u8>>,
    file: Seq<u8>,
) -> bool {
    all_unpack(left, payloads) ==> {
        &&& parsed(file) matches Ok(r) && first_at(r.chunks, x, z, 0) is None
        &&& one_chunk_per_slot(left) ==> round_trips(left, file)
    }
}

/// An import clears its coordinates. Where an import of the row at `(x, z)`
/// writes a file of the bytes `bytes`, with payloads that fit the chunks that
/// it left, what `import_holds` says holds of the file.
pub proof fn lemma_import_clears(bytes: Seq<u8>, x: i32, z: i32, payloads: Seq<Seq<u8>>)
    requires
        payloads_fit(cleared_of(Some(bytes), x, z), IMPORT_COMPRESSION_LEVEL, payloads),
        import_action(Some(bytes), x, z, payloads) matches Some(ActionView::Write(_)),
    ensures
        import_action(Some(bytes), x, z, payloads) matches Some(ActionView::Write(file))
            && import_holds(cleared_of(Some(bytes), x, z), x, z, payloads, file),
{
    let all = parsed(bytes).unwrap().chunks;
    let left = cleared(all, x, z);
    let removed = standing_at(all, x, z);
    lemma_chunks_in_settled(bytes, 1024);
    lemma_without_prefix(all, removed, all.len() as int, all.len() as int);
    assert forall|k: int| 0 <= k < left.len() implies writable(#[trigger] left[k]) && settled(
        left[k],
    ) && position(left[k]) != Some((x, z)) by {
        let i = choose|i: int| 0 <= i < all.len() && !removed.contains(i) && all[i] == left[k];
        assert(writable(all[i]) && settled(all[i]));
    }
    if all_unpack(left, payloads) {
        assert forall|k: int| 0 <= k < left.len() implies reads_back(
            #[trigger] left[k],
            payloads[k],
        ) by {
            assert(writable(left[k]) && settled(left[k]));
            lemma_reads_back(left[k], IMPORT_COMPRESSION_LEVEL, payloads[k]);
        }
        let again = reread(left, payloads, 1024);
        lemma_parsed_written(left, payloads);
        assert forall|j: int| 0 <= j < again.len() implies position(#[trigger] again[j]) != Some(
            (x, z),
        ) by {
            lemma_parsed_written_contents(left, payloads, j);
            let i = choose|i: int| 0 <= i < left.len() && (#[trigger] left[i]).nbt == again[j].nbt;
            assert(position(left[i]) != Some((x, z)));
        }
        lemma_first_at(again, x, z, 0);
        if one_chunk_per_slot(left) {
            lemma_round_trip(left, IMPORT_COMPRESSION_LEVEL, payloads);
        }
    }
}

/// Whether an import keeps a row of its list. Without a block name every row
/// is kept. With one, the row is kept where its file holds a region, a chunk
/// stands at the row's coordinates, and the filter selects the first such
/// chunk.
pub open spec fn row_kept(
    contents: Option<Seq<u8>>,
    x: i32,
    z: i32,
    id: Option<Seq<u8>>,
    threshold: Option<u32>,
) -> bool {
    match id {
        Some(_) => match contents {
            Some(bytes) => match parsed(bytes) {
                Ok(region) => match first_at(region.chunks, x, z, 0) {
                    Some(i) => selected(region.chunks[i], id, threshold),
                    None => false,
                },
                Err(_) => false,
            },
            None => false,
        },
        None => true,
    }
}

/// Whether the filter selects the chunk.
pub fn is_selected(
    chunk: &Chunk,
    id_filter: Option<&str>,
    count_threshold: Option<u32>,
) -> (hit: bool)
    ensures
        hit == selected(chunk@, filter_bytes(id_filter), count_threshold),
{
    match id_filter {
        Some(id) => {
            let count = chunk.count_block(id);
            match count_threshold {
                Some(threshold) => count >= threshold,
                None => count > 0,
            }
        },
        None => chunk.should_delete(),
    }
}

/// Lists the chunks of one region file that the filter selects: `contents`
/// is `None` where the file could not be read. A chunk without coordinates
/// is not listed.
pub fn optimize_palette_export(
    contents: Option<Vec<u8>>,
    region_file_path: &str,
    id_filter: Option<&str>,
    count_threshold: Option<u32>,
) -> (results: Vec<PaletteResult>)
    ensures
        coordinates(results@) == export_of(
            match contents {
                Some(v) => Some(v@),
                None => None,
            },
            filter_bytes(id_filter),
            count_threshold,
        ),
        forall|i: int|
            0 <= i < results.len() ==> (#[trigger] results[i]).region_file_path@
                == region_file_path@,
{
    let mut results: Vec<PaletteResult> = Vec::new();
    assert(coordinates(results@) =~= Seq::<(i32, i32)>::empty());
    match Region::from_file_name(contents) {
        Ok(region) => {
            let chunks = region.get_chunks();
            let mut i: usize = 0;
            while i < chunks.len()
                invariant
                    i <= chunks.len(),
                    chunk_views(chunks@) == region@.chunks,
                    coordinates(results@) == exported(
                        region@.chunks,
                        filter_bytes(id_filter),
                        count_threshold,
                        i as int,
                    ),
                    forall|j: int|
                        0 <= j < results.len() ==> (#[trigger] results[j]).region_file_path@
                            == region_file_path@,
                decreases chunks.len() - i,
            {
                assert(region@.chunks[i as int] == chunks[i as int]@);
                if is_selected(&chunks[i], id_filter, count_threshold) {
                    match chunks[i].get_position() {
                        Ok(position) => {
                            let found = PaletteResult {
                                region_file_path: region_file_path.to_owned(),
                                chunk_x: position.0,
                                chunk_z: position.1,
                            };
                            assert(coordinates(results@.push(found)) =~= coordinates(
                                results@,
                            ).push((position.0, position.1)));
                            results.push(found);
                        },
                        Err(_) => {},
                    }
                }
                i += 1;
            }
            results
        },
        Err(_) => results,
    }
}

/// The indices of the chunks of `region` that stand at `(x, z)`, rising.
pub fn chunks_at(region: &Region, x: i32, z: i32) -> (indices: Vec<usize>)
    ensures
        rising_below(indices@, region@.chunks.len() as int),
        forall|i: int|
            0 <= i < region@.chunks.len() ==> (listed(indices@, 0).contains(i) <==> position(
                region@.chunks[i],
            ) == Some((x, z))),
{
    let chunks = region.get_chunks();
    let mut indices: Vec<usize> = Vec::new();
    let mut i: usize = 0;
    while i < chunks.len()
        invariant
            i <= chunks.len(),
            chunk_views(chunks@) == region@.chunks,
            rising_below(indices@, i as int),
            forall|k: int|
                0 <= k < i ==> (listed(indices@, 0).contains(k) <==> position(region@.chunks[k])
                    == Some((x, z))),
        decreases chunks.len() - i,
    {
        assert(region@.chunks[i as int] == chunks[i as int]@);
        proof {
            lemma_listed_below(indices@, i as int, i as int);
        }
        let here = match chunks[i].get_position() {
            Ok(position) => position.0 == x && position.1 == z,
            Err(_) => false,
        };
        if here {
            proof {
                lemma_listed_push(indices@, i);
            }
            indices.push(i);
        }
        i += 1;
    }
    indices
}

/// Deletes the chunks at the coordinates of one row from what was read of
/// the row's region file: `contents` is `None` where the file could not be
/// read. A file that could not be read or holds no region is left alone, and
/// a row at whose coordinates no chunk stands deletes nothing. `None` where
/// the chunks that are left cannot be written.
pub fn optimize_palette_import(palette_result: &PaletteResult, contents: Option<Vec<u8>>) -> (plan:
    Option<Plan>)
    ensures
        exists|payloads: Seq<Seq<u8>>| #[trigger]
            imported_as(
                bytes_of(contents),
                palette_result.chunk_x,
                palette_result.chunk_z,
                payloads,
                plan_of(plan),
            ),
{
    let x = palette_result.chunk_x;
    let z = palette_result.chunk_z;
    let ghost read = bytes_of(contents);
    let ghost plain = plain_payloads(cleared_of(read, x, z), IMPORT_COMPRESSION_LEVEL);
    proof {
        lemma_plain_payloads(cleared_of(read, x, z), IMPORT_COMPRESSION_LEVEL);
    }
    let mut result = OptimizeResult::default();
    match Region::from_file_name(contents) {
        Ok(mut region) => {
            let ghost all = region@.chunks;
            let chunks_to_delete_indices = chunks_at(&region, x, z);
            proof {
                lemma_without_agrees(
                    all,
                    listed(chunks_to_delete_indices@, 0),
                    standing_at(all, x, z),
                    all.len() as int,
                );
            }
            region.remove_chunks_by_indices(&chunks_to_delete_indices);
            result.deleted_chunks = chunks_to_delete_indices.len();
            if region.is_empty() {
                result.deleted_regions = 1;
                let plan = Some(Plan { result, action: FileAction::Delete });
                assert(imported_as(read, x, z, plain, plan_of(plan)));
                plan
            } else if region.is_modified() {
                let file = region.to_bytes(IMPORT_COMPRESSION_LEVEL);
                let plan = match file {
                    Some(bytes) => Some(Plan { result, action: FileAction::Write(bytes) }),
                    None => None,
                };
                proof {
                    let payloads = choose|payloads: Seq<Seq<u8>>| #[trigger]
                        region_written_as(
                            region@.chunks,
                            IMPORT_COMPRESSION_LEVEL,
                            payloads,
                            bytes_of(file),
                        );
                    if file is Some {
                        lemma_import_clears(read.unwrap(), x, z, payloads);
                    }
                    assert(imported_as(read, x, z, payloads, plan_of(plan)));
                }
                plan
            } else {
                let plan = Some(Plan { result, action: FileAction::Keep });
                assert(imported_as(read, x, z, plain, plan_of(plan)));
                plan
            }
        },
        Err(_) => {
            let plan = Some(Plan { result, action: FileAction::Keep });
            assert(imported_as(read, x, z, plain, plan_of(plan)));
            plan
        },
    }
}

/// Whether an import keeps a row of its list: see `row_kept`. `contents` is
/// what was read of the row's region file, `None` where it could not be
/// read; without a block name it is not looked at.
pub fn import_keeps(
    palette_result: &PaletteResult,
    contents: Option<Vec<u8>>,
    id_filter: Option<&str>,
    count_threshold: Option<u32>,
) -> (kept: bool)
    ensures
        kept == row_kept(
            match contents {
                Some(v) => Some(v@),
                None => None,
            },
            palette_result.chunk_x,
            palette_result.chunk_z,
            filter_bytes(id_filter),
            count_threshold,
        ),
{
    match id_filter {
        Some(_) => match Region::from_file_name(contents) {
            Ok(region) => match region.get_chunk(palette_result.chunk_x, palette_result.chunk_z) {
                Some(chunk) => is_selected(chunk, id_filter, count_threshold),
                None => false,
            },
            Err(_) => false,
        },
        None => true,
    }
}

} // verus!
