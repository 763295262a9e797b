//! Sweep mode: what becomes of one region file.

use crate::commands::optimize_result::{Counts, OptimizeResult};
use crate::region_loader::chunk_loader::chunk::{
    bytes_of, deletable, lemma_reads_back, position, reads_back, settled, writable, ChunkView,
};
use crate::region_loader::region::{
    all_unpack, chunk_views, lemma_plain_payloads, parsed, payloads_fit, plain_payloads,
    region_written_as, round_trips, written, Region,
};
use crate::region_loader::round_trip::{
    lemma_chunks_in_settled, lemma_parsed_written, lemma_parsed_written_contents,
    lemma_positioned_all, lemma_round_trip, lemma_written_count, one_chunk_per_slot, reread,
};
use crate::region_loader::removal::{
    lemma_listed_below, lemma_listed_push, lemma_without_agrees, lemma_without_len,
    lemma_without_prefix, lemma_without_untouched, listed, rising_below, without,
};
use vstd::prelude::*;

verus! {

/// What is to be done with a region file.
#[derive(Debug, PartialEq, Eq)]
pub enum FileAction {
    /// Leave the file as it is.
    Keep,
    /// Remove the file.
    Delete,
    /// Replace what the file holds by these bytes.
    Write(Vec<u8>),
}

/// What is to be done with a region file, as a mathematical value.
pub enum ActionView {
    Keep,
    Delete,
    Write(Seq<u8>),
}

impl View for FileAction {
    type V = ActionView;

    open spec fn view(&self) -> ActionView {
        match self {
            FileAction::Keep => ActionView::Keep,
            FileAction::Delete => ActionView::Delete,
            FileAction::Write(bytes) => ActionView::Write(bytes@),
        }
    }
}

/// What a pass over one region file counted, and what is to be done with the
/// file.
#[derive(Debug, PartialEq, Eq)]
pub struct Plan {
    pub result: OptimizeResult,
    pub action: FileAction,
}

/// A plan as a mathematical value.
pub struct PlanView {
    pub result: Counts,
    pub action: ActionView,
}

impl View for Plan {
    type V = PlanView;

    open spec fn view(&self) -> PlanView {
        PlanView { result: self.result@, action: self.action@ }
    }
}

/// The indices of the chunks that a sweep deletes.
pub open spec fn doomed(chunks: Seq<ChunkView>) -> Set<int> {
    Set::new(|i: int| 0 <= i < chunks.len() && deletable(chunks[i]))
}

/// The chunks that a sweep leaves, in their order.
pub open spec fn swept(chunks: Seq<ChunkView>) -> Seq<ChunkView> {
    without(chunks, doomed(chunks), chunks.len() as int)
}

/// What a sweep counts for a file: a file that cannot be read or holds no
/// region counts as one deleted region; else every chunk counts, the deleted
/// ones count as deleted, and the region counts as deleted where none is
/// left.
pub open spec fn sweep_counts(contents: Option<Seq<u8>>) -> Counts {
    match contents {
        Some(bytes) => match parsed(bytes) {
            Ok(region) => Counts {
                total_chunks: region.chunks.len(),
                deleted_chunks: (region.chunks.len() - swept(region.chunks).len()) as nat,
                deleted_regions: if swept(region.chunks).len() == 0 {
                    1
                } else {
                    0
                },
            },
            Err(_) => Counts { total_chunks: 0, deleted_chunks: 0, deleted_regions: 1 },
        },
        None => Counts { total_chunks: 0, deleted_chunks: 0, deleted_regions: 1 },
    }
}

/// What a sweep does with a file, where the chunks that are left come to be
/// written with the payloads `payloads`: it deletes a file that cannot be
/// read or holds no region, and one of which no chunk is left; it writes the
/// chunks that are left where any was deleted; else it keeps the file. `None`
/// where the chunks that are left cannot be written.
pub open spec fn sweep_action(contents: Option<Seq<u8>>, payloads: Seq<Seq<u8>>) -> Option<
    ActionView,
> {
    match contents {
        Some(bytes) => match parsed(bytes) {
            Ok(region) => {
                let left = swept(region.chunks);
                if left.len() == 0 {
                    Some(ActionView::Delete)
                } else if left.len() < region.chunks.len() {
                    match written(left, payloads) {
                        Some(file) => Some(ActionView::Write(file)),
                        None => None,
                    }
                } else {
                    Some(ActionView::Keep)
                }
            },
            Err(_) => Some(ActionView::Delete),
        },
        None => Some(ActionView::Delete),
    }
}

/// The chunks that a sweep leaves of what a file holds; none where the file
/// holds no region.
pub open spec fn left_of(contents: Option<Seq<u8>>) -> Seq<ChunkView> {
    match contents {
        Some(bytes) => match parsed(bytes) {
            Ok(region) => swept(region.chunks),
            Err(_) => Seq::empty(),
        },
        None => Seq::empty(),
    }
}

/// A plan as a mathematical value, where there is one.
pub open spec fn plan_of(plan: Option<Plan>) -> Option<PlanView> {
    match plan {
        Some(p) => Some(p@),
        None => None,
    }
}

/// Whether every one of `chunks` has a position.
pub open spec fn all_positioned(chunks: Seq<ChunkView>) -> bool {
    forall|i: int| 0 <= i < chunks.len() ==> position(#[trigger] chunks[i]) is Some
}

/// What holds of the file `file` that a sweep wrote, with the payloads
/// `payloads`, of the chunks `left` that it left. Where the compressor took
/// every tree, a sweep of the file finds no chunk to delete. Where also no
/// two chunks claim one slot, the file holds the chunks again when it is
/// read. Where also every chunk has a position, a sweep of the file counts
/// the chunks that were left, deletes nothing, and keeps the file.
pub open spec fn sweeps_clean(left: Seq<ChunkView>, payloads: Seq<Seq<u8>>, file: Seq<u8>) -> bool {
    all_unpack(left, payloads) ==> {
        &&& sweep_counts(Some(file)).deleted_chunks == 0
        &&& one_chunk_per_slot(left) ==> {
            &&& round_trips(left, file)
            &&& all_positioned(left) ==> {
                &&& sweep_counts(Some(file)) == (Counts {
                    total_chunks: left.len(),
                    deleted_chunks: 0,
                    deleted_regions: 0,
                })
                &&& sweep_action(Some(file), payloads) == Some(ActionView::Keep)
            }
        }
    }
}

/// Whether `plan` is what a sweep of `contents` at the level `level` gives
/// where the chunks that are left come to be written with the payloads
/// `payloads`. The payloads fit the chunks that are left; the plan counts
/// what `sweep_counts` says and does what `sweep_action` says; and a file
/// that is written sweeps clean.
pub open spec fn swept_as(
    contents: Option<Seq<u8>>,
    level: u32,
    payloads: Seq<Seq<u8>>,
    plan: Option<PlanView>,
) -> bool {
    &&& payloads_fit(left_of(contents), level, payloads)
    &&& match plan {
        Some(p) => sweep_action(contents, payloads) == Some(p.action) && p.result == sweep_counts(
            contents,
        ),
        None => sweep_action(contents, payloads) is None,
    }
    &&& plan matches Some(p) ==> (p.action matches ActionView::Write(file) ==> sweeps_clean(
        left_of(contents),
        payloads,
        file,
    ))
}

/// A sweep deletes nothing of what a sweep has left: each chunk that is left
/// is one that a sweep keeps, so a second sweep leaves the same chunks and
/// counts no further deletion.
pub proof fn lemma_sweep_idempotent(chunks: Seq<ChunkView>)
    ensures
        forall|j: int| 0 <= j < swept(chunks).len() ==> !deletable(#[trigger] swept(chunks)[j]),
        doomed(swept(chunks)) == Set::<int>::empty(),
        swept(swept(chunks)) == swept(chunks),
        swept(chunks).len() - swept(swept(chunks)).len() == 0,
{
    let left = swept(chunks);
    let n = chunks.len() as int;
    lemma_without_prefix(chunks, doomed(chunks), n, n);
    assert forall|j: int| 0 <= j < left.len() implies !deletable(#[trigger] left[j]) by {
        let i = choose|i: int| 0 <= i < n && !doomed(chunks).contains(i) && chunks[i] == left[j];
        assert(!deletable(chunks[i]));
    }
    assert(doomed(left) =~= Set::<int>::empty());
    lemma_without_untouched(left, doomed(left), left.len() as int);
    assert(left.take(left.len() as int) =~= left);
}

/// A second sweep deletes no chunk. Where the chunks that a sweep has left
/// are written, and each one's record holds its content again when it is
/// read, a sweep of the written file finds no chunk to delete.
pub proof fn lemma_second_sweep_deletes_nothing(chunks: Seq<ChunkView>, payloads: Seq<Seq<u8>>)
    requires
        written(swept(chunks), payloads) is Some,
        forall|k: int|
            0 <= k < swept(chunks).len() ==> reads_back(#[trigger] swept(chunks)[k], payloads[k]),
    ensures
        sweep_counts(Some(written(swept(chunks), payloads).unwrap())).deleted_chunks == 0,
{
    let left = swept(chunks);
    let again = reread(left, payloads, 1024);
    lemma_sweep_idempotent(chunks);
    lemma_parsed_written(left, payloads);
    assert forall|j: int| 0 <= j < again.len() implies !deletable(#[trigger] again[j]) by {
        lemma_parsed_written_contents(left, payloads, j);
        let i = choose|i: int| 0 <= i < left.len() && (#[trigger] left[i]).nbt == again[j].nbt;
        assert(!deletable(left[i]));
    }
    assert(doomed(again) =~= Set::<int>::empty());
    lemma_without_untouched(again, doomed(again), again.len() as int);
    assert(again.take(again.len() as int) =~= again);
}

/// A second sweep changes nothing. Where the chunks that a sweep has left
/// are written, each one's record holds its content again when it is read,
/// no two of them claim one slot and each has a position, a sweep of the
/// written file counts those chunks, deletes nothing and keeps the file.
pub proof fn lemma_second_sweep_keeps(
    chunks: Seq<ChunkView>,
    payloads: Seq<Seq<u8>>,
    other: Seq<Seq<u8>>,
)
    requires
        written(swept(chunks), payloads) is Some,
        forall|k: int|
            0 <= k < swept(chunks).len() ==> reads_back(#[trigger] swept(chunks)[k], payloads[k]),
        one_chunk_per_slot(swept(chunks)),
        all_positioned(swept(chunks)),
        swept(chunks).len() > 0,
    ensures
        sweep_counts(Some(written(swept(chunks), payloads).unwrap())) == (Counts {
            total_chunks: swept(chunks).len(),
            deleted_chunks: 0,
            deleted_regions: 0,
        }),
        sweep_action(Some(written(swept(chunks), payloads).unwrap()), other) == Some(
            ActionView::Keep,
        ),
{
    let left = swept(chunks);
    let again = reread(left, payloads, 1024);
    lemma_second_sweep_deletes_nothing(chunks, payloads);
    lemma_parsed_written(left, payloads);
    lemma_written_count(left, payloads);
    lemma_positioned_all(left, left.len() as int);
    assert(again.len() == left.len());
}

/// Idempotence of a sweep. Where a sweep of the bytes `bytes` writes a file,
/// with payloads that fit the chunks that it left, the file sweeps clean:
/// see `sweeps_clean`.
pub proof fn lemma_sweep_twice(bytes: Seq<u8>, level: u32, payloads: Seq<Seq<u8>>)
    requires
        payloads_fit(left_of(Some(bytes)), level, payloads),
        sweep_action(Some(bytes), payloads) matches Some(ActionView::Write(_)),
    ensures
        sweep_action(Some(bytes), payloads) matches Some(ActionView::Write(file)) && sweeps_clean(
            left_of(Some(bytes)),
            payloads,
            file,
        ),
{
    let all = parsed(bytes).unwrap().chunks;
    let left = swept(all);
    lemma_chunks_in_settled(bytes, 1024);
    lemma_without_prefix(all, doomed(all), all.len() as int, all.len() as int);
    assert forall|k: int| 0 <= k < left.len() implies writable(#[trigger] left[k]) && settled(
        left[k],
    ) by {
        let i = choose|i: int|
            0 <= i < all.len() && !doomed(all).contains(i) && all[i] == left[k];
        assert(writable(all[i]) && settled(all[i]));
    }
    if all_unpack(left, payloads) {
        assert forall|k: int| 0 <= k < left.len() implies reads_back(
            #[trigger] left[k],
            payloads[k],
        ) by {
            assert(writable(left[k]) && settled(left[k]));
            lemma_reads_back(left[k], level, payloads[k]);
        }
        lemma_second_sweep_deletes_nothing(all, payloads);
        if one_chunk_per_slot(left) {
            lemma_round_trip(left, level, payloads);
            if all_positioned(left) {
                lemma_second_sweep_keeps(all, payloads, payloads);
            }
        }
    }
}

/// The indices of the chunks of `region` that a sweep deletes, rising.

pub fn chunks_to_delete(region: &Region) -> (indices: Vec<usize>)
    ensures
        rising_below(indices@, region@.chunks.len() as int),
        forall|i: int|
            0 <= i < region@.chunks.len() ==> (listed(indices@, 0).contains(i) <==> deletable(
                region@.chunks[i],
            )),
{
    let chunks = region.get_chunks();
    let mut indices: Vec<usize> = Vec::new();
    let mut i: usize = 0;
    while i < chunks.len()
        invariant
            i <= chunks.len(),
            chunk_views(chunks@) == region@.chunks,
            rising_below(indices@, i as int),
            forall|k: int|
                0 <= k < i ==> (listed(indices@, 0).contains(k) <==> deletable(region@.chunks[k])),
        decreases chunks.len() - i,
    {
        assert(region@.chunks[i as int] == chunks[i as int]@);
        proof {
            lemma_listed_below(indices@, i as int, i as int);
        }
        if chunks[i].should_delete() {
            proof {
                lemma_listed_push(indices@, i);
            }
            indices.push(i);
        }
        i += 1;
    }
    indices
}

/// Sweeps what was read of one region file: `contents` is `None` where the
/// file could not be read. Says what the pass counted and what is to be done
/// with the file; `None` where the chunks that are left cannot be written.
pub fn optimize_write(contents: Option<Vec<u8>>, compression_level: u32) -> (plan: Option<Plan>)
    requires
        compression_level <= 9,
    ensures
        exists|payloads: Seq<Seq<u8>>| #[trigger]
            swept_as(bytes_of(contents), compression_level, payloads, plan_of(plan)),
{
    let ghost read = bytes_of(contents);
    let ghost plain = plain_payloads(left_of(read), compression_level);
    proof {
        lemma_plain_payloads(left_of(read), compression_level);
    }
    let mut result = OptimizeResult::default();
    match Region::from_file_name(contents) {
        Ok(mut region) => {
            let ghost all = region@.chunks;
            result.total_chunks = region.get_chunk_count();
            let chunks_to_delete_indices = chunks_to_delete(&region);
            result.deleted_chunks = chunks_to_delete_indices.len();
            proof {
                lemma_without_agrees(
                    all,
                    listed(chunks_to_delete_indices@, 0),
                    doomed(all),
                    all.len() as int,
                );
            }
            region.remove_chunks_by_indices(&chunks_to_delete_indices);
            assert(region@.chunks == swept(all));
            if region.is_empty() {
                result.deleted_regions = 1;
                let plan = Some(Plan { result, action: FileAction::Delete });
                assert(swept_as(read, compression_level, plain, plan_of(plan)));
                plan
            } else if region.is_modified() {
                let file = region.to_bytes(compression_level);
                let plan = match file {
                    Some(bytes) => Some(Plan { result, action: FileAction::Write(bytes) }),
                    None => None,
                };
                proof {
                    let payloads = choose|payloads: Seq<Seq<u8>>| #[trigger]
                        region_written_as(
                            region@.chunks,
                            compression_level,
                            payloads,
                            bytes_of(file),
                        );
                    if file is Some {
                        lemma_sweep_twice(read.unwrap(), compression_level, payloads);
                    }
                    assert(swept_as(read, compression_level, payloads, plan_of(plan)));
                }
                plan
            } else {
                let plan = Some(Plan { result, action: FileAction::Keep });
                assert(swept_as(read, compression_level, plain, plan_of(plan)));
                plan
            }
        },
        Err(_) => {
            result.deleted_regions = 1;
            let plan = Some(Plan { result, action: FileAction::Delete });
            assert(swept_as(read, compression_level, plain, plan_of(plan)));
            plan
        },
    }
}

/// Counts what a sweep of one region file would do, and changes nothing.
pub fn optimize_read(contents: Option<Vec<u8>>) -> (result: OptimizeResult)
    ensures
        result@ == sweep_counts(
            match contents {
                Some(v) => Some(v@),
                None => None,
            },
        ),
{
    let mut result = OptimizeResult::default();
    match Region::from_file_name(contents) {
        Ok(region) => {
            let ghost all = region@.chunks;
            result.total_chunks = region.get_chunk_count();
            let chunks_to_delete_indices = chunks_to_delete(&region);
            result.deleted_chunks = chunks_to_delete_indices.len();
            proof {
                lemma_without_agrees(
                    all,
                    listed(chunks_to_delete_indices@, 0),
                    doomed(all),
                    all.len() as int,
                );
                lemma_without_len(all, chunks_to_delete_indices@, all.len() as int);
            }
            if result.deleted_chunks == result.total_chunks {
                result.deleted_regions = 1;
            }
            result
        },
        Err(_) => {
            result.deleted_regions = 1;
            result
        },
    }
}

} // verus!
