//! Removing several chunks of a region by their indices, highest index
//! first, and what is left of the region then.

use crate::region_loader::chunk_loader::chunk::{position, ChunkView};
use crate::region_loader::region::{first_at, Region};
use vstd::prelude::*;

verus! {

/// The items of `s` among the first `n` whose index is not in `removed`, in
/// their order.
pub open spec fn without<T>(s: Seq<T>, removed: Set<int>, n: int) -> Seq<T>
    decreases n,
{
    if n <= 0 {
        Seq::empty()
    } else if removed.contains(n - 1) {
        without(s, removed, n - 1)
    } else {
        without(s, removed, n - 1).push(s[n - 1])
    }
}

/// The indices that `indices` lists from its place `from` on.
pub open spec fn listed(indices: Seq<usize>, from: int) -> Set<int> {
    Set::new(|i: int| exists|j: int| from <= j < indices.len() && indices[j] == i)
}

/// Whether `indices` rise strictly and stay below `n`.
pub open spec fn rising_below(indices: Seq<usize>, n: int) -> bool {
    &&& forall|j: int, k: int| 0 <= j < k < indices.len() ==> indices[j] < indices[k]
    &&& forall|j: int| 0 <= j < indices.len() ==> indices[j] < n
}

/// With one more index at its end, a list lists that index too.
pub proof fn lemma_listed_push(indices: Seq<usize>, index: usize)
    ensures
        listed(indices.push(index), 0) == listed(indices, 0).insert(index as int),
{
    let longer = indices.push(index);
    assert forall|i: int| listed(longer, 0).contains(i) implies listed(indices, 0).insert(
        index as int,
    ).contains(i) by {
        let j = choose|j: int| 0 <= j < longer.len() && longer[j] == i;
        if j < indices.len() {
            assert(0 <= j < indices.len() && indices[j] == i);
        }
    }
    assert forall|i: int| listed(indices, 0).insert(index as int).contains(i) implies listed(
        longer,
        0,
    ).contains(i) by {
        if i == index {
            assert(0 <= indices.len() < longer.len() && longer[indices.len() as int] == i);
        } else {
            let j = choose|j: int| 0 <= j < indices.len() && indices[j] == i;
            assert(0 <= j < longer.len() && longer[j] == i);
        }
    }
    assert(listed(longer, 0) =~= listed(indices, 0).insert(index as int));
}

/// A list of indices below `n` lists no index from `n` on.
pub proof fn lemma_listed_below(indices: Seq<usize>, n: int, i: int)
    requires
        rising_below(indices, n),
        i >= n,
    ensures
        !listed(indices, 0).contains(i),
{
    if listed(indices, 0).contains(i) {
        let j = choose|j: int| 0 <= j < indices.len() && indices[j] == i;
        assert(indices[j] < n);
    }
}

/// What is left depends only on which of the first `n` indices are removed.

pub proof fn lemma_without_agrees<T>(s: Seq<T>, a: Set<int>, b: Set<int>, n: int)
    requires
        forall|i: int| 0 <= i < n ==> (a.contains(i) <==> b.contains(i)),
    ensures
        without(s, a, n) == without(s, b, n),
    decreases n,
{
    if n > 0 {
        lemma_without_agrees(s, a, b, n - 1);
    }
}

/// Where none of the first `n` indices is removed, the first `n` items are
/// left as they are.
pub proof fn lemma_without_untouched<T>(s: Seq<T>, removed: Set<int>, n: int)
    requires
        0 <= n <= s.len(),
        forall|i: int| 0 <= i < n ==> !removed.contains(i),
    ensures
        without(s, removed, n) == s.take(n),
    decreases n,
{
    if n > 0 {
        lemma_without_untouched(s, removed, n - 1);
        assert(s.take(n - 1).push(s[n - 1]) =~= s.take(n));
    } else {
        assert(s.take(n) =~= Seq::<T>::empty());
    }
}

/// What is left of the first `m` items stands at the front of what is left
/// of the first `n`, and each item that is left was at an index below `n`
/// that is not removed.
pub proof fn lemma_without_prefix<T>(s: Seq<T>, removed: Set<int>, m: int, n: int)
    requires
        0 <= m <= n,
    ensures
        without(s, removed, m).len() <= without(s, removed, n).len() <= n,
        without(s, removed, n).take(without(s, removed, m).len() as int) == without(
            s,
            removed,
            m,
        ),
        forall|j: int|
            0 <= j < without(s, removed, n).len() ==> exists|i: int|
                0 <= i < n && !removed.contains(i) && s[i] == #[trigger] without(s, removed, n)[j],
    decreases n - m, n,
{
    let whole = without(s, removed, n);
    if n == 0 {
        assert(whole.take(0) =~= without(s, removed, m));
    } else {
        let before = without(s, removed, n - 1);
        lemma_without_prefix(s, removed, n - 1, n - 1);
        assert forall|j: int| 0 <= j < whole.len() implies exists|i: int|
            0 <= i < n && !removed.contains(i) && s[i] == #[trigger] whole[j] by {
            if j < before.len() {
                let i = choose|i: int|
                    0 <= i < n - 1 && !removed.contains(i) && s[i] == before[j];
                assert(0 <= i < n && !removed.contains(i) && s[i] == whole[j]);
            } else {
                assert(0 <= n - 1 < n && !removed.contains(n - 1) && s[n - 1] == whole[j]);
            }
        }
        if m == n {
            assert(whole.take(whole.len() as int) =~= whole);
        } else {
            lemma_without_prefix(s, removed, m, n - 1);
            assert(whole.take(without(s, removed, m).len() as int) =~= before.take(
                without(s, removed, m).len() as int,
            ));
        }
    }
}

/// Removing one more index `t`, below all that are removed already, takes
/// the item at `t` out of what is left.
pub proof fn lemma_without_step<T>(s: Seq<T>, removed: Set<int>, t: int, n: int)
    requires
        0 <= t < n <= s.len(),
        forall|i: int| 0 <= i <= t ==> !removed.contains(i),
    ensures
        without(s, removed, n).len() > t,
        without(s, removed.insert(t), n) == without(s, removed, n).remove(t),
    decreases n,
{
    if n == t + 1 {
        lemma_without_untouched(s, removed, t + 1);
        lemma_without_untouched(s, removed, t);
        lemma_without_agrees(s, removed.insert(t), removed, t);
        assert(s.take(t + 1).remove(t) =~= s.take(t));
    } else {
        lemma_without_step(s, removed, t, n - 1);
        let before = without(s, removed, n - 1);
        if !removed.contains(n - 1) {
            assert(before.remove(t).push(s[n - 1]) =~= before.push(s[n - 1]).remove(t));
        }
    }
}

/// Removing `M` indices out of `N` leaves `N - M` items.
pub proof fn lemma_without_len<T>(s: Seq<T>, indices: Seq<usize>, n: int)
    requires
        0 <= n,
        rising_below(indices, n),
    ensures
        without(s, listed(indices, 0), n).len() == n - indices.len(),
    decreases n,
{
    let removed = listed(indices, 0);
    if n == 0 {
        if indices.len() > 0 {
            assert(indices[0] < 0);
        }
    } else if indices.len() > 0 && indices.last() == n - 1 {
        let fewer = indices.drop_last();
        assert(removed.contains(n - 1)) by {
            assert(indices[indices.len() - 1] == n - 1);
        }
        assert forall|i: int| 0 <= i < n - 1 implies (removed.contains(i) <==> listed(
            fewer,
            0,
        ).contains(i)) by {
            if removed.contains(i) {
                let j = choose|j: int| 0 <= j < indices.len() && indices[j] == i;
                assert(0 <= j < fewer.len() && fewer[j] == i);
            }
            if listed(fewer, 0).contains(i) {
                let j = choose|j: int| 0 <= j < fewer.len() && fewer[j] == i;
                assert(0 <= j < indices.len() && indices[j] == i);
            }
        }
        lemma_without_agrees(s, removed, listed(fewer, 0), n - 1);
        assert(rising_below(fewer, n - 1)) by {
            assert forall|j: int| 0 <= j < fewer.len() implies fewer[j] < n - 1 by {
                assert(indices[j] < indices[indices.len() - 1]);
            }
        }
        lemma_without_len(s, fewer, n - 1);
    } else {
        assert(!removed.contains(n - 1)) by {
            if removed.contains(n - 1) {
                let j = choose|j: int| 0 <= j < indices.len() && indices[j] == n - 1;
                if j < indices.len() - 1 {
                    assert(indices[j] < indices[indices.len() - 1]);
                }
            }
        }
        assert(rising_below(indices, n - 1)) by {
            assert forall|j: int| 0 <= j < indices.len() implies indices[j] < n - 1 by {
                if indices[j] == n - 1 {
                    if j < indices.len() - 1 {
                        assert(indices[j] < indices[indices.len() - 1]);
                    }
                }
            }
        }
        lemma_without_len(s, indices, n - 1);
    }
}

/// `first_at` gives the first chunk at `(x, z)` from `from` on.
pub proof fn lemma_first_at(chunks: Seq<ChunkView>, x: i32, z: i32, from: int)
    requires
        0 <= from,
    ensures
        match first_at(chunks, x, z, from) {
            Some(i) => {
                &&& from <= i < chunks.len()
                &&& position(chunks[i]) == Some((x, z))
                &&& forall|j: int| from <= j < i ==> position(#[trigger] chunks[j]) != Some((x, z))
            },
            None => forall|j: int|
                from <= j < chunks.len() ==> position(#[trigger] chunks[j]) != Some((x, z)),
        },
    decreases chunks.len() - from,
{
    if from < chunks.len() && position(chunks[from]) != Some((x, z)) {
        lemma_first_at(chunks, x, z, from + 1);
    }
}

/// The first chunk at `(x, z)` is the one at `i` where that one is at
/// `(x, z)` and none before it is.
pub proof fn lemma_first_at_found(chunks: Seq<ChunkView>, x: i32, z: i32, from: int, i: int)
    requires
        0 <= from <= i < chunks.len(),
        position(chunks[i]) == Some((x, z)),
        forall|j: int| from <= j < i ==> position(#[trigger] chunks[j]) != Some((x, z)),
    ensures
        first_at(chunks, x, z, from) == Some(i),
    decreases i - from,
{
    if from < i {
        assert(position(chunks[from]) != Some((x, z)));
        lemma_first_at_found(chunks, x, z, from + 1, i);
    }
}

/// Index safety. After `M` of the `N` chunks were removed, `N - M` are left;
/// and a chunk that was found by its position and was not removed is found by
/// that position as before.
pub proof fn lemma_removal_keeps_addresses(
    chunks: Seq<ChunkView>,
    indices: Seq<usize>,
    x: i32,
    z: i32,
)
    requires
        rising_below(indices, chunks.len() as int),
    ensures
        without(chunks, listed(indices, 0), chunks.len() as int).len() == chunks.len()
            - indices.len(),
        first_at(chunks, x, z, 0) is Some && !listed(indices, 0).contains(
            first_at(chunks, x, z, 0).unwrap(),
        ) ==> {
            let left = without(chunks, listed(indices, 0), chunks.len() as int);
            &&& first_at(left, x, z, 0) is Some
            &&& left[first_at(left, x, z, 0).unwrap()] == chunks[first_at(chunks, x, z, 0).unwrap()]
        },
{
    let n = chunks.len() as int;
    let removed = listed(indices, 0);
    let left = without(chunks, removed, n);
    lemma_without_len(chunks, indices, n);
    lemma_first_at(chunks, x, z, 0);
    match first_at(chunks, x, z, 0) {
        Some(i) => {
            if !removed.contains(i) {
                let front = without(chunks, removed, i);
                let upto = without(chunks, removed, i + 1);
                let j = front.len() as int;
                lemma_without_prefix(chunks, removed, i + 1, n);
                lemma_without_prefix(chunks, removed, i, i);
                lemma_without_prefix(chunks, removed, i, i + 1);
                assert(upto == front.push(chunks[i]));
                assert(left.take(upto.len() as int)[j] == upto[j]);
                assert(left[j] == chunks[i]);
                assert forall|k: int| 0 <= k < j implies position(#[trigger] left[k]) != Some(
                    (x, z),
                ) by {
                    assert(left.take(upto.len() as int)[k] == upto[k]);
                    assert(upto[k] == front[k]);
                    let from = choose|from: int|
                        0 <= from < i && !removed.contains(from) && chunks[from] == front[k];
                    assert(position(chunks[from]) != Some((x, z)));
                }
                lemma_first_at_found(left, x, z, 0, j);
            }
        },
        None => {},
    }
}

impl Region {
    /// Removes the chunks at `indices`, the highest index first, so that each
    /// index still names its chunk when its turn comes.
    pub fn remove_chunks_by_indices(&mut self, indices: &Vec<usize>)
        requires
            rising_below(indices@, old(self)@.chunks.len() as int),
        ensures
            final(self)@.chunks == without(
                old(self)@.chunks,
                listed(indices@, 0),
                old(self)@.chunks.len() as int,
            ),
            final(self)@.chunks.len() == old(self)@.chunks.len() - indices.len(),
            final(self)@.is_modified == (old(self)@.is_modified || indices.len() > 0),
            old(self).wf() ==> final(self).wf(),
    {
        let ghost all = self@.chunks;
        let ghost n = all.len() as int;
        let mut k: usize = indices.len();
        proof {
            assert forall|i: int| 0 <= i < n implies !listed(indices@, k as int).contains(i) by {}
            lemma_without_untouched(all, listed(indices@, k as int), n);
            assert(all.take(n) =~= all);
        }
        while k > 0
            invariant
                k <= indices.len(),
                n == all.len(),
                rising_below(indices@, n),
                self@.chunks == without(all, listed(indices@, k as int), n),
                self@.is_modified == (old(self)@.is_modified || k < indices.len()),
                old(self).wf() ==> self.wf(),
            decreases k,
        {
            k -= 1;
            let index = indices[k];
            proof {
                let removed = listed(indices@, k + 1);
                assert forall|i: int| 0 <= i <= index implies !removed.contains(i) by {
                    if removed.contains(i) {
                        let j = choose|j: int| k + 1 <= j < indices.len() && indices[j] == i;
                        assert(indices@[k as int] < indices@[j]);
                    }
                }
                lemma_without_step(all, removed, index as int, n);
                assert(removed.insert(index as int) =~= listed(indices@, k as int)) by {
                    assert forall|i: int| removed.insert(index as int).contains(i) implies listed(
                        indices@,
                        k as int,
                    ).contains(i) by {
                        if i == index {
                            assert(k <= k < indices.len() && indices@[k as int] == i);
                        } else {
                            let j = choose|j: int| k + 1 <= j < indices.len() && indices[j] == i;
                            assert(k <= j < indices.len() && indices@[j] == i);
                        }
                    }
                    assert forall|i: int|
                        listed(indices@, k as int).contains(i) implies removed.insert(
                        index as int,
                    ).contains(i) by {
                        let j = choose|j: int| k <= j < indices.len() && indices[j] == i;
                        if j > k {
                            assert(k + 1 <= j < indices.len() && indices@[j] == i);
                        }
                    }
                }
            }
            self.remove_chunk_by_index(index);
        }
        proof {
            lemma_without_len(all, indices@, n);
        }
    }
}

} // verus!
