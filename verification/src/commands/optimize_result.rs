//! The counts that a run adds up.

use vstd::prelude::*;

verus! {

/// What a run did, or would do: the chunks it looked at, the chunks it
/// deleted, the region files it deleted.
#[derive(Debug, Clone, Copy, PartialEq, Eq, Structural)]
pub struct OptimizeResult {
    pub total_chunks: usize,
    pub deleted_chunks: usize,
    pub deleted_regions: usize,
}

/// Counts as mathematical values, without an upper bound.
pub struct Counts {
    pub total_chunks: nat,
    pub deleted_chunks: nat,
    pub deleted_regions: nat,
}

impl View for OptimizeResult {
    type V = Counts;

    open spec fn view(&self) -> Counts {
        Counts {
            total_chunks: self.total_chunks as nat,
            deleted_chunks: self.deleted_chunks as nat,
            deleted_regions: self.deleted_regions as nat,
        }
    }
}

/// No chunk looked at, nothing deleted.
pub open spec fn zero() -> Counts {
    Counts { total_chunks: 0, deleted_chunks: 0, deleted_regions: 0 }
}

/// The counts of two runs together: field by field, their sum.
pub open spec fn merged(a: Counts, b: Counts) -> Counts {
    Counts {
        total_chunks: a.total_chunks + b.total_chunks,
        deleted_chunks: a.deleted_chunks + b.deleted_chunks,
        deleted_regions: a.deleted_regions + b.deleted_regions,
    }
}

/// The counts of all of `results` together.
pub open spec fn sum(results: Seq<OptimizeResult>) -> Counts
    decreases results.len(),
{
    if results.len() == 0 {
        zero()
    } else {
        merged(sum(results.drop_last()), results.last()@)
    }
}

/// Whether counts fit the numbers of this machine.
pub open spec fn fits(c: Counts) -> bool {
    &&& c.total_chunks <= usize::MAX
    &&& c.deleted_chunks <= usize::MAX
    &&& c.deleted_regions <= usize::MAX
}

/// Merging is commutative.
pub proof fn lemma_merged_commutative(a: Counts, b: Counts)
    ensures
        merged(a, b) == merged(b, a),
{
}

/// Merging is associative.
pub proof fn lemma_merged_associative(a: Counts, b: Counts, c: Counts)
    ensures
        merged(merged(a, b), c) == merged(a, merged(b, c)),
{
}

/// Merging with nothing changes nothing.
pub proof fn lemma_merged_identity(a: Counts)
    ensures
        merged(a, zero()) == a,
        merged(zero(), a) == a,
{
}

/// A part of the results never counts more than all of them.
pub proof fn lemma_sum_grows(results: Seq<OptimizeResult>, n: int)
    requires
        0 <= n <= results.len(),
    ensures
        sum(results.take(n)).total_chunks <= sum(results).total_chunks,
        sum(results.take(n)).deleted_chunks <= sum(results).deleted_chunks,
        sum(results.take(n)).deleted_regions <= sum(results).deleted_regions,
    decreases results.len() - n,
{
    if n < results.len() {
        lemma_sum_grows(results, n + 1);
        assert(results.take(n + 1).drop_last() =~= results.take(n));
    } else {
        assert(results.take(n) =~= results);
    }
}

impl Default for OptimizeResult {
    fn default() -> (result: OptimizeResult)
        ensures
            result@ == zero(),
    {
        OptimizeResult { total_chunks: 0, deleted_chunks: 0, deleted_regions: 0 }
    }
}

impl OptimizeResult {
    /// The counts of this run and of `other` together.
    pub fn merge(&self, other: &OptimizeResult) -> (result: OptimizeResult)
        requires
            fits(merged(self@, other@)),
        ensures
            result@ == merged(self@, other@),
    {
        OptimizeResult {
            total_chunks: self.total_chunks + other.total_chunks,
            deleted_chunks: self.deleted_chunks + other.deleted_chunks,
            deleted_regions: self.deleted_regions + other.deleted_regions,
        }
    }
}

/// The counts of all of `results` together.
pub fn reduce_optimize_results(results: &[OptimizeResult]) -> (result: OptimizeResult)
    requires
        fits(sum(results@)),
    ensures
        result@ == sum(results@),
{
    let mut result = OptimizeResult { total_chunks: 0, deleted_chunks: 0, deleted_regions: 0 };
    let mut i: usize = 0;
    assert(results@.take(0) =~= Seq::<OptimizeResult>::empty());
    while i < results.len()
        invariant
            i <= results.len(),
            fits(sum(results@)),
            result@ == sum(results@.take(i as int)),
        decreases results.len() - i,
    {
        proof {
            lemma_sum_grows(results@, i + 1);
            assert(results@.take(i + 1).drop_last() =~= results@.take(i as int));
            assert(results@.take(i + 1).last() == results@[i as int]);
        }
        result = result.merge(&results[i]);
        i += 1;
    }
    assert(results@.take(i as int) =~= results@);
    result
}

} // verus!
