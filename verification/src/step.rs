//! What a pass does to one chunk of the slice, and what follows for the whole
//! slice once every chunk has been dealt with.

use vstd::prelude::*;
use crate::lemmas::{
    lemma_chunk_halves, lemma_chunks_multiset, lemma_merged_multiset, lemma_merged_sorted,
    lemma_mul_steps,
};
use crate::merger::merge_sort;
use crate::model::{chunk, is_sort_of, merged, runs_sorted, sorted};
use crate::run_sorter::insertion_sort;

verus! {

/// What one pass does to one chunk of the slice.
#[derive(Clone, Copy, Debug)]
pub enum Step {
    /// Sort the chunk by insertion.
    SortRun,
    /// Merge the first `size` elements of the chunk with the rest of it.
    Merge { size: usize },
}

impl Step {
    /// `after` is what this step makes of a chunk that held `before`.
    pub open spec fn settles(self, before: Seq<i32>, after: Seq<i32>) -> bool {
        match self {
            Step::SortRun => is_sort_of(after, before),
            Step::Merge { size } => {
                let m = if size <= before.len() {
                    size as int
                } else {
                    before.len() as int
                };
                after == merged(before.take(m), before.skip(m))
            },
        }
    }

    /// Applies the step to `chunk`, taken as a slice of its own.
    ///
    /// A chunk that has no second part to merge (no more than `size` elements,
    /// or `size` zero) is left as it is, and so is an empty chunk.
    pub fn apply(self, chunk: &mut [i32])
        ensures
            final(chunk)@.len() == old(chunk)@.len(),
            self.settles(old(chunk)@, final(chunk)@),
    {
        let chunk_len = chunk.len();
        match self {
            Step::SortRun => {
                if chunk_len > 0 {
                    insertion_sort(chunk, 0, chunk_len - 1);
                    proof {
                        assert(chunk@.subrange(0, chunk_len as int) =~= chunk@);
                        assert(old(chunk)@.subrange(0, chunk_len as int) =~= old(chunk)@);
                    }
                }
            },
            Step::Merge { size } => {
                if size > 0 && chunk_len > size {
                    let mid = size - 1;
                    let right = chunk_len - 1;
                    merge_sort(chunk, 0, mid, right);
                    proof {
                        let before = old(chunk)@;
                        assert(chunk@.subrange(0, chunk_len as int) =~= chunk@);
                        assert(before.subrange(0, size as int) =~= before.take(size as int));
                        assert(before.subrange(size as int, chunk_len as int) =~= before.skip(
                            size as int,
                        ));
                    }
                } else {
                    proof {
                        let before = old(chunk)@;
                        let m = if size <= before.len() {
                            size as int
                        } else {
                            before.len() as int
                        };
                        if m == 0 {
                            assert(before.skip(0) =~= before);
                        } else {
                            assert(before.take(m) =~= before);
                        }
                        assert(merged(before.take(m), before.skip(m)) =~= before);
                    }
                }
            },
        }
    }
}

/// `after` is `before` with `step` applied to each of its chunks of `n` elements.
pub open spec fn chunkwise(step: Step, n: int, before: Seq<i32>, after: Seq<i32>) -> bool {
    &&& after.len() == before.len()
    &&& forall|k: int|
        0 <= k && k * n < before.len() ==> step.settles(
            chunk(before, n, k),
            #[trigger] chunk(after, n, k),
        )
}

/// After the run-sort pass the slice holds the values it held, and each of
/// its runs is sorted.
pub proof fn lemma_sort_runs_effect(n: int, before: Seq<i32>, after: Seq<i32>)
    requires
        n > 0,
        chunkwise(Step::SortRun, n, before, after),
    ensures
        after.to_multiset() == before.to_multiset(),
        runs_sorted(after, n),
{
    lemma_chunks_multiset(before, after, n);
}

/// After a merge pass the slice holds the values it held, and where its runs
/// of `size` elements were sorted, its runs of `2 * size` elements now are.
pub proof fn lemma_merge_pass_effect(size: usize, before: Seq<i32>, after: Seq<i32>)
    requires
        size > 0,
        chunkwise(Step::Merge { size }, 2 * size, before, after),
    ensures
        after.to_multiset() == before.to_multiset(),
        runs_sorted(before, size as int) ==> runs_sorted(after, 2 * size),
{
    let n: int = 2 * size;
    assert forall|k: int| 0 <= k && k * n < before.len() implies (#[trigger] chunk(
        after,
        n,
        k,
    )).to_multiset() == chunk(before, n, k).to_multiset() by {
        let whole = chunk(before, n, k);
        let m = if size <= whole.len() {
            size as int
        } else {
            whole.len() as int
        };
        lemma_merged_multiset(whole.take(m), whole.skip(m));
        assert(whole =~= whole.take(m) + whole.skip(m));
        vstd::seq_lib::lemma_multiset_commutative(whole.take(m), whole.skip(m));
    }
    lemma_chunks_multiset(before, after, n);
    if runs_sorted(before, size as int) {
        assert forall|k: int| 0 <= k && k * n < after.len() implies sorted(
            #[trigger] chunk(after, n, k),
        ) by {
            let whole = chunk(before, n, k);
            let m = if size <= whole.len() {
                size as int
            } else {
                whole.len() as int
            };
            lemma_chunk_halves(before, size as int, k);
            assert(sorted(chunk(before, size as int, 2 * k)));
            if whole.len() > size {
                assert(sorted(chunk(before, size as int, 2 * k + 1)));
            }
            lemma_merged_sorted(whole.take(m), whole.skip(m));
        }
    }
}

/// Where a single chunk covers the whole slice, its exact length is of no account.
pub proof fn lemma_chunkwise_single(step: Step, n: int, m: int, before: Seq<i32>, after: Seq<i32>)
    requires
        n >= before.len(),
        m >= before.len(),
        n > 0,
        m > 0,
        chunkwise(step, n, before, after),
    ensures
        chunkwise(step, m, before, after),
{
    assert forall|k: int| 0 <= k && k * m < before.len() implies step.settles(
        chunk(before, m, k),
        #[trigger] chunk(after, m, k),
    ) by {
        lemma_mul_steps(k, 1, m);
        assert(1 * m == m);
        assert(k == 0);
        assert(0 * n == 0);
        assert(0 * m == 0);
        assert(chunk(before, m, 0) =~= chunk(before, n, 0));
        assert(chunk(after, m, 0) =~= chunk(after, n, 0));
    }
}

} // verus!
