//! The parallel schedule: the same passes as the sequential one, the chunks of
//! each pass handed to `rayon`'s worker pool and awaited before the next pass.

use rayon::iter::ParallelIterator;
use rayon::slice::ParallelSliceMut;
use vstd::prelude::*;
use crate::lemmas::{lemma_doubled, lemma_single_run, lemma_sorted_unique};
use crate::laws::lemma_sort_is_stable;
use crate::model::{is_sort_of, passes_needed, runs_sorted, sorted, stable_arrangement};
use crate::scheduler::RUN;
use crate::step::{
    chunkwise, lemma_chunkwise_single, lemma_merge_pass_effect, lemma_sort_runs_effect, Step,
};

verus! {

/// Cuts `arr` into chunks of `chunk_len` elements and applies `step` to every
/// chunk on `rayon`'s current worker pool, returning when all are done.
///
/// This is `rayon`'s `par_chunks_mut(chunk_len)` followed by `for_each`, and
/// its contract is taken on trust: `par_chunks_mut` yields the chunks of
/// `chunk_len` elements from the front of the slice, the last one shorter
/// where `chunk_len` does not divide the length, none overlapping another and
/// none empty; `for_each` runs the given operation once on each of them and
/// returns after the last has finished. A `chunk_len` of zero makes
/// `par_chunks_mut` panic, hence the precondition. What the operation does to
/// one chunk is the verified contract of [`Step::apply`].
#[verifier::external_body]
fn for_each_chunk(arr: &mut [i32], chunk_len: usize, step: Step)
    requires
        chunk_len > 0,
    ensures
        chunkwise(step, chunk_len as int, old(arr)@, final(arr)@),
{
    arr.par_chunks_mut(chunk_len).for_each(|chunk| step.apply(chunk));
}

/// The run-sort pass, every chunk of `run` elements sorted as a task of its own.
pub fn parallel_sort_runs(arr: &mut [i32], run: usize)
    requires
        run > 0,
    ensures
        chunkwise(Step::SortRun, run as int, old(arr)@, final(arr)@),
{
    for_each_chunk(arr, run, Step::SortRun);
}

/// One merge pass, every chunk of `2 * size` elements merged as a task of its
/// own. A chunk of at most `size` elements stays as it is.
pub fn parallel_merge_pass(arr: &mut [i32], size: usize)
    requires
        size > 0,
    ensures
        chunkwise(Step::Merge { size }, 2 * size, old(arr)@, final(arr)@),
{
    let ghost before = arr@;
    let chunk_len = size.saturating_add(size);
    for_each_chunk(arr, chunk_len, Step::Merge { size });
    proof {
        if chunk_len != 2 * size {
            broadcast use vstd::slice::group_slice_axioms;
            assert(before.len() == old(arr).len());
            lemma_chunkwise_single(Step::Merge { size }, chunk_len as int, 2 * size, before, arr@);
        }
    }
}

/// Runs parallel merge passes on a slice made of runs of `run` elements, the
/// width doubling from `run` with each pass, until one run covers the slice.
/// No pass begins before the one before it has ended. Returns the number of
/// passes it ran.
pub fn parallel_merge_runs(arr: &mut [i32], run: usize) -> (passes: usize)
    requires
        run > 0,
    ensures
        passes == passes_needed(old(arr)@.len() as int, run as int),
        final(arr)@.to_multiset() == old(arr)@.to_multiset(),
        runs_sorted(old(arr)@, run as int) ==> is_sort_of(final(arr)@, old(arr)@),
{
    let len = arr.len();
    let mut size: usize = run;
    let mut passes: usize = 0;
    while size < len
        invariant
            0 < size,
            passes < size,
            len == arr@.len() == old(arr)@.len(),
            passes + passes_needed(len as int, size as int) == passes_needed(
                len as int,
                run as int,
            ),
            arr@.to_multiset() == old(arr)@.to_multiset(),
            runs_sorted(old(arr)@, run as int) ==> runs_sorted(arr@, size as int),
        decreases
                if size < len {
                    len - size
                } else {
                    0
                },
    {
        let ghost prev = arr@;
        parallel_merge_pass(arr, size);
        passes += 1;
        proof {
            lemma_merge_pass_effect(size, prev, arr@);
            lemma_doubled(len as int, size as int, arr@);
        }
        size = size.saturating_add(size);
    }
    proof {
        lemma_single_run(arr@, size as int);
    }
    passes
}

/// Sorts `arr` in place on `rayon`'s current worker pool, with runs of `run`
/// elements. The outcome is that of [`tim_sort_with_run`](crate::scheduler::tim_sort_with_run).
pub fn parallel_tim_sort_with_run(arr: &mut [i32], run: usize)
    requires
        run > 0,
    ensures
        is_sort_of(final(arr)@, old(arr)@),
        final(arr)@.len() == old(arr)@.len(),
        sorted(old(arr)@) ==> final(arr)@ == old(arr)@,
        exists|from: Seq<int>| stable_arrangement(old(arr)@, final(arr)@, from),
{
    let ghost before = arr@;
    parallel_sort_runs(arr, run);
    proof {
        lemma_sort_runs_effect(run as int, before, arr@);
    }
    parallel_merge_runs(arr, run);
    proof {
        vstd::seq_lib::to_multiset_len(arr@);
        vstd::seq_lib::to_multiset_len(before);
        if sorted(before) {
            lemma_sorted_unique(arr@, before);
        }
        lemma_sort_is_stable(before, arr@);
    }
}

/// Sorts `arr` in place on `rayon`'s current worker pool, with runs of
/// [`RUN`] elements.
pub fn parallel_tim_sort(arr: &mut [i32])
    ensures
        is_sort_of(final(arr)@, old(arr)@),
        final(arr)@.len() == old(arr)@.len(),
        sorted(old(arr)@) ==> final(arr)@ == old(arr)@,
        exists|from: Seq<int>| stable_arrangement(old(arr)@, final(arr)@, from),
{
    parallel_tim_sort_with_run(arr, RUN);
}

} // verus!
