//! The sequential schedule: sort the runs, then merge them in passes of
//! doubling width until one sorted run covers the slice.

use vstd::prelude::*;
use crate::lemmas::{
    lemma_doubled, lemma_mul_steps, lemma_single_run, lemma_sorted_unique,
};
use crate::merger::merge_sort;
use crate::laws::lemma_sort_is_stable;
use crate::model::{chunk, is_sort_of, passes_needed, runs_sorted, sorted, stable_arrangement};
use crate::run_sorter::insertion_sort;
use crate::step::{chunkwise, lemma_merge_pass_effect, lemma_sort_runs_effect, Step};

verus! {

/// The default run length.
pub const RUN: usize = 32;

/// The run-sort pass: sorts every chunk of `run` elements by insertion, the
/// last chunk being shorter where `run` does not divide the length.
pub fn sort_runs(arr: &mut [i32], run: usize)
    requires
        run > 0,
    ensures
        chunkwise(Step::SortRun, run as int, old(arr)@, final(arr)@),
{
    let len = arr.len();
    let mut i: usize = 0;
    let ghost mut k: int = 0;
    while i < len
        invariant
            run > 0,
            len == arr@.len() == old(arr)@.len(),
            i <= len,
            0 <= k,
            i < len ==> i == k * run,
            i == len ==> k * run >= len,
            forall|c: int|
                0 <= c < k && c * run < len ==> Step::SortRun.settles(
                    chunk(old(arr)@, run as int, c),
                    #[trigger] chunk(arr@, run as int, c),
                ),
            forall|p: int| i <= p < len ==> arr@[p] == old(arr)@[p],
        decreases len - i,
    {
        let last = len - i <= run;
        let end = if last {
            len - 1
        } else {
            i + run - 1
        };
        let ghost prev = arr@;
        insertion_sort(arr, i, end);
        proof {
            let n = run as int;
            lemma_mul_steps(k, k, n);
            assert forall|c: int| 0 <= c < k + 1 && c * n < len implies Step::SortRun.settles(
                chunk(old(arr)@, n, c),
                #[trigger] chunk(arr@, n, c),
            ) by {
                lemma_mul_steps(c, k, n);
                if c < k {
                    assert(chunk(arr@, n, c) =~= chunk(prev, n, c));
                } else {
                    assert(chunk(prev, n, c) =~= chunk(old(arr)@, n, c));
                }
            }
            k = k + 1;
        }
        if last {
            i = len;
        } else {
            i += run;
        }
    }
    proof {
        let n = run as int;
        assert forall|c: int| 0 <= c && c * n < len implies Step::SortRun.settles(
            chunk(old(arr)@, n, c),
            #[trigger] chunk(arr@, n, c),
        ) by {
            lemma_mul_steps(c, k, n);
        }
    }
}

/// One merge pass: in every chunk of `2 * size` elements, merges the first
/// `size` elements with those that follow them. A chunk of at most `size`
/// elements has nothing to be merged with and stays as it is.
pub fn merge_pass(arr: &mut [i32], size: usize)
    requires
        size > 0,
    ensures
        chunkwise(Step::Merge { size }, 2 * size, old(arr)@, final(arr)@),
{
    let len = arr.len();
    let mut left: usize = 0;
    let ghost mut k: int = 0;
    let ghost n: int = 2 * size;
    let ghost step = Step::Merge { size };
    while left < len
        invariant
            size > 0,
            n == 2 * size,
            step == (Step::Merge { size }),
            len == arr@.len() == old(arr)@.len(),
            left <= len,
            0 <= k,
            left < len ==> left == k * n,
            left == len ==> k * n >= len,
            forall|c: int|
                0 <= c < k && c * n < len ==> step.settles(
                    chunk(old(arr)@, n, c),
                    #[trigger] chunk(arr@, n, c),
                ),
            forall|p: int| left <= p < len ==> arr@[p] == old(arr)@[p],
        decreases len - left,
    {
        let rest = len - left;
        let mid = if rest <= size {
            len - 1
        } else {
            left + size - 1
        };
        let last = rest <= size || rest - size <= size;
        let right = if last {
            len - 1
        } else {
            left + size + size - 1
        };
        let ghost prev = arr@;
        merge_sort(arr, left, mid, right);
        proof {
            lemma_mul_steps(k, k, n);
            assert forall|c: int| 0 <= c < k + 1 && c * n < len implies step.settles(
                chunk(old(arr)@, n, c),
                #[trigger] chunk(arr@, n, c),
            ) by {
                lemma_mul_steps(c, k, n);
                if c < k {
                    assert(chunk(arr@, n, c) =~= chunk(prev, n, c));
                } else {
                    let whole = chunk(old(arr)@, n, c);
                    assert(chunk(prev, n, c) =~= whole);
                    assert(prev.subrange(left as int, mid + 1) =~= whole.take(mid + 1 - left));
                    assert(prev.subrange(mid + 1, right + 1) =~= whole.skip(mid + 1 - left));
                }
            }
            k = k + 1;
        }
        if last {
            left = len;
        } else {
            left = right + 1;
        }
    }
    proof {
        assert forall|c: int| 0 <= c && c * n < len implies step.settles(
            chunk(old(arr)@, n, c),
            #[trigger] chunk(arr@, n, c),
        ) by {
            lemma_mul_steps(c, k, n);
        }
    }
}

/// Runs merge passes on a slice made of runs of `run` elements, the width
/// doubling from `run` with each pass, until one run covers the slice.
/// Returns the number of passes it ran.
pub fn merge_runs(arr: &mut [i32], run: usize) -> (passes: usize)
    requires
        run > 0,
    ensures
        passes == passes_needed(old(arr)@.len() as int, run as int),
        final(arr)@.to_multiset() == old(arr)@.to_multiset(),
        runs_sorted(old(arr)@, run as int) ==> is_sort_of(final(arr)@, old(arr)@),
{
    let len = arr.len();
    let mut size: usize = run;
    let mut passes: usize = 0;
    while size < len
        invariant
            0 < size,
            passes < size,
            len == arr@.len() == old(arr)@.len(),
            passes + passes_needed(len as int, size as int) == passes_needed(
                len as int,
                run as int,
            ),
            arr@.to_multiset() == old(arr)@.to_multiset(),
            runs_sorted(old(arr)@, run as int) ==> runs_sorted(arr@, size as int),
        decreases
                if size < len {
                    len - size
                } else {
                    0
                },
    {
        let ghost prev = arr@;
        merge_pass(arr, size);
        passes += 1;
        proof {
            lemma_merge_pass_effect(size, prev, arr@);
            lemma_doubled(len as int, size as int, arr@);
        }
        size = size.saturating_add(size);
    }
    proof {
        lemma_single_run(arr@, size as int);
    }
    passes
}

/// Sorts `arr` in place, with runs of `run` elements: the runs are sorted by
/// insertion and then merged in passes of doubling width.
pub fn tim_sort_with_run(arr: &mut [i32], run: usize)
    requires
        run > 0,
    ensures
        is_sort_of(final(arr)@, old(arr)@),
        final(arr)@.len() == old(arr)@.len(),
        sorted(old(arr)@) ==> final(arr)@ == old(arr)@,
        exists|from: Seq<int>| stable_arrangement(old(arr)@, final(arr)@, from),
{
    let ghost before = arr@;
    sort_runs(arr, run);
    proof {
        lemma_sort_runs_effect(run as int, before, arr@);
    }
    merge_runs(arr, run);
    proof {
        vstd::seq_lib::to_multiset_len(arr@);
        vstd::seq_lib::to_multiset_len(before);
        if sorted(before) {
            lemma_sorted_unique(arr@, before);
        }
        lemma_sort_is_stable(before, arr@);
    }
}

/// Sorts `arr` in place, with runs of [`RUN`] elements.
pub fn tim_sort(arr: &mut [i32])
    ensures
        is_sort_of(final(arr)@, old(arr)@),
        final(arr)@.len() == old(arr)@.len(),
        sorted(old(arr)@) ==> final(arr)@ == old(arr)@,
        exists|from: Seq<int>| stable_arrangement(old(arr)@, final(arr)@, from),
{
    tim_sort_with_run(arr, RUN);
}

} // verus!
