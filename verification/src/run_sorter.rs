//! Insertion sort of one run.

use vstd::prelude::*;
use crate::lemmas::{lemma_sorted_window, lemma_window_multiset};
use crate::model::{is_sort_of, same_outside, sorted_between};

verus! {

/// Sorts the inclusive range `left..=right` of `arr` in place by insertion.
///
/// Each element is held aside while every strictly greater predecessor inside
/// the range moves one place to the right; equal elements never pass each other.
pub fn insertion_sort(arr: &mut [i32], left: usize, right: usize)
    requires
        left <= right < old(arr)@.len(),
    ensures
        same_outside(final(arr)@, old(arr)@, left as int, right + 1),
        is_sort_of(
            final(arr)@.subrange(left as int, right + 1),
            old(arr)@.subrange(left as int, right + 1),
        ),
        sorted_between(final(arr)@, left as int, right + 1),
        final(arr)@.to_multiset() == old(arr)@.to_multiset(),
{
    proof {
        broadcast use vstd::slice::group_slice_axioms;
        assert(arr@.len() == arr.len());
    }
    let mut i: usize = left + 1;
    while i <= right
        invariant
            left < i <= right + 1,
            right < arr@.len(),
            same_outside(arr@, old(arr)@, left as int, right + 1),
            sorted_between(arr@, left as int, i as int),
            arr@.to_multiset() == old(arr)@.to_multiset(),
        decreases right + 1 - i,
    {
        let temp = arr[i];
        let mut j: usize = i;
        let ghost before = arr@;
        while j > left && arr[j - 1] > temp
            invariant
                left <= j <= i <= right < arr@.len(),
                arr@.len() == before.len(),
                temp == before[i as int],
                forall|k: int| 0 <= k < arr@.len() && (k <= j || k > i) ==> arr@[k] == before[k],
                forall|k: int| j < k <= i ==> arr@[k] == before[k - 1] && temp < arr@[k],
            decreases j,
        {
            arr[j] = arr[j - 1];
            j -= 1;
        }
        arr[j] = temp;
        proof {
            assert(arr@ =~= before.remove(i as int).insert(j as int, temp));
            vstd::seq_lib::to_multiset_remove(before, i as int);
            vstd::seq_lib::to_multiset_insert(before.remove(i as int), j as int, temp);
            assert(before.to_multiset().count(temp) > 0) by {
                vstd::seq_lib::to_multiset_contains(before, temp);
                assert(before.contains(temp));
            }
            assert(arr@.to_multiset() =~= before.to_multiset());
        }
        i += 1;
    }
    proof {
        lemma_window_multiset(arr@, old(arr)@, left as int, right + 1);
        lemma_sorted_window(arr@, left as int, right + 1);
    }
}

} // verus!
