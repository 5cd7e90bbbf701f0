//! Two-way merge of adjacent segments through scratch buffers.

use vstd::prelude::*;
use crate::lemmas::{lemma_merged_multiset, lemma_merged_sorted, lemma_sorted_window, lemma_window_multiset};
use crate::model::{merged, same_outside, sorted_between};

verus! {

/// Copies the positions `lo..hi` of `arr` into a fresh buffer of exactly that length.
fn copy_segment(arr: &[i32], lo: usize, hi: usize) -> (buf: Vec<i32>)
    requires
        lo <= hi <= arr@.len(),
    ensures
        buf@ == arr@.subrange(lo as int, hi as int),
{
    let mut buf: Vec<i32> = Vec::with_capacity(hi - lo);
    let mut t: usize = lo;
    while t < hi
        invariant
            lo <= t <= hi <= arr@.len(),
            buf@ == arr@.subrange(lo as int, t as int),
        decreases hi - t,
    {
        buf.push(arr[t]);
        t += 1;
    }
    buf
}

/// Merges the adjacent segments `left..=mid` and `mid + 1..=right` of `arr` into
/// the range `left..=right`.
///
/// Both segments are first copied into scratch buffers. The fronts of the two
/// buffers are then compared with `<=` on the left one, so that on a tie the
/// element of the left segment is written first. An empty right segment
/// (`mid == right`) leaves the range as it was.
pub fn merge_sort(arr: &mut [i32], left: usize, mid: usize, right: usize)
    requires
        left <= mid <= right < old(arr)@.len(),
    ensures
        same_outside(final(arr)@, old(arr)@, left as int, right + 1),
        final(arr)@.subrange(left as int, right + 1) == merged(
            old(arr)@.subrange(left as int, mid + 1),
            old(arr)@.subrange(mid + 1, right + 1),
        ),
        final(arr)@.to_multiset() == old(arr)@.to_multiset(),
        sorted_between(old(arr)@, left as int, mid + 1) && sorted_between(
            old(arr)@,
            mid + 1,
            right + 1,
        ) ==> sorted_between(final(arr)@, left as int, right + 1),
{
    proof {
        broadcast use vstd::slice::group_slice_axioms;
        assert(arr@.len() == arr.len());
    }
    let left_len = mid - left + 1;
    let right_len = right - mid;

    let left_arr = copy_segment(arr, left, mid + 1);
    let right_arr = copy_segment(arr, mid + 1, right + 1);
    let ghost l = left_arr@;
    let ghost r = right_arr@;

    let mut i: usize = 0;
    let mut j: usize = 0;
    let mut k: usize = left;
    proof {
        assert(l.skip(0) =~= l);
        assert(r.skip(0) =~= r);
        assert(arr@.subrange(left as int, left as int) + merged(l, r) =~= merged(l, r));
    }

    while i < left_len && j < right_len
        invariant
            i <= left_len == l.len(),
            j <= right_len == r.len(),
            k == left + i + j,
            left + left_len + right_len == right + 1,
            right < arr@.len(),
            left_arr@ == l,
            right_arr@ == r,
            same_outside(arr@, old(arr)@, left as int, right + 1),
            arr@.subrange(left as int, k as int) + merged(l.skip(i as int), r.skip(j as int))
                == merged(l, r),
        decreases left_len + right_len - i - j,
    {
        let ghost done = arr@.subrange(left as int, k as int);
        let ghost li = l.skip(i as int);
        let ghost rj = r.skip(j as int);
        if left_arr[i] <= right_arr[j] {
            arr[k] = left_arr[i];
            proof {
                assert(li.skip(1) =~= l.skip(i + 1));
                assert(arr@.subrange(left as int, k + 1) =~= done + seq![li[0]]);
                assert((done + seq![li[0]]) + merged(li.skip(1), rj) =~= done + (seq![li[0]]
                    + merged(li.skip(1), rj)));
            }
            i += 1;
        } else {
            arr[k] = right_arr[j];
            proof {
                assert(rj.skip(1) =~= r.skip(j + 1));
                assert(arr@.subrange(left as int, k + 1) =~= done + seq![rj[0]]);
                assert((done + seq![rj[0]]) + merged(li, rj.skip(1)) =~= done + (seq![rj[0]]
                    + merged(li, rj.skip(1))));
            }
            j += 1;
        }
        k += 1;
    }

    while i < left_len
        invariant
            i <= left_len == l.len(),
            j <= right_len == r.len(),
            i == left_len || j == right_len,
            k == left + i + j,
            left + left_len + right_len == right + 1,
            right < arr@.len(),
            left_arr@ == l,
            same_outside(arr@, old(arr)@, left as int, right + 1),
            arr@.subrange(left as int, k as int) + merged(l.skip(i as int), r.skip(j as int))
                == merged(l, r),
        decreases left_len - i,
    {
        let ghost done = arr@.subrange(left as int, k as int);
        let ghost li = l.skip(i as int);
        arr[k] = left_arr[i];
        proof {
            assert(li.skip(1) =~= l.skip(i + 1));
            assert(merged(li, r.skip(j as int)) =~= seq![li[0]] + li.skip(1));
            assert(merged(li.skip(1), r.skip(j as int)) =~= li.skip(1));
            assert(arr@.subrange(left as int, k + 1) =~= done + seq![li[0]]);
            assert((done + seq![li[0]]) + li.skip(1) =~= done + (seq![li[0]] + li.skip(1)));
        }
        i += 1;
        k += 1;
    }

    while j < right_len
        invariant
            i == left_len == l.len(),
            j <= right_len == r.len(),
            k == left + i + j,
            left + left_len + right_len == right + 1,
            right < arr@.len(),
            right_arr@ == r,
            same_outside(arr@, old(arr)@, left as int, right + 1),
            arr@.subrange(left as int, k as int) + merged(l.skip(i as int), r.skip(j as int))
                == merged(l, r),
        decreases right_len - j,
    {
        let ghost done = arr@.subrange(left as int, k as int);
        let ghost rj = r.skip(j as int);
        arr[k] = right_arr[j];
        proof {
            assert(rj.skip(1) =~= r.skip(j + 1));
            assert(merged(l.skip(i as int), rj) =~= seq![rj[0]] + rj.skip(1));
            assert(merged(l.skip(i as int), rj.skip(1)) =~= rj.skip(1));
            assert(arr@.subrange(left as int, k + 1) =~= done + seq![rj[0]]);
            assert((done + seq![rj[0]]) + rj.skip(1) =~= done + (seq![rj[0]] + rj.skip(1)));
        }
        j += 1;
        k += 1;
    }

    proof {
        let before = old(arr)@;
        let window = arr@.subrange(left as int, right + 1);
        assert(window + merged(l.skip(i as int), r.skip(j as int)) =~= window);
        assert(before.subrange(left as int, right + 1) =~= l + r);
        lemma_merged_multiset(l, r);
        vstd::seq_lib::lemma_multiset_commutative(l, r);
        lemma_window_multiset(arr@, before, left as int, right + 1);
        if sorted_between(before, left as int, mid + 1) && sorted_between(
            before,
            mid + 1,
            right + 1,
        ) {
            lemma_sorted_window(before, left as int, mid + 1);
            lemma_sorted_window(before, mid + 1, right + 1);
            lemma_merged_sorted(l, r);
            lemma_sorted_window(arr@, left as int, right + 1);
        }
    }
}

} // verus!
