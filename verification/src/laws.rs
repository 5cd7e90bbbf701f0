//! Laws of sorting, stated over the relation in which the contracts of the
//! sorting functions are written.

use vstd::prelude::*;
use crate::lemmas::lemma_sorted_unique;
use crate::model::{is_sort_of, sorted, stable_arrangement};

verus! {

/// A slice has one sort only: whatever two sorting functions make of the same
/// input, the sequential and the parallel one among them, is the same.
pub proof fn lemma_sort_is_unique(inp: Seq<i32>, a: Seq<i32>, b: Seq<i32>)
    requires
        is_sort_of(a, inp),
        is_sort_of(b, inp),
    ensures
        a == b,
{
    lemma_sorted_unique(a, b);
}

/// Sorting what has been sorted changes nothing.
pub proof fn lemma_sort_is_idempotent(inp: Seq<i32>, once: Seq<i32>, twice: Seq<i32>)
    requires
        is_sort_of(once, inp),
        is_sort_of(twice, once),
    ensures
        twice == once,
{
    lemma_sorted_unique(twice, once);
}

/// The sort of a slice has the length of the slice.
pub proof fn lemma_sort_keeps_length(inp: Seq<i32>, out: Seq<i32>)
    requires
        is_sort_of(out, inp),
    ensures
        out.len() == inp.len(),
{
    vstd::seq_lib::to_multiset_len(out);
    vstd::seq_lib::to_multiset_len(inp);
}

/// The last position of `s` that holds `x`, or `-1` where none does.
pub open spec fn last_index_of(s: Seq<i32>, x: i32) -> int
    decreases s.len(),
{
    if s.len() == 0 {
        -1
    } else if s.last() == x {
        s.len() - 1
    } else {
        last_index_of(s.drop_last(), x)
    }
}

/// `last_index_of` finds a position that holds `x` where there is one, and no
/// later position holds `x`.
pub proof fn lemma_last_index_of(s: Seq<i32>, x: i32)
    ensures
        -1 <= last_index_of(s, x) < s.len(),
        s.contains(x) ==> 0 <= last_index_of(s, x) && s[last_index_of(s, x)] == x,
        forall|j: int| last_index_of(s, x) < j < s.len() ==> s[j] != x,
    decreases s.len(),
{
    if s.len() > 0 && s.last() != x {
        let front = s.drop_last();
        lemma_last_index_of(front, x);
        if s.contains(x) {
            let i = choose|i: int| 0 <= i < s.len() && s[i] == x;
            assert(front[i] == x);
        }
        assert forall|j: int| last_index_of(s, x) < j < s.len() implies s[j] != x by {
            if j < front.len() {
                assert(front[j] != x);
            }
        }
    }
}

/// Stability: the sort of a slice can be had from the slice by moving its
/// elements so that equal values keep the order in which they stood.
pub proof fn lemma_sort_is_stable(inp: Seq<i32>, out: Seq<i32>)
    requires
        is_sort_of(out, inp),
    ensures
        exists|from: Seq<int>| stable_arrangement(inp, out, from),
    decreases inp.len(),
{
    lemma_sort_keeps_length(inp, out);
    if inp.len() == 0 {
        assert(stable_arrangement(inp, out, Seq::<int>::empty()));
    } else {
        let n = inp.len() as int;
        let x = inp[n - 1];
        let shorter = inp.drop_last();
        assert(out.contains(x)) by {
            vstd::seq_lib::to_multiset_contains(inp, x);
            vstd::seq_lib::to_multiset_contains(out, x);
            assert(inp.contains(x));
        }
        lemma_last_index_of(out, x);
        let at = last_index_of(out, x);
        let rest = out.remove(at);
        assert(shorter =~= inp.remove(n - 1));
        vstd::seq_lib::to_multiset_remove(inp, n - 1);
        vstd::seq_lib::to_multiset_remove(out, at);
        assert(sorted(rest)) by {
            assert forall|i: int, j: int| 0 <= i <= j < rest.len() implies rest[i] <= rest[j] by {
                let oi = if i < at { i } else { i + 1 };
                let oj = if j < at { j } else { j + 1 };
                assert(out[oi] <= out[oj]);
            }
        }
        lemma_sort_is_stable(shorter, rest);
        let sub = choose|from: Seq<int>| stable_arrangement(shorter, rest, from);
        let from = sub.insert(at, n - 1);
        assert forall|i: int| 0 <= i < from.len() implies 0 <= #[trigger] from[i] < inp.len()
            && out[i] == inp[from[i]] by {
            if i < at {
                assert(from[i] == sub[i]);
                assert(out[i] == rest[i]);
            } else if i > at {
                assert(from[i] == sub[i - 1]);
                assert(out[i] == rest[i - 1]);
            }
        }
        assert forall|i: int, j: int| 0 <= i < j < from.len() implies from[i] != from[j] && (
        out[i] == out[j] ==> from[i] < from[j]) by {
            let si = if i < at { i } else { i - 1 };
            let sj = if j < at { j } else { j - 1 };
            if i != at && j != at {
                assert(from[i] == sub[si] && from[j] == sub[sj]);
                assert(out[i] == rest[si] && out[j] == rest[sj]);
                assert(sub[si] != sub[sj]);
            } else if i == at {
                assert(from[j] == sub[sj]);
                assert(0 <= sub[sj] < shorter.len());
            } else {
                assert(from[i] == sub[si]);
                assert(0 <= sub[si] < shorter.len());
            }
        }
        assert(stable_arrangement(inp, out, from));
    }
}

} // verus!
