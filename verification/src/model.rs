//! The mathematical vocabulary in which the contracts of this crate are stated.

use vstd::prelude::*;

verus! {

/// `s` is non-decreasing.
pub open spec fn sorted(s: Seq<i32>) -> bool {
    forall|i: int, j: int| 0 <= i <= j < s.len() ==> s[i] <= s[j]
}

/// The positions `lo..hi` of `s` hold a non-decreasing run.
pub open spec fn sorted_between(s: Seq<i32>, lo: int, hi: int) -> bool {
    forall|i: int, j: int| lo <= i <= j < hi ==> s[i] <= s[j]
}

/// `a` and `b` have the same length and agree at every position outside `lo..hi`.
pub open spec fn same_outside(a: Seq<i32>, b: Seq<i32>, lo: int, hi: int) -> bool {
    &&& a.len() == b.len()
    &&& forall|i: int| 0 <= i < a.len() && !(lo <= i < hi) ==> a[i] == b[i]
}

/// `out` is `inp` put in non-decreasing order: it is sorted and holds exactly
/// the values of `inp`, each as often as `inp` does.
pub open spec fn is_sort_of(out: Seq<i32>, inp: Seq<i32>) -> bool {
    &&& sorted(out)
    &&& out.to_multiset() == inp.to_multiset()
}

/// `from` tells where in `inp` each element of `out` was taken: `out[i]` is
/// `inp[from[i]]`, every position of `inp` is taken once, and of two equal
/// values the one that stands first in `out` stood first in `inp`.
pub open spec fn stable_arrangement(inp: Seq<i32>, out: Seq<i32>, from: Seq<int>) -> bool {
    &&& from.len() == out.len()
    &&& inp.len() == out.len()
    &&& forall|i: int|
        0 <= i < from.len() ==> 0 <= #[trigger] from[i] < inp.len() && out[i] == inp[from[i]]
    &&& forall|i: int, j: int| 0 <= i < j < from.len() ==> from[i] != from[j]
    &&& forall|i: int, j: int| 0 <= i < j < from.len() && out[i] == out[j] ==> from[i] < from[j]
}

/// The two-way merge of `l` and `r`: the smaller front goes first, and on a tie
/// the front of `l` does, until one side is empty and the other follows whole.
pub open spec fn merged(l: Seq<i32>, r: Seq<i32>) -> Seq<i32>
    decreases l.len() + r.len(),
{
    if l.len() == 0 {
        r
    } else if r.len() == 0 {
        l
    } else if l[0] <= r[0] {
        seq![l[0]] + merged(l.skip(1), r)
    } else {
        seq![r[0]] + merged(l, r.skip(1))
    }
}

/// The `k`-th chunk of `s` when `s` is cut into pieces of `n` elements from
/// the front: the positions `k * n .. k * n + n`, cut short at the end of `s`.
pub open spec fn chunk(s: Seq<i32>, n: int, k: int) -> Seq<i32> {
    s.subrange(
        k * n,
        if k * n + n <= s.len() {
            k * n + n
        } else {
            s.len() as int
        },
    )
}

/// Every chunk of `n` elements of `s` is sorted.
pub open spec fn runs_sorted(s: Seq<i32>, n: int) -> bool {
    forall|k: int| 0 <= k && k * n < s.len() ==> sorted(#[trigger] chunk(s, n, k))
}

/// The number of merge passes that take sorted runs of `size` elements to one
/// sorted run of `len` elements, the width doubling with each pass.
pub open spec fn passes_needed(len: int, size: int) -> nat
    decreases
            if size < len {
                len - size
            } else {
                0
            },
{
    if size <= 0 || size >= len {
        0
    } else {
        1 + passes_needed(len, 2 * size)
    }
}

} // verus!
