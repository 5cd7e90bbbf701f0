//! Facts about sequences, multisets and merging on which the proofs rest.

use vstd::prelude::*;
use vstd::seq_lib::lemma_multiset_commutative;
use crate::model::{
    chunk, merged, passes_needed, runs_sorted, same_outside, sorted, sorted_between,
};

verus! {

/// How the starts of chunks of `n` elements follow each other.
pub proof fn lemma_mul_steps(c: int, k: int, n: int)
    requires
        n > 0,
    ensures
        (k + 1) * n == k * n + n,
        c < k ==> c * n + n <= k * n,
        c >= k ==> c * n >= k * n,
        k >= 0 ==> k * n >= 0,
{
    assert((k + 1) * n == k * n + n) by (nonlinear_arith);
    assert(c < k ==> c * n + n <= k * n) by (nonlinear_arith)
        requires
            n > 0,
    ;
    assert(c >= k ==> c * n >= k * n) by (nonlinear_arith)
        requires
            n > 0,
    ;
    assert(k >= 0 ==> k * n >= 0) by (nonlinear_arith)
        requires
            n > 0,
    ;
}

/// A window of a sequence is sorted exactly when its positions hold a sorted run.
pub proof fn lemma_sorted_window(s: Seq<i32>, lo: int, hi: int)
    requires
        0 <= lo <= hi <= s.len(),
    ensures
        sorted(s.subrange(lo, hi)) <==> sorted_between(s, lo, hi),
{
    let w = s.subrange(lo, hi);
    if sorted(w) {
        assert forall|i: int, j: int| lo <= i <= j < hi implies s[i] <= s[j] by {
            assert(w[i - lo] <= w[j - lo]);
        }
    }
    if sorted_between(s, lo, hi) {
        assert forall|i: int, j: int| 0 <= i <= j < w.len() implies w[i] <= w[j] by {
            assert(s[lo + i] <= s[lo + j]);
        }
    }
}

/// Two sequences that differ only inside a window hold the same values exactly
/// when their windows do.
pub proof fn lemma_window_multiset(a: Seq<i32>, b: Seq<i32>, lo: int, hi: int)
    requires
        0 <= lo <= hi <= a.len(),
        same_outside(a, b, lo, hi),
    ensures
        a.to_multiset() == b.to_multiset() <==> a.subrange(lo, hi).to_multiset() == b.subrange(
            lo,
            hi,
        ).to_multiset(),
{
    let n = a.len() as int;
    let head = a.subrange(0, lo);
    let tail = a.subrange(hi, n);
    let wa = a.subrange(lo, hi);
    let wb = b.subrange(lo, hi);
    assert(head =~= b.subrange(0, lo));
    assert(tail =~= b.subrange(hi, n));
    assert(a =~= (head + wa) + tail);
    assert(b =~= (head + wb) + tail);
    lemma_multiset_commutative(head, wa);
    lemma_multiset_commutative(head + wa, tail);
    lemma_multiset_commutative(head, wb);
    lemma_multiset_commutative(head + wb, tail);
    let mh = head.to_multiset();
    let mt = tail.to_multiset();
    if a.to_multiset() == b.to_multiset() {
        assert forall|v: i32| wa.to_multiset().count(v) == wb.to_multiset().count(v) by {
            assert(mh.add(wa.to_multiset()).add(mt).count(v) == mh.add(wb.to_multiset()).add(
                mt,
            ).count(v));
        }
        assert(wa.to_multiset() =~= wb.to_multiset());
    }
}

/// Merging keeps every value of both sides, each as often as it occurs.
pub proof fn lemma_merged_multiset(l: Seq<i32>, r: Seq<i32>)
    ensures
        merged(l, r).len() == l.len() + r.len(),
        merged(l, r).to_multiset() == l.to_multiset().add(r.to_multiset()),
    decreases l.len() + r.len(),
{
    lemma_multiset_commutative(l, r);
    if l.len() == 0 {
        assert(l + r =~= r);
    } else if r.len() == 0 {
        assert(l + r =~= l);
    } else if l[0] <= r[0] {
        let rest = l.skip(1);
        lemma_merged_multiset(rest, r);
        assert(l =~= seq![l[0]] + rest);
        lemma_multiset_commutative(seq![l[0]], rest);
        lemma_multiset_commutative(seq![l[0]], merged(rest, r));
        assert(merged(l, r).to_multiset() =~= l.to_multiset().add(r.to_multiset()));
    } else {
        let rest = r.skip(1);
        lemma_merged_multiset(l, rest);
        assert(r =~= seq![r[0]] + rest);
        lemma_multiset_commutative(seq![r[0]], rest);
        lemma_multiset_commutative(seq![r[0]], merged(l, rest));
        assert(merged(l, r).to_multiset() =~= l.to_multiset().add(r.to_multiset()));
    }
}

/// Every value of a merge comes from one of its two sides.
pub proof fn lemma_merged_source(l: Seq<i32>, r: Seq<i32>, k: int)
    requires
        0 <= k < merged(l, r).len(),
    ensures
        l.contains(merged(l, r)[k]) || r.contains(merged(l, r)[k]),
    decreases l.len() + r.len(),
{
    if l.len() == 0 {
        assert(r[k] == merged(l, r)[k]);
    } else if r.len() == 0 {
        assert(l[k] == merged(l, r)[k]);
    } else if l[0] <= r[0] {
        if k == 0 {
            assert(l[0] == merged(l, r)[k]);
        } else {
            lemma_merged_source(l.skip(1), r, k - 1);
            let v = merged(l, r)[k];
            if l.skip(1).contains(v) {
                let t = choose|t: int| 0 <= t < l.skip(1).len() && l.skip(1)[t] == v;
                assert(l[t + 1] == v);
            }
        }
    } else {
        if k == 0 {
            assert(r[0] == merged(l, r)[k]);
        } else {
            lemma_merged_source(l, r.skip(1), k - 1);
            let v = merged(l, r)[k];
            if r.skip(1).contains(v) {
                let t = choose|t: int| 0 <= t < r.skip(1).len() && r.skip(1)[t] == v;
                assert(r[t + 1] == v);
            }
        }
    }
}

/// Merging two sorted sequences gives a sorted sequence.
pub proof fn lemma_merged_sorted(l: Seq<i32>, r: Seq<i32>)
    requires
        sorted(l),
        sorted(r),
    ensures
        sorted(merged(l, r)),
    decreases l.len() + r.len(),
{
    if l.len() == 0 || r.len() == 0 {
    } else {
        let m = merged(l, r);
        let (head, l2, r2) = if l[0] <= r[0] {
            (l[0], l.skip(1), r)
        } else {
            (r[0], l, r.skip(1))
        };
        let rest = merged(l2, r2);
        assert(m =~= seq![head] + rest);
        assert(sorted(l2));
        assert(sorted(r2));
        lemma_merged_sorted(l2, r2);
        assert forall|i: int, j: int| 0 <= i <= j < m.len() implies m[i] <= m[j] by {
            if i == 0 && j > 0 {
                lemma_merged_source(l2, r2, j - 1);
                let v = rest[j - 1];
                if l2.contains(v) {
                    let t = choose|t: int| 0 <= t < l2.len() && l2[t] == v;
                    assert(l[0] <= l[l.len() - l2.len() + t]);
                } else {
                    let t = choose|t: int| 0 <= t < r2.len() && r2[t] == v;
                    assert(r[0] <= r[r.len() - r2.len() + t]);
                }
            } else if i > 0 {
                assert(rest[i - 1] <= rest[j - 1]);
            }
        }
    }
}

/// A sorted sequence is determined by the values it holds.
pub proof fn lemma_sorted_unique(a: Seq<i32>, b: Seq<i32>)
    requires
        sorted(a),
        sorted(b),
        a.to_multiset() == b.to_multiset(),
    ensures
        a == b,
{
    let leq = |x: i32, y: i32| x <= y;
    assert(vstd::relations::total_ordering(leq));
    assert(vstd::relations::sorted_by(a, leq));
    assert(vstd::relations::sorted_by(b, leq));
    vstd::seq_lib::lemma_sorted_unique(a, b, leq);
}

/// Two sequences of one length whose chunks of `n` elements hold the same
/// values, chunk by chunk, hold the same values up to the end of any chunk.
proof fn lemma_chunks_multiset_upto(a: Seq<i32>, b: Seq<i32>, n: int, m: int)
    requires
        n > 0,
        m >= 0,
        a.len() == b.len(),
        forall|k: int|
            0 <= k && k * n < a.len() ==> (#[trigger] chunk(b, n, k)).to_multiset() == chunk(
                a,
                n,
                k,
            ).to_multiset(),
    ensures
        m * n >= 0,
        ({
            let e = if m * n <= a.len() {
                m * n
            } else {
                a.len() as int
            };
            b.take(e).to_multiset() == a.take(e).to_multiset()
        }),
    decreases m,
{
    lemma_mul_steps(m, m, n);
    if m == 0 {
        assert(m * n == 0) by (nonlinear_arith)
            requires
                m == 0,
        ;
        assert(b.take(0) =~= a.take(0));
    } else {
        lemma_chunks_multiset_upto(a, b, n, m - 1);
        lemma_mul_steps(m - 1, m - 1, n);
        let start = (m - 1) * n;
        if start < a.len() {
            let e = if m * n <= a.len() {
                m * n
            } else {
                a.len() as int
            };
            assert(chunk(b, n, m - 1).to_multiset() == chunk(a, n, m - 1).to_multiset());
            assert(a.take(e) =~= a.take(start) + chunk(a, n, m - 1));
            assert(b.take(e) =~= b.take(start) + chunk(b, n, m - 1));
            lemma_multiset_commutative(a.take(start), chunk(a, n, m - 1));
            lemma_multiset_commutative(b.take(start), chunk(b, n, m - 1));
        }
    }
}

/// Two sequences of one length whose chunks of `n` elements hold the same
/// values, chunk by chunk, hold the same values as wholes.
pub proof fn lemma_chunks_multiset(a: Seq<i32>, b: Seq<i32>, n: int)
    requires
        n > 0,
        a.len() == b.len(),
        forall|k: int|
            0 <= k && k * n < a.len() ==> (#[trigger] chunk(b, n, k)).to_multiset() == chunk(
                a,
                n,
                k,
            ).to_multiset(),
    ensures
        b.to_multiset() == a.to_multiset(),
{
    let m = a.len() as int;
    lemma_chunks_multiset_upto(a, b, n, m);
    lemma_mul_steps(m, 0, n);
    assert(m * n >= m) by (nonlinear_arith)
        requires
            n >= 1,
            m >= 0,
    ;
    assert(a.take(m) =~= a);
    assert(b.take(m) =~= b);
}

/// Where one chunk covers the whole sequence, sorted runs and a sorted
/// sequence are the same thing.
pub proof fn lemma_single_run(s: Seq<i32>, n: int)
    requires
        n > 0,
        n >= s.len(),
    ensures
        runs_sorted(s, n) <==> sorted(s),
{
    if s.len() > 0 {
        assert(0 * n == 0);
        assert(chunk(s, n, 0) =~= s);
    }
    if sorted(s) {
        assert forall|k: int| 0 <= k && k * n < s.len() implies sorted(
            #[trigger] chunk(s, n, k),
        ) by {
            lemma_mul_steps(k, 1, n);
            assert(1 * n == n);
            assert(k == 0);
        }
    }
}

/// Doubling the width takes one pass off those still needed; and once the
/// double is no less than the length, any width from the length on says the
/// same of the slice and of the passes left, which are none.
pub proof fn lemma_doubled(len: int, size: int, s: Seq<i32>)
    requires
        0 < size < len,
        len == s.len(),
    ensures
        passes_needed(len, size) == 1 + passes_needed(len, 2 * size),
        forall|wide: int|
            2 * size >= len && wide >= len ==> passes_needed(len, wide) == 0 && (runs_sorted(
                s,
                2 * size,
            ) ==> #[trigger] runs_sorted(s, wide)),
{
    assert forall|wide: int| 2 * size >= len && wide >= len implies passes_needed(len, wide) == 0
        && (runs_sorted(s, 2 * size) ==> #[trigger] runs_sorted(s, wide)) by {
        lemma_single_run(s, 2 * size);
        lemma_single_run(s, wide);
    }
}

/// A chunk of `2 * size` elements is made of two neighbouring chunks of
/// `size` elements, the second of which may be short or missing.
pub proof fn lemma_chunk_halves(s: Seq<i32>, size: int, k: int)
    requires
        size > 0,
        k >= 0,
        k * (2 * size) < s.len(),
    ensures
        (2 * k) * size == k * (2 * size),
        (2 * k + 1) * size == k * (2 * size) + size,
        ({
            let whole = chunk(s, 2 * size, k);
            let m = if size <= whole.len() {
                size
            } else {
                whole.len() as int
            };
            &&& whole.take(m) == chunk(s, size, 2 * k)
            &&& whole.len() > size ==> whole.skip(m) == chunk(s, size, 2 * k + 1)
            &&& whole.len() <= size ==> whole.skip(m).len() == 0
        }),
{
    assert((2 * k) * size == k * (2 * size)) by (nonlinear_arith);
    assert((2 * k + 1) * size == k * (2 * size) + size) by (nonlinear_arith);
    let whole = chunk(s, 2 * size, k);
    let m = if size <= whole.len() {
        size
    } else {
        whole.len() as int
    };
    assert(whole.take(m) =~= chunk(s, size, 2 * k));
    if whole.len() > size {
        assert(whole.skip(m) =~= chunk(s, size, 2 * k + 1));
    }
}

} // verus!
