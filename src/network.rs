// Why the network sorts: a threshold argument on 0-1 patterns, lifted to any total
// preorder.
use vstd::prelude::*;
use vstd::relations::sorted_by;

verus! {

/// No `true, false, true` pattern: the `true`s form one contiguous run.
pub open spec fn no_peak_gap(b: Seq<bool>) -> bool {
    forall|i: int, j: int, k: int|
        0 <= i < j < k < b.len() ==> !(#[trigger] b[i] && !#[trigger] b[j] && #[trigger] b[k])
}

/// No `false, true, false` pattern: the `false`s form one contiguous run.
pub open spec fn no_valley_gap(b: Seq<bool>) -> bool {
    forall|i: int, j: int, k: int|
        0 <= i < j < k < b.len() ==> !(!#[trigger] b[i] && #[trigger] b[j] && !#[trigger] b[k])
}

/// A 0-1 sequence that is bitonic up to rotation.
pub open spec fn bitonic01(b: Seq<bool>) -> bool {
    no_peak_gap(b) || no_valley_gap(b)
}

/// The lower half after a compare-and-swap pass over a 0-1 sequence of length `2 * m`.
pub open spec fn low_half(b: Seq<bool>, m: int) -> Seq<bool> {
    Seq::new(m as nat, |i: int| b[i] && b[i + m])
}

/// The upper half after a compare-and-swap pass over a 0-1 sequence of length `2 * m`.
pub open spec fn high_half(b: Seq<bool>, m: int) -> Seq<bool> {
    Seq::new(m as nat, |i: int| b[i] || b[i + m])
}

/// The half-cleaner on a bitonic 0-1 sequence leaves two bitonic halves, one of them
/// uniform.
pub proof fn lemma_half_cleaner01(b: Seq<bool>, m: int)
    requires
        m >= 1,
        b.len() == 2 * m,
        bitonic01(b),
    ensures
        bitonic01(low_half(b, m)),
        bitonic01(high_half(b, m)),
        (forall|i: int| 0 <= i < m ==> !#[trigger] low_half(b, m)[i])
            || (forall|i: int| 0 <= i < m ==> #[trigger] high_half(b, m)[i]),
{
    let lo = low_half(b, m);
    let hi = high_half(b, m);
    assert((forall|i: int| 0 <= i < m ==> !#[trigger] lo[i]) || (forall|i: int| 0 <= i < m ==> #[trigger] hi[i])) by {
        if exists|i: int| 0 <= i < m && #[trigger] lo[i] {
            let i = choose|i: int| 0 <= i < m && #[trigger] lo[i];
            assert forall|k: int| 0 <= k < m implies #[trigger] hi[k] by {
                if !hi[k] {
                    assert(b[i] && b[i + m] && !b[k] && !b[k + m]);
                    if i < k {
                        assert(b[i] && !b[k] && b[i + m]);
                        assert(!b[k] && b[i + m] && !b[k + m]);
                    } else {
                        assert(!b[k] && b[i] && !b[k + m]);
                        assert(b[i] && !b[k + m] && b[i + m]);
                    }
                }
            }
        }
    }
    assert(bitonic01(lo)) by {
        if no_peak_gap(b) {
            assert forall|i: int, j: int, k: int|
                0 <= i < j < k < lo.len() implies !(#[trigger] lo[i] && !#[trigger] lo[j] && #[trigger] lo[k]) by {
                if lo[i] && !lo[j] && lo[k] {
                    if !b[j] {
                        assert(b[i] && !b[j] && b[k]);
                    } else {
                        assert(b[i + m] && !b[j + m] && b[k + m]);
                    }
                }
            }
            assert(no_peak_gap(lo));
        } else {
            assert(no_valley_gap(b));
            if !no_valley_gap(lo) && !no_peak_gap(lo) {
                let (i, j, k) = choose|i: int, j: int, k: int|
                    0 <= i < j < k < lo.len() && (#[trigger] lo[i] && !#[trigger] lo[j] && #[trigger] lo[k]);
                let (p, q, r) = choose|i: int, j: int, k: int|
                    0 <= i < j < k < lo.len() && (!#[trigger] lo[i] && #[trigger] lo[j] && !#[trigger] lo[k]);
                assert(b[i] && b[i + m] && b[k] && b[k + m]);
                assert(b[q] && b[q + m]);
                assert(!b[j] || !b[j + m]);
                assert(!b[p] || !b[p + m]);
                assert(!b[r] || !b[r + m]);
                assert(false);
            }
        }
    }
    assert(bitonic01(hi)) by {
        if no_valley_gap(b) {
            assert forall|i: int, j: int, k: int|
                0 <= i < j < k < hi.len() implies !(!#[trigger] hi[i] && #[trigger] hi[j] && !#[trigger] hi[k]) by {
                if !hi[i] && hi[j] && !hi[k] {
                    if b[j] {
                        assert(!b[i] && b[j] && !b[k]);
                    } else {
                        assert(!b[i + m] && b[j + m] && !b[k + m]);
                    }
                }
            }
            assert(no_valley_gap(hi));
        } else {
            assert(no_peak_gap(b));
            if !no_valley_gap(hi) && !no_peak_gap(hi) {
                let (i, j, k) = choose|i: int, j: int, k: int|
                    0 <= i < j < k < hi.len() && (!#[trigger] hi[i] && #[trigger] hi[j] && !#[trigger] hi[k]);
                let (p, q, r) = choose|i: int, j: int, k: int|
                    0 <= i < j < k < hi.len() && (#[trigger] hi[i] && !#[trigger] hi[j] && #[trigger] hi[k]);
                assert(!b[i] && !b[i + m] && !b[k] && !b[k + m]);
                assert(!b[q] && !b[q + m]);
                assert(b[j] || b[j + m]);
                assert(b[p] || b[p + m]);
                assert(b[r] || b[r + m]);
                assert(false);
            }
        }
    }
}

/// `r` is total and transitive: a "comes no later than" relation.
pub open spec fn total_preorder<T>(r: spec_fn(T, T) -> bool) -> bool {
    &&& forall|a: T, b: T| #[trigger] r(a, b) || r(b, a)
    &&& forall|a: T, b: T, c: T| #[trigger] r(a, b) && #[trigger] r(b, c) ==> r(a, c)
}

/// `q` is `r` with its arguments exchanged.
pub open spec fn converse<T>(r: spec_fn(T, T) -> bool, q: spec_fn(T, T) -> bool) -> bool {
    forall|a: T, b: T| #[trigger] q(a, b) == r(b, a)
}

/// Which elements of `s` are at least the threshold `t` under `r`.
pub open spec fn above<T>(s: Seq<T>, r: spec_fn(T, T) -> bool, t: T) -> Seq<bool> {
    Seq::new(s.len(), |i: int| r(t, s[i]))
}

/// Under every threshold, the elements at or above it make a bitonic 0-1 pattern.
pub open spec fn bitonic_by<T>(s: Seq<T>, r: spec_fn(T, T) -> bool) -> bool {
    forall|t: T| bitonic01(#[trigger] above(s, r, t))
}

/// `y` is `s` after one compare-and-swap pass over the mirror pairs `(i, i + m)`.
pub open spec fn cleaned_pairs<T>(s: Seq<T>, y: Seq<T>, m: int, r: spec_fn(T, T) -> bool) -> bool {
    forall|i: int|
        0 <= i < m ==> {
            &&& (#[trigger] y[i] == s[i] && y[i + m] == s[i + m]) || (y[i] == s[i + m] && y[i + m] == s[i])
            &&& r(y[i], y[i + m])
        }
}

/// A rising half followed by a falling half is bitonic in both directions.
pub proof fn lemma_rise_fall_bitonic<T>(s: Seq<T>, m: int, r: spec_fn(T, T) -> bool, q: spec_fn(T, T) -> bool)
    requires
        0 <= m <= s.len(),
        total_preorder(r),
        converse(r, q),
        sorted_by(s.subrange(0, m), r),
        sorted_by(s.subrange(m, s.len() as int), q),
    ensures
        bitonic_by(s, r),
        bitonic_by(s, q),
{
    let n = s.len() as int;
    assert forall|t: T| bitonic01(#[trigger] above(s, r, t)) by {
        let b = above(s, r, t);
        assert forall|i: int, j: int, k: int|
            0 <= i < j < k < b.len() implies !(#[trigger] b[i] && !#[trigger] b[j] && #[trigger] b[k]) by {
            if j < m {
                assert(s.subrange(0, m)[i] == s[i] && s.subrange(0, m)[j] == s[j]);
                assert(r(s[i], s[j]));
            } else {
                assert(s.subrange(m, n)[j - m] == s[j] && s.subrange(m, n)[k - m] == s[k]);
                assert(q(s[j], s[k]));
            }
        }
        assert(no_peak_gap(b));
    }
    assert forall|t: T| bitonic01(#[trigger] above(s, q, t)) by {
        let b = above(s, q, t);
        assert forall|i: int, j: int, k: int|
            0 <= i < j < k < b.len() implies !(!#[trigger] b[i] && #[trigger] b[j] && !#[trigger] b[k]) by {
            if j < m {
                assert(s.subrange(0, m)[i] == s[i] && s.subrange(0, m)[j] == s[j]);
                assert(r(s[i], s[j]));
                assert(q(t, s[j]) == r(s[j], t));
                assert(q(t, s[i]) == r(s[i], t));
            } else {
                assert(s.subrange(m, n)[j - m] == s[j] && s.subrange(m, n)[k - m] == s[k]);
                assert(q(s[j], s[k]) == r(s[k], s[j]));
                assert(q(t, s[j]) == r(s[j], t));
                assert(q(t, s[k]) == r(s[k], t));
            }
        }
        assert(no_valley_gap(b));
    }
}

/// One compare-and-swap pass over a bitonic sequence leaves two bitonic halves, with
/// every element of the lower half in relation `r` to every element of the upper half.
pub proof fn lemma_merge_step<T>(s: Seq<T>, y: Seq<T>, m: int, r: spec_fn(T, T) -> bool)
    requires
        m >= 1,
        s.len() == 2 * m,
        y.len() == 2 * m,
        total_preorder(r),
        bitonic_by(s, r),
        cleaned_pairs(s, y, m, r),
    ensures
        bitonic_by(y.subrange(0, m), r),
        bitonic_by(y.subrange(m, 2 * m), r),
        forall|i: int, j: int| 0 <= i < m <= j < 2 * m ==> #[trigger] r(y[i], y[j]),
{
    let lo = y.subrange(0, m);
    let hi = y.subrange(m, 2 * m);
    assert forall|t: T, i: int| 0 <= i < m implies (#[trigger] r(t, y[i])) == (r(t, s[i]) && r(t, s[i + m]))
        && r(t, y[i + m]) == (r(t, s[i]) || r(t, s[i + m])) by {
        assert(r(y[i], y[i + m]));
        if r(t, y[i]) {
            assert(r(t, y[i + m]));
        }
    }
    assert forall|t: T| #![trigger above(s, r, t)]
        bitonic01(above(lo, r, t)) && bitonic01(above(hi, r, t))
        && ((forall|i: int| 0 <= i < m ==> !#[trigger] low_half(above(s, r, t), m)[i])
            || (forall|i: int| 0 <= i < m ==> #[trigger] high_half(above(s, r, t), m)[i])) by {
        let b = above(s, r, t);
        assert(above(lo, r, t) =~= low_half(b, m)) by {
            assert forall|i: int| 0 <= i < m implies #[trigger] above(lo, r, t)[i] == low_half(b, m)[i] by {
                assert(lo[i] == y[i]);
                assert(r(t, y[i]) == (r(t, s[i]) && r(t, s[i + m])));
            }
        }
        assert(above(hi, r, t) =~= high_half(b, m)) by {
            assert forall|i: int| 0 <= i < m implies #[trigger] above(hi, r, t)[i] == high_half(b, m)[i] by {
                assert(hi[i] == y[i + m]);
                assert(r(t, y[i]) == (r(t, s[i]) && r(t, s[i + m])));
            }
        }
        assert(bitonic01(b));
        lemma_half_cleaner01(b, m);
    }
    assert forall|t: T| bitonic01(#[trigger] above(lo, r, t)) && bitonic01(above(hi, r, t)) by {
        assert(above(s, r, t).len() == 2 * m);
    }
    assert forall|t: T| bitonic01(#[trigger] above(hi, r, t)) by {
        assert(above(s, r, t).len() == 2 * m);
    }
    assert forall|i: int, j: int| 0 <= i < m <= j < 2 * m implies #[trigger] r(y[i], y[j]) by {
        let t = y[i];
        assert(r(t, t));
        assert(r(t, y[i]) == (r(t, s[i]) && r(t, s[i + m])));
        assert(low_half(above(s, r, t), m)[i]);
        assert(high_half(above(s, r, t), m)[j - m]);
        let k = j - m;
        assert(r(t, y[k]) == (r(t, s[k]) && r(t, s[k + m])));
        assert(r(t, y[k + m]) == (r(t, s[k]) || r(t, s[k + m])));
    }
}

/// Two sorted halves, each lower element related to each upper one, make a sorted whole.
pub proof fn lemma_join_sorted<T>(y: Seq<T>, m: int, r: spec_fn(T, T) -> bool)
    requires
        0 <= m <= y.len(),
        sorted_by(y.subrange(0, m), r),
        sorted_by(y.subrange(m, y.len() as int), r),
        forall|i: int, j: int| 0 <= i < m <= j < y.len() ==> #[trigger] r(y[i], y[j]),
    ensures
        sorted_by(y, r),
{
    let n = y.len() as int;
    assert forall|i: int, j: int| 0 <= i < j < n implies #[trigger] r(y[i], y[j]) by {
        if j < m {
            assert(y.subrange(0, m)[i] == y[i] && y.subrange(0, m)[j] == y[j]);
        } else if i >= m {
            assert(y.subrange(m, n)[i - m] == y[i] && y.subrange(m, n)[j - m] == y[j]);
        }
    }
}

/// Rearranging each side keeps every element of one side related to every element of
/// the other.
pub proof fn lemma_cross_rearranged<T>(a: Seq<T>, b: Seq<T>, a2: Seq<T>, b2: Seq<T>, r: spec_fn(T, T) -> bool)
    requires
        forall|i: int, j: int| 0 <= i < a.len() && 0 <= j < b.len() ==> #[trigger] r(a[i], b[j]),
        a2.to_multiset() == a.to_multiset(),
        b2.to_multiset() == b.to_multiset(),
    ensures
        forall|i: int, j: int| 0 <= i < a2.len() && 0 <= j < b2.len() ==> #[trigger] r(a2[i], b2[j]),
{
    broadcast use vstd::seq_lib::group_to_multiset_ensures;

    assert forall|i: int, j: int| 0 <= i < a2.len() && 0 <= j < b2.len() implies #[trigger] r(a2[i], b2[j]) by {
        assert(a2.contains(a2[i]));
        assert(b2.contains(b2[j]));
        assert(a2.to_multiset().count(a2[i]) > 0);
        assert(b2.to_multiset().count(b2[j]) > 0);
        assert(a.to_multiset().count(a2[i]) > 0);
        assert(b.to_multiset().count(b2[j]) > 0);
        assert(a.contains(a2[i]));
        assert(b.contains(b2[j]));
        let p = choose|p: int| 0 <= p < a.len() && a[p] == a2[i];
        let q = choose|q: int| 0 <= q < b.len() && b[q] == b2[j];
        assert(r(a[p], b[q]));
    }
}

/// A total preorder in which mutual relation means equality orders a multiset in
/// exactly one way.
pub proof fn lemma_sorted_is_unique<T>(s: Seq<T>, y: Seq<T>, r: spec_fn(T, T) -> bool)
    requires
        total_preorder(r),
        forall|a: T, b: T| #[trigger] r(a, b) && #[trigger] r(b, a) ==> a == b,
        sorted_by(s, r),
        sorted_by(y, r),
        s.to_multiset() == y.to_multiset(),
    ensures
        y == s,
{
    assert forall|a: T| #[trigger] r(a, a) by {
        assert(r(a, a) || r(a, a));
    }
    assert(vstd::relations::total_ordering(r));
    vstd::seq_lib::lemma_sorted_unique(s, y, r);
}

} // verus!
