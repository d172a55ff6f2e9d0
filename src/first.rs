// Bitonic sorting network over `u32`, ascending or descending by a flag.
use vstd::prelude::*;
use crate::network::{
    cleaned_pairs, converse, lemma_cross_rearranged, lemma_join_sorted, lemma_merge_step,
    lemma_rise_fall_bitonic, lemma_sorted_is_unique, total_preorder, bitonic_by,
};
use vstd::relations::sorted_by;
use crate::seqs::{is_pow2, lemma_rearranged_part, lemma_swap_multiset, swap_at, swapped, valid_len};

verus! {

broadcast use vstd::seq_lib::group_to_multiset_ensures;

/// The order `sort` produces: non-decreasing when `up`, non-increasing otherwise.
pub open spec fn order_u32(up: bool) -> spec_fn(u32, u32) -> bool {
    if up {
        |a: u32, b: u32| a <= b
    } else {
        |a: u32, b: u32| a >= b
    }
}

/// The element a pass leaves in the lower slot of a mirror pair: the smaller when `up`,
/// the larger otherwise.
pub open spec fn first_of(a: u32, b: u32, up: bool) -> u32 {
    if (a <= b) == up {
        a
    } else {
        b
    }
}

/// The element a pass leaves in the upper slot of a mirror pair.
pub open spec fn second_of(a: u32, b: u32, up: bool) -> u32 {
    if (a <= b) == up {
        b
    } else {
        a
    }
}

proof fn lemma_order_u32()
    ensures
        total_preorder(order_u32(true)),
        total_preorder(order_u32(false)),
        converse(order_u32(true), order_u32(false)),
        converse(order_u32(false), order_u32(true)),
{
}

/// Sorts `x` in place: ascending when `up`, descending otherwise.
/// The elements are only rearranged; the order is guaranteed when the length is zero or
/// a power of two.
pub fn sort(x: &mut [u32], up: bool)
    ensures
        final(x)@.to_multiset() == old(x)@.to_multiset(),
        valid_len(old(x)@.len()) ==> sorted_by(final(x)@, order_u32(up)),
{
    let n = x.len();
    sort_range(x, 0, n, up);
    assert(x@.subrange(0, n as int) =~= x@);
    assert(old(x)@.subrange(0, n as int) =~= old(x)@);
}

fn sort_range(x: &mut [u32], lo: usize, n: usize, up: bool)
    requires
        lo + n <= old(x)@.len() <= usize::MAX,
    ensures
        final(x)@.len() == old(x)@.len(),
        final(x)@.subrange(lo as int, lo + n).to_multiset() == old(x)@.subrange(lo as int, lo + n).to_multiset(),
        forall|k: int| 0 <= k < lo || lo + n <= k < old(x)@.len() ==> final(x)@[k] == old(x)@[k],
        valid_len(n as nat) ==> sorted_by(final(x)@.subrange(lo as int, lo + n), order_u32(up)),
    decreases n,
{
    if n > 1 {
        let mid = n / 2;
        let ghost x0 = x@;
        sort_range(x, lo, mid, true);
        let ghost x1 = x@;
        sort_range(x, lo + mid, n - mid, false);
        let ghost x2 = x@;
        proof {
            let (l, m, h) = (lo as int, (lo + mid) as int, (lo + n) as int);
            assert(x1.subrange(m, h) =~= x0.subrange(m, h));
            lemma_rearranged_part(x0, x1, l, m, h, true);
            assert(x2.subrange(l, m) =~= x1.subrange(l, m));
            lemma_rearranged_part(x1, x2, l, m, h, false);
            if is_pow2(n as nat) {
                lemma_order_u32();
                let s = x2.subrange(l, h);
                assert(s.subrange(0, mid as int) =~= x1.subrange(l, m));
                assert(s.subrange(mid as int, n as int) =~= x2.subrange(m, h));
                lemma_rise_fall_bitonic(s, mid as int, order_u32(true), order_u32(false));
            }
        }
        sub_sort(x, lo, n, up);
    }
}

fn sub_sort(x: &mut [u32], lo: usize, n: usize, up: bool)
    requires
        lo + n <= old(x)@.len() <= usize::MAX,
    ensures
        final(x)@.len() == old(x)@.len(),
        final(x)@.subrange(lo as int, lo + n).to_multiset() == old(x)@.subrange(lo as int, lo + n).to_multiset(),
        forall|k: int| 0 <= k < lo || lo + n <= k < old(x)@.len() ==> final(x)@[k] == old(x)@[k],
        is_pow2(n as nat) && bitonic_by(old(x)@.subrange(lo as int, lo + n), order_u32(up))
            ==> sorted_by(final(x)@.subrange(lo as int, lo + n), order_u32(up)),
    decreases n,
{
    if n > 1 {
        let ghost x0 = x@;
        compare_and_swap(x, lo, n, up);
        let mid = n / 2;
        let ghost x1 = x@;
        proof {
            let (l, m, h) = (lo as int, (lo + mid) as int, (lo + n) as int);
            if is_pow2(n as nat) && bitonic_by(x0.subrange(l, h), order_u32(up)) {
                lemma_order_u32();
                lemma_merge_step(x0.subrange(l, h), x1.subrange(l, h), mid as int, order_u32(up));
                assert(x1.subrange(l, h).subrange(0, mid as int) =~= x1.subrange(l, m));
                assert(x1.subrange(l, h).subrange(mid as int, n as int) =~= x1.subrange(m, h));
            }
        }
        sub_sort(x, lo, mid, up);
        let ghost x2 = x@;
        sub_sort(x, lo + mid, n - mid, up);
        let ghost x3 = x@;
        proof {
            let (l, m, h) = (lo as int, (lo + mid) as int, (lo + n) as int);
            assert(x2.subrange(m, h) =~= x1.subrange(m, h));
            lemma_rearranged_part(x1, x2, l, m, h, true);
            assert(x3.subrange(l, m) =~= x2.subrange(l, m));
            lemma_rearranged_part(x2, x3, l, m, h, false);
            if is_pow2(n as nat) && bitonic_by(x0.subrange(l, h), order_u32(up)) {
                let r = order_u32(up);
                let y1 = x1.subrange(l, h);
                let y3 = x3.subrange(l, h);
                assert forall|i: int, j: int| 0 <= i < x1.subrange(l, m).len() && 0 <= j < x1.subrange(m, h).len()
                    implies #[trigger] r(x1.subrange(l, m)[i], x1.subrange(m, h)[j]) by {
                    assert(x1.subrange(l, m)[i] == y1[i]);
                    assert(x1.subrange(m, h)[j] == y1[mid + j]);
                    assert(r(y1[i], y1[mid + j]));
                }
                lemma_cross_rearranged(x1.subrange(l, m), x1.subrange(m, h), x3.subrange(l, m), x3.subrange(m, h), r);
                assert(y3.subrange(0, mid as int) =~= x3.subrange(l, m));
                assert(y3.subrange(mid as int, n as int) =~= x3.subrange(m, h));
                assert forall|i: int, j: int| 0 <= i < mid <= j < n implies #[trigger] r(y3[i], y3[j]) by {
                    assert(x3.subrange(l, m)[i] == y3[i]);
                    assert(x3.subrange(m, h)[j - mid] == y3[j]);
                }
                lemma_join_sorted(y3, mid as int, r);
            }
        }
    } else {
        proof {
            let s = x@.subrange(lo as int, lo + n);
            assert(sorted_by(s, order_u32(up)));
        }
    }
}

fn compare_and_swap(x: &mut [u32], lo: usize, n: usize, up: bool)
    requires
        lo + n <= old(x)@.len() <= usize::MAX,
    ensures
        final(x)@.len() == old(x)@.len(),
        final(x)@.subrange(lo as int, lo + n).to_multiset() == old(x)@.subrange(lo as int, lo + n).to_multiset(),
        forall|k: int| 0 <= k < lo || lo + n <= k < old(x)@.len() ==> final(x)@[k] == old(x)@[k],
        cleaned_pairs(
            old(x)@.subrange(lo as int, lo + n),
            final(x)@.subrange(lo as int, lo + n),
            (n / 2) as int,
            order_u32(up),
        ),
        forall|i: int|
            0 <= i < n / 2 ==> {
                &&& #[trigger] final(x)@[lo + i] == first_of(old(x)@[lo + i], old(x)@[lo + n / 2 + i], up)
                &&& final(x)@[lo + n / 2 + i] == second_of(old(x)@[lo + i], old(x)@[lo + n / 2 + i], up)
            },
        n % 2 == 1 ==> final(x)@[lo + n - 1] == old(x)@[lo + n - 1],
{
    let len = x.len();
    let mid = n / 2;
    let ghost o = x@;
    let ghost r = order_u32(up);
    let mut i: usize = 0;
    while i < mid
        invariant
            mid == n / 2,
            i <= mid,
            lo + n <= x@.len(),
            x@.len() == o.len(),
            x@.len() == len,
            o == old(x)@,
            r == order_u32(up),
            x@.subrange(lo as int, lo + n).to_multiset() == o.subrange(lo as int, lo + n).to_multiset(),
            forall|k: int| 0 <= k < lo || lo + 2 * mid <= k < o.len() ==> x@[k] == o[k],
            forall|k: int|
                0 <= k < i ==> {
                    &&& (x@[lo + k] == o[lo + k] && x@[lo + mid + k] == o[lo + mid + k])
                        || (x@[lo + k] == o[lo + mid + k] && x@[lo + mid + k] == o[lo + k])
                    &&& r(#[trigger] x@[lo + k], x@[lo + mid + k])
                    &&& x@[lo + k] == first_of(o[lo + k], o[lo + mid + k], up)
                    &&& x@[lo + mid + k] == second_of(o[lo + k], o[lo + mid + k], up)
                },
            forall|k: int| i <= k < mid ==> #[trigger] x@[lo + k] == o[lo + k] && x@[lo + mid + k] == o[lo + mid + k],
        decreases mid - i,
    {
        if (x[lo + i] > x[lo + mid + i]) == up {
            proof {
                let s = x@.subrange(lo as int, lo + n);
                lemma_swap_multiset(s, i as int, (mid + i) as int);
                assert(swapped(x@, (lo + i) as int, (lo + mid + i) as int).subrange(lo as int, lo + n)
                    =~= swapped(s, i as int, (mid + i) as int));
            }
            swap_at(x, lo + i, lo + mid + i);
        }
        i += 1;
    }
    proof {
        {
            let s = o.subrange(lo as int, lo + n);
            let y = x@.subrange(lo as int, lo + n);
            assert forall|k: int| 0 <= k < mid implies {
                &&& (#[trigger] y[k] == s[k] && y[k + mid] == s[k + mid]) || (y[k] == s[k + mid] && y[k + mid] == s[k])
                &&& r(y[k], y[k + mid])
            } by {
                assert(r(x@[lo + k], x@[lo + mid + k]));
            }
        }
    }
}

/// Sorting a sequence that is already in the requested order gives it back unchanged:
/// any result that `sort`'s contract admits for such an input is the input itself.
pub proof fn lemma_sort_sorted_unchanged(x: Seq<u32>, y: Seq<u32>, up: bool)
    requires
        valid_len(x.len()),
        sorted_by(x, order_u32(up)),
        y.to_multiset() == x.to_multiset(),
        valid_len(x.len()) ==> sorted_by(y, order_u32(up)),
    ensures
        y == x,
{
    lemma_order_u32();
    lemma_sorted_is_unique(x, y, order_u32(up));
}

} // verus!
