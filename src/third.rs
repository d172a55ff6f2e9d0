// Bitonic sorting network over any element type, ordered by `Ord` or by a comparator,
// with the length checked up front.
use vstd::prelude::*;
use vstd::relations::sorted_by;
use std::cmp::Ordering;
use vstd::std_specs::cmp::OrdSpec;
use crate::SortOrder;
use crate::network::{
    bitonic_by, cleaned_pairs, converse, lemma_cross_rearranged, lemma_join_sorted, lemma_merge_step,
    lemma_rise_fall_bitonic, lemma_sorted_is_unique, total_preorder,
};
use crate::seqs::{
    is_pow2, is_valid_len, lemma_rearranged_part, lemma_swap_multiset, swap_at, swapped, valid_len,
};

verus! {

broadcast use vstd::seq_lib::group_to_multiset_ensures;

/// The comparator can be called on any pair of elements.
pub open spec fn callable<T, F: Fn(&T, &T) -> Ordering>(f: F) -> bool {
    forall|a: &T, b: &T| #[trigger] f.requires((a, b))
}

/// `rel` is a total preorder and every answer of the comparator is consistent with it:
/// `Less` and `Greater` name the pair's order under `rel`, `Equal` a tie.
pub open spec fn agrees<T, F: Fn(&T, &T) -> Ordering>(f: F, rel: spec_fn(T, T) -> bool) -> bool {
    &&& total_preorder(rel)
    &&& forall|a: T, b: T, c: Ordering|
        #[trigger] f.ensures((&a, &b), c) ==> match c {
            Ordering::Less => rel(a, b),
            Ordering::Equal => rel(a, b) && rel(b, a),
            Ordering::Greater => rel(b, a),
        }
}

/// `rel` with its arguments exchanged.
pub open spec fn flip<T>(rel: spec_fn(T, T) -> bool) -> spec_fn(T, T) -> bool {
    |a: T, b: T| rel(b, a)
}

/// The relation a pass in direction `forward` sorts by.
pub open spec fn direction<T>(rel: spec_fn(T, T) -> bool, forward: bool) -> spec_fn(T, T) -> bool {
    if forward {
        rel
    } else {
        flip(rel)
    }
}

proof fn lemma_flip_orders<T>(rel: spec_fn(T, T) -> bool)
    requires
        total_preorder(rel),
    ensures
        total_preorder(flip(rel)),
        converse(rel, flip(rel)),
        converse(flip(rel), rel),
{
    assert forall|a: T, b: T, c: T| #[trigger] flip(rel)(a, b) && #[trigger] flip(rel)(b, c) implies flip(rel)(a, c) by {
        assert(rel(c, b) && rel(b, a));
    }
}

/// Under `Ord`'s laws: one answer per pair, `Greater` one way exactly when `Less` the
/// other, and "not greater" transitive.
pub open spec fn ord_laws<T: Ord>() -> bool {
    &&& T::obeys_cmp_spec()
    &&& forall|a: T, b: T| (#[trigger] a.cmp_spec(&b) == Ordering::Greater) == (#[trigger] b.cmp_spec(&a) == Ordering::Less)
    &&& forall|a: T, b: T, c: T|
        #[trigger] a.cmp_spec(&b) != Ordering::Greater && #[trigger] b.cmp_spec(&c) != Ordering::Greater
            ==> a.cmp_spec(&c) != Ordering::Greater
}

/// The order `sort` produces under `Ord`: non-decreasing or non-increasing.
pub open spec fn ord_order<T: Ord>(order: SortOrder) -> spec_fn(T, T) -> bool {
    match order {
        SortOrder::Ascending => |a: T, b: T| a.cmp_spec(&b) != Ordering::Greater,
        SortOrder::Descending => |a: T, b: T| a.cmp_spec(&b) != Ordering::Less,
    }
}

proof fn lemma_ord_orders<T: Ord>()
    requires
        ord_laws::<T>(),
    ensures
        total_preorder(ord_order::<T>(SortOrder::Ascending)),
        total_preorder(ord_order::<T>(SortOrder::Descending)),
{
    let up = ord_order::<T>(SortOrder::Ascending);
    let down = ord_order::<T>(SortOrder::Descending);
    assert forall|a: T, b: T| #[trigger] up(a, b) || up(b, a) by {
        if a.cmp_spec(&b) == Ordering::Greater {
            assert(b.cmp_spec(&a) == Ordering::Less);
        }
    }
    assert forall|a: T, b: T| #[trigger] down(a, b) || down(b, a) by {
        if a.cmp_spec(&b) == Ordering::Less {
            assert(b.cmp_spec(&a) == Ordering::Greater);
        }
    }
    assert forall|a: T, b: T, c: T| #[trigger] down(a, b) && #[trigger] down(b, c) implies down(a, c) by {
        assert((b.cmp_spec(&a) == Ordering::Greater) == (a.cmp_spec(&b) == Ordering::Less));
        assert((c.cmp_spec(&b) == Ordering::Greater) == (b.cmp_spec(&c) == Ordering::Less));
        assert((c.cmp_spec(&a) == Ordering::Greater) == (a.cmp_spec(&c) == Ordering::Less));
        assert(up(c, b) && up(b, a));
    }
}

/// `ans` gives the comparator's answer on every pair: the comparator can return nothing
/// else.
pub open spec fn answers<T, F: Fn(&T, &T) -> Ordering>(f: F, ans: spec_fn(T, T) -> Ordering) -> bool {
    forall|a: T, b: T, c: Ordering| #[trigger] f.ensures((&a, &b), c) ==> c == ans(a, b)
}

/// A pair answered `c` is out of order for a pass in direction `forward`.
pub open spec fn out_of_order(c: Ordering, forward: bool) -> bool {
    match c {
        Ordering::Greater => forward,
        Ordering::Less => !forward,
        Ordering::Equal => false,
    }
}

/// One compare-and-swap pass over `s[lo..lo + n]`: each mirror pair `(k, k + n / 2)` is
/// exchanged exactly when its answer is out of order; everything else stays.
pub open spec fn cas_pass<T>(s: Seq<T>, lo: int, n: int, forward: bool, ans: spec_fn(T, T) -> Ordering) -> Seq<T> {
    let m = n / 2;
    Seq::new(
        s.len(),
        |k: int|
            if lo <= k < lo + m && out_of_order(ans(s[k], s[k + m]), forward) {
                s[k + m]
            } else if lo + m <= k < lo + 2 * m && out_of_order(ans(s[k - m], s[k]), forward) {
                s[k - m]
            } else {
                s[k]
            },
    )
}

/// The bitonic merge of `s[lo..lo + n]`: a pass, then each half merged in turn.
pub open spec fn merge_pass<T>(s: Seq<T>, lo: int, n: int, forward: bool, ans: spec_fn(T, T) -> Ordering) -> Seq<T>
    decreases n,
{
    if n <= 1 {
        s
    } else {
        let m = n / 2;
        merge_pass(merge_pass(cas_pass(s, lo, n, forward, ans), lo, m, forward, ans), lo + m, n - m, forward, ans)
    }
}

/// The whole network on `s[lo..lo + n]`: first half forward, second half backward, then
/// a merge in direction `forward`.
pub open spec fn network<T>(s: Seq<T>, lo: int, n: int, forward: bool, ans: spec_fn(T, T) -> Ordering) -> Seq<T>
    decreases n,
{
    if n <= 1 {
        s
    } else {
        let m = n / 2;
        merge_pass(network(network(s, lo, m, true, ans), lo + m, n - m, false, ans), lo, n, forward, ans)
    }
}

/// The answers of `Ord::cmp` in the given order: arguments as given, or exchanged.
pub open spec fn ord_answers<T: Ord>(order: SortOrder) -> spec_fn(T, T) -> Ordering {
    match order {
        SortOrder::Ascending => |a: T, b: T| a.cmp_spec(&b),
        SortOrder::Descending => |a: T, b: T| b.cmp_spec(&a),
    }
}

/// The decimal digits of `n`.
pub open spec fn decimal(n: nat) -> Seq<char>
    decreases n,
{
    let d = seq!['0', '1', '2', '3', '4', '5', '6', '7', '8', '9'];
    if n < 10 {
        seq![d[n as int]]
    } else {
        decimal(n / 10).push(d[(n % 10) as int])
    }
}

/// The message that reports an unusable length `n`.
pub open spec fn length_message(n: nat) -> Seq<char> {
    "The length of x is not a power of two. (x.len(): "@ + decimal(n) + ")"@
}

/// Sorts `x` in place in the given order.
/// Fails, leaving `x` untouched, when its length is neither zero nor a power of two.
pub fn sort<T: Ord>(x: &mut [T], order: &SortOrder) -> (r: Result<(), String>)
    ensures
        r.is_ok() == valid_len(old(x)@.len()),
        final(x)@.to_multiset() == old(x)@.to_multiset(),
        r.is_err() ==> final(x)@ == old(x)@,
        r.is_ok() && ord_laws::<T>() ==> sorted_by(final(x)@, ord_order::<T>(*order)),
        r.is_ok() && T::obeys_cmp_spec()
            ==> final(x)@ == network(old(x)@, 0, old(x)@.len() as int, true, ord_answers::<T>(*order)),
        r is Err ==> r->Err_0@ == length_message(old(x)@.len()),
{
    match *order {
        SortOrder::Ascending => {
            let by = |a: &T, b: &T| -> (c: Ordering)
                ensures
                    T::obeys_cmp_spec() ==> c == a.cmp_spec(b),
                { a.cmp(b) };
            let r = sort_by(x, &by);
            proof {
                if T::obeys_cmp_spec() {
                    assert(answers(by, ord_answers::<T>(SortOrder::Ascending)));
                }
                if ord_laws::<T>() {
                    let rel = ord_order::<T>(SortOrder::Ascending);
                    lemma_ord_orders::<T>();
                    assert forall|a: T, b: T, c: Ordering| #[trigger] by.ensures((&a, &b), c) implies match c {
                        Ordering::Less => rel(a, b),
                        Ordering::Equal => rel(a, b) && rel(b, a),
                        Ordering::Greater => rel(b, a),
                    } by {
                        assert((a.cmp_spec(&b) == Ordering::Greater) == (b.cmp_spec(&a) == Ordering::Less));
                        assert((b.cmp_spec(&a) == Ordering::Greater) == (a.cmp_spec(&b) == Ordering::Less));
                    }
                    assert(agrees(by, rel));
                }
            }
            r
        },
        SortOrder::Descending => {
            let by = |a: &T, b: &T| -> (c: Ordering)
                ensures
                    T::obeys_cmp_spec() ==> c == b.cmp_spec(a),
                { b.cmp(a) };
            let r = sort_by(x, &by);
            proof {
                if T::obeys_cmp_spec() {
                    assert(answers(by, ord_answers::<T>(SortOrder::Descending)));
                }
                if ord_laws::<T>() {
                    let rel = ord_order::<T>(SortOrder::Descending);
                    lemma_ord_orders::<T>();
                    assert forall|a: T, b: T, c: Ordering| #[trigger] by.ensures((&a, &b), c) implies match c {
                        Ordering::Less => rel(a, b),
                        Ordering::Equal => rel(a, b) && rel(b, a),
                        Ordering::Greater => rel(b, a),
                    } by {
                        assert((a.cmp_spec(&b) == Ordering::Greater) == (b.cmp_spec(&a) == Ordering::Less));
                        assert((b.cmp_spec(&a) == Ordering::Greater) == (a.cmp_spec(&b) == Ordering::Less));
                    }
                    assert(agrees(by, rel));
                }
            }
            r
        },
    }
}

/// Sorts `x` in place by the comparator. Fails, leaving `x` untouched, when its length is
/// neither zero nor a power of two. On success the result is sorted by every total
/// preorder that the comparator's answers agree with.
pub fn sort_by<T, F: Fn(&T, &T) -> Ordering>(x: &mut [T], comparator: &F) -> (r: Result<(), String>)
    requires
        callable(*comparator),
    ensures
        r.is_ok() == valid_len(old(x)@.len()),
        final(x)@.to_multiset() == old(x)@.to_multiset(),
        r.is_err() ==> final(x)@ == old(x)@,
        forall|rel: spec_fn(T, T) -> bool|
            r.is_ok() && #[trigger] agrees(*comparator, rel) ==> sorted_by(final(x)@, rel),
        forall|ans: spec_fn(T, T) -> Ordering|
            r.is_ok() && #[trigger] answers(*comparator, ans)
                ==> final(x)@ == network(old(x)@, 0, old(x)@.len() as int, true, ans),
        r is Err ==> r->Err_0@ == length_message(old(x)@.len()),
{
    let n = x.len();
    if is_valid_len(n) {
        do_sort(x, 0, n, true, comparator);
        assert(x@.subrange(0, n as int) =~= x@);
        assert(old(x)@.subrange(0, n as int) =~= old(x)@);
        Ok(())
    } else {
        Err(length_error(n))
    }
}

/// Relies on `format!` and `usize`'s `Display`, which writes `n` in decimal digits.
#[verifier::external_body]
fn length_error(n: usize) -> (r: String)
    ensures
        r@ == length_message(n as nat),
{
    format!("The length of x is not a power of two. (x.len(): {})", n)
}

fn do_sort<T, F: Fn(&T, &T) -> Ordering>(x: &mut [T], lo: usize, n: usize, forward: bool, comparator: &F)
    requires
        lo + n <= old(x)@.len() <= usize::MAX,
        callable(*comparator),
    ensures
        final(x)@.len() == old(x)@.len(),
        final(x)@.subrange(lo as int, lo + n).to_multiset() == old(x)@.subrange(lo as int, lo + n).to_multiset(),
        forall|k: int| 0 <= k < lo || lo + n <= k < old(x)@.len() ==> final(x)@[k] == old(x)@[k],
        forall|rel: spec_fn(T, T) -> bool|
            valid_len(n as nat) && #[trigger] agrees(*comparator, rel)
                ==> sorted_by(final(x)@.subrange(lo as int, lo + n), direction(rel, forward)),
        forall|ans: spec_fn(T, T) -> Ordering|
            #[trigger] answers(*comparator, ans) ==> final(x)@ == network(old(x)@, lo as int, n as int, forward, ans),
    decreases n,
{
    if n > 1 {
        let mid = n / 2;
        let ghost x0 = x@;
        do_sort(x, lo, mid, true, comparator);
        let ghost x1 = x@;
        do_sort(x, lo + mid, n - mid, false, comparator);
        let ghost x2 = x@;
        proof {
            let (l, m, h) = (lo as int, (lo + mid) as int, (lo + n) as int);
            assert(x1.subrange(m, h) =~= x0.subrange(m, h));
            lemma_rearranged_part(x0, x1, l, m, h, true);
            assert(x2.subrange(l, m) =~= x1.subrange(l, m));
            lemma_rearranged_part(x1, x2, l, m, h, false);
            if is_pow2(n as nat) {
                let s = x2.subrange(l, h);
                assert(s.subrange(0, mid as int) =~= x1.subrange(l, m));
                assert(s.subrange(mid as int, n as int) =~= x2.subrange(m, h));
                assert forall|rel: spec_fn(T, T) -> bool| #[trigger] agrees(*comparator, rel)
                    implies bitonic_by(s, direction(rel, forward)) by {
                    lemma_flip_orders(rel);
                    assert(sorted_by(s.subrange(0, mid as int), direction(rel, true)));
                    assert(sorted_by(s.subrange(mid as int, n as int), direction(rel, false)));
                    lemma_rise_fall_bitonic(s, mid as int, rel, flip(rel));
                }
            }
        }
        sub_sort(x, lo, n, forward, comparator);
        proof {
            assert forall|ans: spec_fn(T, T) -> Ordering| #[trigger] answers(*comparator, ans)
                implies x@ == network(x0, lo as int, n as int, forward, ans) by {
                assert(x1 == network(x0, lo as int, mid as int, true, ans));
                assert(x2 == network(x1, lo + mid, n - mid, false, ans));
            }
        }
    }
}

fn sub_sort<T, F: Fn(&T, &T) -> Ordering>(x: &mut [T], lo: usize, n: usize, forward: bool, comparator: &F)
    requires
        lo + n <= old(x)@.len() <= usize::MAX,
        callable(*comparator),
    ensures
        final(x)@.len() == old(x)@.len(),
        final(x)@.subrange(lo as int, lo + n).to_multiset() == old(x)@.subrange(lo as int, lo + n).to_multiset(),
        forall|k: int| 0 <= k < lo || lo + n <= k < old(x)@.len() ==> final(x)@[k] == old(x)@[k],
        forall|rel: spec_fn(T, T) -> bool|
            is_pow2(n as nat) && #[trigger] agrees(*comparator, rel)
                && bitonic_by(old(x)@.subrange(lo as int, lo + n), direction(rel, forward))
                ==> sorted_by(final(x)@.subrange(lo as int, lo + n), direction(rel, forward)),
        forall|ans: spec_fn(T, T) -> Ordering|
            #[trigger] answers(*comparator, ans) ==> final(x)@ == merge_pass(old(x)@, lo as int, n as int, forward, ans),
    decreases n,
{
    if n > 1 {
        let ghost x0 = x@;
        compare_and_swap(x, lo, n, forward, comparator);
        let mid = n / 2;
        let ghost x1 = x@;
        proof {
            let (l, m, h) = (lo as int, (lo + mid) as int, (lo + n) as int);
            if is_pow2(n as nat) {
                assert forall|rel: spec_fn(T, T) -> bool|
                    #[trigger] agrees(*comparator, rel) && bitonic_by(x0.subrange(l, h), direction(rel, forward))
                    implies bitonic_by(x1.subrange(l, m), direction(rel, forward))
                        && bitonic_by(x1.subrange(m, h), direction(rel, forward))
                        && (forall|i: int, j: int| 0 <= i < mid <= j < n
                            ==> #[trigger] direction(rel, forward)(x1.subrange(l, h)[i], x1.subrange(l, h)[j])) by {
                    lemma_flip_orders(rel);
                    let r = direction(rel, forward);
                    lemma_merge_step(x0.subrange(l, h), x1.subrange(l, h), mid as int, r);
                    assert(x1.subrange(l, h).subrange(0, mid as int) =~= x1.subrange(l, m));
                    assert(x1.subrange(l, h).subrange(mid as int, n as int) =~= x1.subrange(m, h));
                }
            }
        }
        sub_sort(x, lo, mid, forward, comparator);
        let ghost x2 = x@;
        sub_sort(x, lo + mid, n - mid, forward, comparator);
        let ghost x3 = x@;
        proof {
            let (l, m, h) = (lo as int, (lo + mid) as int, (lo + n) as int);
            assert(x2.subrange(m, h) =~= x1.subrange(m, h));
            lemma_rearranged_part(x1, x2, l, m, h, true);
            assert(x3.subrange(l, m) =~= x2.subrange(l, m));
            lemma_rearranged_part(x2, x3, l, m, h, false);
            if is_pow2(n as nat) {
                assert forall|rel: spec_fn(T, T) -> bool|
                    #[trigger] agrees(*comparator, rel) && bitonic_by(x0.subrange(l, h), direction(rel, forward))
                    implies sorted_by(x3.subrange(l, h), direction(rel, forward)) by {
                    let r = direction(rel, forward);
                    let y1 = x1.subrange(l, h);
                    let y3 = x3.subrange(l, h);
                    assert(sorted_by(x2.subrange(l, m), r));
                    assert(sorted_by(x3.subrange(m, h), r));
                    assert forall|i: int, j: int| 0 <= i < x1.subrange(l, m).len() && 0 <= j < x1.subrange(m, h).len()
                        implies #[trigger] r(x1.subrange(l, m)[i], x1.subrange(m, h)[j]) by {
                        assert(x1.subrange(l, m)[i] == y1[i]);
                        assert(x1.subrange(m, h)[j] == y1[mid + j]);
                        assert(r(y1[i], y1[mid + j]));
                    }
                    lemma_cross_rearranged(x1.subrange(l, m), x1.subrange(m, h), x3.subrange(l, m), x3.subrange(m, h), r);
                    assert(y3.subrange(0, mid as int) =~= x3.subrange(l, m));
                    assert(y3.subrange(mid as int, n as int) =~= x3.subrange(m, h));
                    assert forall|i: int, j: int| 0 <= i < mid <= j < n implies #[trigger] r(y3[i], y3[j]) by {
                        assert(x3.subrange(l, m)[i] == y3[i]);
                        assert(x3.subrange(m, h)[j - mid] == y3[j]);
                    }
                    lemma_join_sorted(y3, mid as int, r);
                }
            }
            assert forall|ans: spec_fn(T, T) -> Ordering| #[trigger] answers(*comparator, ans)
                implies x3 == merge_pass(x0, lo as int, n as int, forward, ans) by {
                assert(x1 == cas_pass(x0, lo as int, n as int, forward, ans));
                assert(x2 == merge_pass(x1, lo as int, mid as int, forward, ans));
                assert(x3 == merge_pass(x2, lo + mid, n - mid, forward, ans));
            }
        }
    }
}

/// After a compare-and-swap in direction `forward`, `a` may stand before `b` under every
/// order the comparator agrees with.
spec fn placed<T, F: Fn(&T, &T) -> Ordering>(f: F, forward: bool, a: T, b: T) -> bool {
    forall|rel: spec_fn(T, T) -> bool| #[trigger] agrees(f, rel) ==> direction(rel, forward)(a, b)
}

/// `a` and `b` are what the pass over `o` puts in the mirror pair `(lo + k, lo + m + k)`,
/// under every answer function of the comparator.
spec fn pair_done<T, F: Fn(&T, &T) -> Ordering>(f: F, o: Seq<T>, lo: int, n: int, m: int, forward: bool, k: int, a: T, b: T) -> bool {
    forall|ans: spec_fn(T, T) -> Ordering|
        #[trigger] answers(f, ans) ==> a == cas_pass(o, lo, n, forward, ans)[lo + k]
            && b == cas_pass(o, lo, n, forward, ans)[lo + m + k]
}

fn compare_and_swap<T, F: Fn(&T, &T) -> Ordering>(x: &mut [T], lo: usize, n: usize, forward: bool, comparator: &F)
    requires
        lo + n <= old(x)@.len() <= usize::MAX,
        callable(*comparator),
    ensures
        final(x)@.len() == old(x)@.len(),
        final(x)@.subrange(lo as int, lo + n).to_multiset() == old(x)@.subrange(lo as int, lo + n).to_multiset(),
        forall|k: int| 0 <= k < lo || lo + n <= k < old(x)@.len() ==> final(x)@[k] == old(x)@[k],
        n % 2 == 1 ==> final(x)@[lo + n - 1] == old(x)@[lo + n - 1],
        forall|ans: spec_fn(T, T) -> Ordering|
            #[trigger] answers(*comparator, ans) ==> final(x)@ == cas_pass(old(x)@, lo as int, n as int, forward, ans),
        forall|rel: spec_fn(T, T) -> bool|
            #[trigger] agrees(*comparator, rel) ==> cleaned_pairs(
                old(x)@.subrange(lo as int, lo + n),
                final(x)@.subrange(lo as int, lo + n),
                (n / 2) as int,
                direction(rel, forward),
            ),
{
    let len = x.len();
    let mid = n / 2;
    let ghost o = x@;
    let mut i: usize = 0;
    while i < mid
        invariant
            mid == n / 2,
            i <= mid,
            lo + n <= x@.len(),
            x@.len() == o.len(),
            x@.len() == len,
            o == old(x)@,
            callable(*comparator),
            x@.subrange(lo as int, lo + n).to_multiset() == o.subrange(lo as int, lo + n).to_multiset(),
            forall|k: int| 0 <= k < lo || lo + 2 * mid <= k < o.len() ==> x@[k] == o[k],
            forall|k: int|
                0 <= k < i ==> {
                    &&& (x@[lo + k] == o[lo + k] && x@[lo + mid + k] == o[lo + mid + k])
                        || (x@[lo + k] == o[lo + mid + k] && x@[lo + mid + k] == o[lo + k])
                    &&& placed(*comparator, forward, #[trigger] x@[lo + k], x@[lo + mid + k])
                    &&& pair_done(*comparator, o, lo as int, n as int, mid as int, forward, k, x@[lo + k], x@[lo + mid + k])
                },
            forall|k: int| i <= k < mid ==> #[trigger] x@[lo + k] == o[lo + k] && x@[lo + mid + k] == o[lo + mid + k],
        decreases mid - i,
    {
        let ghost x_before = x@;
        let c = comparator(&x[lo + i], &x[lo + mid + i]);
        let wrong_way = match c {
            Ordering::Greater => forward,
            Ordering::Less => !forward,
            Ordering::Equal => false,
        };
        let ghost a = x@[lo + i];
        let ghost b = x@[lo + mid + i];
        proof {
            if wrong_way {
                assert forall|rel: spec_fn(T, T) -> bool| #[trigger] agrees(*comparator, rel)
                    implies direction(rel, forward)(b, a) by {
                    assert(comparator.ensures((&a, &b), c));
                }
                assert(placed(*comparator, forward, b, a));
            } else {
                assert forall|rel: spec_fn(T, T) -> bool| #[trigger] agrees(*comparator, rel)
                    implies direction(rel, forward)(a, b) by {
                    assert(comparator.ensures((&a, &b), c));
                }
                assert(placed(*comparator, forward, a, b));
            }
        }
        if wrong_way {
            proof {
                let s = x@.subrange(lo as int, lo + n);
                lemma_swap_multiset(s, i as int, (mid + i) as int);
                assert(swapped(x@, (lo + i) as int, (lo + mid + i) as int).subrange(lo as int, lo + n)
                    =~= swapped(s, i as int, (mid + i) as int));
            }
            swap_at(x, lo + i, lo + mid + i);
        }
        proof {
            assert forall|k: int| 0 <= k < i implies #[trigger] x@[lo + k] == x_before[lo + k]
                && x@[lo + mid + k] == x_before[lo + mid + k] by {}
            assert(placed(*comparator, forward, x@[lo + i], x@[lo + mid + i]));
            assert forall|ans: spec_fn(T, T) -> Ordering| #[trigger] answers(*comparator, ans)
                implies x@[lo + i] == cas_pass(o, lo as int, n as int, forward, ans)[lo + i]
                    && x@[lo + mid + i] == cas_pass(o, lo as int, n as int, forward, ans)[lo + mid + i] by {
                assert(comparator.ensures((&a, &b), c));
                assert(a == o[lo + i] && b == o[lo + mid + i]);
                assert(wrong_way == out_of_order(ans(a, b), forward));
            }
            assert(pair_done(*comparator, o, lo as int, n as int, mid as int, forward, i as int, x@[lo + i], x@[lo + mid + i]));
            assert forall|k: int| 0 <= k < i + 1 implies {
                &&& (x@[lo + k] == o[lo + k] && x@[lo + mid + k] == o[lo + mid + k])
                    || (x@[lo + k] == o[lo + mid + k] && x@[lo + mid + k] == o[lo + k])
                &&& placed(*comparator, forward, #[trigger] x@[lo + k], x@[lo + mid + k])
                &&& pair_done(*comparator, o, lo as int, n as int, mid as int, forward, k, x@[lo + k], x@[lo + mid + k])
            } by {
                if k < i {
                    assert(x@[lo + k] == x_before[lo + k]);
                }
            }
        }
        i += 1;
    }
    proof {
        assert forall|ans: spec_fn(T, T) -> Ordering| #[trigger] answers(*comparator, ans)
            implies x@ =~= cas_pass(o, lo as int, n as int, forward, ans) by {
            assert forall|k: int| 0 <= k < x@.len() implies x@[k] == cas_pass(o, lo as int, n as int, forward, ans)[k] by {
                if lo <= k < lo + mid {
                    assert(pair_done(*comparator, o, lo as int, n as int, mid as int, forward, k - lo, x@[lo + (k - lo)], x@[lo + mid + (k - lo)]));
                } else if lo + mid <= k < lo + 2 * mid {
                    assert(pair_done(*comparator, o, lo as int, n as int, mid as int, forward, k - lo - mid, x@[lo + (k - lo - mid)], x@[lo + mid + (k - lo - mid)]));
                }
            }
        }
        {
            let s = o.subrange(lo as int, lo + n);
            let y = x@.subrange(lo as int, lo + n);
            assert forall|rel: spec_fn(T, T) -> bool| #[trigger] agrees(*comparator, rel)
                implies cleaned_pairs(s, y, mid as int, direction(rel, forward)) by {
                assert forall|k: int| 0 <= k < mid implies {
                    &&& (#[trigger] y[k] == s[k] && y[k + mid] == s[k + mid]) || (y[k] == s[k + mid] && y[k + mid] == s[k])
                    &&& direction(rel, forward)(y[k], y[k + mid])
                } by {
                    assert(placed(*comparator, forward, x@[lo + k], x@[lo + mid + k]));
                }
            }
        }
    }
}

/// Sorting by a comparator a sequence already in its order gives it back unchanged,
/// when the comparator agrees with an order that has no ties between distinct elements.
pub proof fn lemma_sort_by_sorted_unchanged<T, F: Fn(&T, &T) -> Ordering>(
    x: Seq<T>,
    y: Seq<T>,
    comparator: F,
    rel: spec_fn(T, T) -> bool,
)
    requires
        agrees(comparator, rel),
        forall|a: T, b: T| #[trigger] rel(a, b) && #[trigger] rel(b, a) ==> a == b,
        valid_len(x.len()),
        sorted_by(x, rel),
        y.to_multiset() == x.to_multiset(),
        forall|r: spec_fn(T, T) -> bool| #[trigger] agrees(comparator, r) ==> sorted_by(y, r),
    ensures
        y == x,
{
    lemma_sorted_is_unique(x, y, rel);
}

/// Sorting a sequence already in the requested order gives it back unchanged, for a
/// type whose `Ord` obeys its laws and calls only equal values `Equal`.
pub proof fn lemma_sort_sorted_unchanged<T: Ord>(x: Seq<T>, y: Seq<T>, order: SortOrder)
    requires
        ord_laws::<T>(),
        forall|a: T, b: T| #[trigger] a.cmp_spec(&b) == Ordering::Equal ==> a == b,
        valid_len(x.len()),
        sorted_by(x, ord_order::<T>(order)),
        y.to_multiset() == x.to_multiset(),
        sorted_by(y, ord_order::<T>(order)),
    ensures
        y == x,
{
    lemma_ord_orders::<T>();
    let r = ord_order::<T>(order);
    assert forall|a: T, b: T| #[trigger] r(a, b) && #[trigger] r(b, a) implies a == b by {
        assert((a.cmp_spec(&b) == Ordering::Greater) == (b.cmp_spec(&a) == Ordering::Less));
        assert((b.cmp_spec(&a) == Ordering::Greater) == (a.cmp_spec(&b) == Ordering::Less));
        assert(a.cmp_spec(&b) == Ordering::Equal);
    }
    lemma_sorted_is_unique(x, y, r);
}

/// Two comparators that give the same answer on every pair, such as a chained comparator
/// (primary key, then secondary key on ties) and a comparator on the combined key, sort a
/// sequence to the same result.
pub proof fn lemma_same_answers_same_result<T, F: Fn(&T, &T) -> Ordering, G: Fn(&T, &T) -> Ordering>(
    x: Seq<T>,
    y1: Seq<T>,
    y2: Seq<T>,
    f: F,
    g: G,
    ans: spec_fn(T, T) -> Ordering,
)
    requires
        answers(f, ans),
        answers(g, ans),
        forall|a: spec_fn(T, T) -> Ordering| #[trigger] answers(f, a) ==> y1 == network(x, 0, x.len() as int, true, a),
        forall|a: spec_fn(T, T) -> Ordering| #[trigger] answers(g, a) ==> y2 == network(x, 0, x.len() as int, true, a),
    ensures
        y1 == y2,
{
}

/// `sort` in an order gives what `sort_by` gives with a comparator that answers as
/// `Ord::cmp` does with its arguments as given (ascending) or exchanged (descending).
pub proof fn lemma_sort_is_sort_by<T: Ord, F: Fn(&T, &T) -> Ordering>(
    x: Seq<T>,
    y_sort: Seq<T>,
    y_by: Seq<T>,
    order: SortOrder,
    comparator: F,
)
    requires
        T::obeys_cmp_spec(),
        answers(comparator, ord_answers::<T>(order)),
        y_sort == network(x, 0, x.len() as int, true, ord_answers::<T>(order)),
        forall|a: spec_fn(T, T) -> Ordering| #[trigger] answers(comparator, a) ==> y_by == network(x, 0, x.len() as int, true, a),
    ensures
        y_sort == y_by,
{
}

} // verus!
