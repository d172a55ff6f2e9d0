// Lengths the network accepts, element swaps, and multiset facts about ranges.
use vstd::prelude::*;

verus! {

broadcast use vstd::seq_lib::group_to_multiset_ensures;

/// `n` is a power of two (1, 2, 4, ...).
pub open spec fn is_pow2(n: nat) -> bool
    decreases n,
{
    if n == 0 {
        false
    } else if n == 1 {
        true
    } else {
        n % 2 == 0 && is_pow2(n / 2)
    }
}

/// A length the bitonic network accepts: empty, or a power of two.
pub open spec fn valid_len(n: nat) -> bool {
    n == 0 || is_pow2(n)
}

/// `s` with the elements at `i` and `j` exchanged.
pub open spec fn swapped<A>(s: Seq<A>, i: int, j: int) -> Seq<A> {
    s.update(i, s[j]).update(j, s[i])
}

/// Exchanging two elements keeps the multiset of elements.
pub proof fn lemma_swap_multiset<A>(s: Seq<A>, i: int, j: int)
    requires
        0 <= i < s.len(),
        0 <= j < s.len(),
    ensures
        swapped(s, i, j).to_multiset() =~= s.to_multiset(),
{
    broadcast use vstd::seq_lib::to_multiset_update;

    let s1 = s.update(i, s[j]);
    assert(s1.to_multiset() == s.to_multiset().insert(s[j]).remove(s[i]));
    assert(s1.update(j, s[i]).to_multiset() == s1.to_multiset().insert(s[i]).remove(s1[j]));
    if i == j {
        assert(s1 =~= s);
        assert(s1.update(j, s[i]) =~= s);
    } else {
        assert(s1[j] == s[j]);
        assert(s.to_multiset().count(s[i]) > 0);
    }
}

/// Relies on `<[T]>::swap`: the elements at `i` and `j` trade places.
#[verifier::external_body]
pub(crate) fn swap_at<T>(x: &mut [T], i: usize, j: usize)
    requires
        i < old(x)@.len(),
        j < old(x)@.len(),
    ensures
        final(x)@ == swapped(old(x)@, i as int, j as int),
{
    x.swap(i, j)
}

/// Whether `n` is a power of two, or zero.
pub fn is_valid_len(n: usize) -> (r: bool)
    ensures
        r == valid_len(n as nat),
{
    if n == 0 {
        return true;
    }
    let mut m: usize = n;
    while m > 1 && m % 2 == 0
        invariant
            m >= 1,
            is_pow2(n as nat) == is_pow2(m as nat),
        decreases m,
    {
        m = m / 2;
    }
    m == 1
}

/// The multiset of a range is the sum of the multisets of its two parts.
pub proof fn lemma_split_multiset<A>(s: Seq<A>, lo: int, mid: int, hi: int)
    requires
        0 <= lo <= mid <= hi <= s.len(),
    ensures
        s.subrange(lo, hi).to_multiset() == s.subrange(lo, mid).to_multiset().add(
            s.subrange(mid, hi).to_multiset(),
        ),
{
    assert(s.subrange(lo, hi) =~= s.subrange(lo, mid) + s.subrange(mid, hi));
    vstd::seq_lib::lemma_multiset_commutative(s.subrange(lo, mid), s.subrange(mid, hi));
}

/// Rearranging one part of a range, and leaving the other, keeps the range's multiset.
pub proof fn lemma_rearranged_part<A>(a: Seq<A>, b: Seq<A>, lo: int, mid: int, hi: int, first: bool)
    requires
        0 <= lo <= mid <= hi <= a.len(),
        a.len() == b.len(),
        first ==> a.subrange(lo, mid).to_multiset() == b.subrange(lo, mid).to_multiset()
            && a.subrange(mid, hi) == b.subrange(mid, hi),
        !first ==> a.subrange(mid, hi).to_multiset() == b.subrange(mid, hi).to_multiset()
            && a.subrange(lo, mid) == b.subrange(lo, mid),
    ensures
        a.subrange(lo, hi).to_multiset() == b.subrange(lo, hi).to_multiset(),
{
    lemma_split_multiset(a, lo, mid, hi);
    lemma_split_multiset(b, lo, mid, hi);
}

} // verus!
