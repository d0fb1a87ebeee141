//! Exchanging elements of a slice in place.

use vstd::prelude::*;

verus! {

/// The position `i` as an index into a sequence.
#[verifier::inline]
pub open spec fn idx(i: usize) -> int {
    i as int
}

/// The length of `s` as an index, one past its last position.
#[verifier::inline]
pub open spec fn size<T>(s: Seq<T>) -> int {
    s.len() as int
}

/// The sequence `s` with the elements at `a` and `b` exchanged.
pub open spec fn swapped<T>(s: Seq<T>, a: int, b: int) -> Seq<T> {
    s.update(a, s[b]).update(b, s[a])
}

/// The sequence `s` after `k` exchanges: of `a` with `b`, of `a + 1` with
/// `b + 1`, and so on.
pub open spec fn pairs_swapped<T>(s: Seq<T>, a: int, b: int, k: int) -> Seq<T>
    decreases k,
{
    if k <= 0 {
        s
    } else {
        swapped(pairs_swapped(s, a, b, k - 1), a + k - 1, b + k - 1)
    }
}

/// The sequence `s` with the `k` elements from `a` on exchanged, each at its
/// offset, with the `k` elements from `b` on.
pub open spec fn blocks_swapped<T>(s: Seq<T>, a: int, b: int, k: int) -> Seq<T> {
    Seq::new(
        s.len(),
        |i: int|
            if a <= i < a + k {
                s[i - a + b]
            } else if b <= i < b + k {
                s[i - b + a]
            } else {
                s[i]
            },
    )
}

/// `t` rearranges the positions `lo..hi` of `s` and keeps the others in
/// place.
pub open spec fn rearranges_range<T>(s: Seq<T>, t: Seq<T>, lo: int, hi: int) -> bool {
    &&& t.len() == s.len()
    &&& t.subrange(lo, hi).to_multiset() == s.subrange(lo, hi).to_multiset()
    &&& forall|i: int| 0 <= i < s.len() && !(lo <= i < hi) ==> #[trigger] t[i] == s[i]
}

/// `origin` names for each position of `after` the position of `before` at
/// which its element stood, and names no position twice.
pub open spec fn arranges<T>(origin: Seq<int>, before: Seq<T>, after: Seq<T>) -> bool {
    &&& origin.len() == before.len()
    &&& after.len() == before.len()
    &&& forall|i: int|
        0 <= i < after.len() ==> 0 <= #[trigger] origin[i] < before.len() && after[i]
            == before[origin[i]]
    &&& forall|i: int, j: int|
        0 <= i < j < origin.len() ==> #[trigger] origin[i] != #[trigger] origin[j]
}

/// Exchanging two elements keeps the multiset of elements.
pub proof fn lemma_swapped_multiset<T>(s: Seq<T>, a: int, b: int)
    requires
        0 <= a < s.len(),
        0 <= b < s.len(),
    ensures
        swapped(s, a, b).to_multiset() == s.to_multiset(),
{
    broadcast use vstd::seq_lib::group_to_multiset_ensures;
    broadcast use vstd::multiset::group_multiset_axioms;

    let t = s.update(a, s[b]);
    assert(t.to_multiset() == s.to_multiset().insert(s[b]).remove(s[a]));
    assert(t.update(b, s[a]).to_multiset() == t.to_multiset().insert(s[a]).remove(t[b]));
    assert(s.to_multiset().count(s[a]) > 0) by {
        assert(s.contains(s[a]));
    }
    assert(s.to_multiset().count(s[b]) > 0) by {
        assert(s.contains(s[b]));
    }
    assert(swapped(s, a, b).to_multiset() =~= s.to_multiset());
}

/// Where the two blocks do not overlap, exchanging them pair by pair
/// exchanges the blocks.
pub proof fn lemma_pairs_are_blocks<T>(s: Seq<T>, a: int, b: int, k: int)
    requires
        0 <= a,
        0 <= b,
        0 <= k,
        a + k <= s.len(),
        b + k <= s.len(),
        a + k <= b || b + k <= a,
    ensures
        pairs_swapped(s, a, b, k) == blocks_swapped(s, a, b, k),
    decreases k,
{
    if k > 0 {
        lemma_pairs_are_blocks(s, a, b, k - 1);
    }
    assert(pairs_swapped(s, a, b, k) =~= blocks_swapped(s, a, b, k));
}

/// An exchange inside a range rearranges the range.
pub proof fn lemma_swapped_range<T>(s: Seq<T>, a: int, b: int, lo: int, hi: int)
    requires
        0 <= lo <= a < hi,
        lo <= b < hi,
        hi <= s.len(),
    ensures
        rearranges_range(s, swapped(s, a, b), lo, hi),
{
    let t = swapped(s, a, b);
    assert(t.subrange(lo, hi) =~= swapped(s.subrange(lo, hi), a - lo, b - lo));
    lemma_swapped_multiset(s.subrange(lo, hi), a - lo, b - lo);
}

/// Rearranging a range twice rearranges it.
pub proof fn lemma_rearranged_twice<T>(s: Seq<T>, t: Seq<T>, u: Seq<T>, lo: int, hi: int)
    requires
        rearranges_range(s, t, lo, hi),
        rearranges_range(t, u, lo, hi),
    ensures
        rearranges_range(s, u, lo, hi),
{
    assert forall|i: int| 0 <= i < s.len() && !(lo <= i < hi) implies #[trigger] u[i] == s[i] by {
        assert(u[i] == t[i]);
    }
}

/// Each element of a rearranged range was in the range before, and each of
/// the others was at its place.
pub proof fn lemma_range_element<T>(s: Seq<T>, t: Seq<T>, lo: int, hi: int, i: int) -> (j: int)
    requires
        rearranges_range(s, t, lo, hi),
        0 <= lo <= hi <= s.len(),
        0 <= i < s.len(),
    ensures
        s[j] == t[i],
        lo <= i < hi ==> lo <= j < hi,
        !(lo <= i < hi) ==> j == i,
{
    broadcast use vstd::seq_lib::group_to_multiset_ensures;

    if lo <= i < hi {
        let x = t[i];
        assert(t.subrange(lo, hi)[i - lo] == x);
        assert(t.subrange(lo, hi).contains(x));
        assert(t.subrange(lo, hi).to_multiset().count(x) > 0);
        assert(s.subrange(lo, hi).contains(x));
        let k = choose|k: int| 0 <= k < hi - lo && s.subrange(lo, hi)[k] == x;
        lo + k
    } else {
        i
    }
}

/// A rearrangement of a range keeps the multiset of all elements.
pub proof fn lemma_range_multiset<T>(s: Seq<T>, t: Seq<T>, lo: int, hi: int)
    requires
        rearranges_range(s, t, lo, hi),
        0 <= lo <= hi <= s.len(),
    ensures
        t.to_multiset() == s.to_multiset(),
{
    let n = s.len() as int;
    assert(s =~= s.subrange(0, lo) + s.subrange(lo, hi) + s.subrange(hi, n));
    assert(t =~= t.subrange(0, lo) + t.subrange(lo, hi) + t.subrange(hi, n));
    assert(t.subrange(0, lo) =~= s.subrange(0, lo));
    assert(t.subrange(hi, n) =~= s.subrange(hi, n));
    vstd::seq_lib::lemma_multiset_commutative(s.subrange(0, lo), s.subrange(lo, hi));
    vstd::seq_lib::lemma_multiset_commutative(
        s.subrange(0, lo) + s.subrange(lo, hi),
        s.subrange(hi, n),
    );
    vstd::seq_lib::lemma_multiset_commutative(t.subrange(0, lo), t.subrange(lo, hi));
    vstd::seq_lib::lemma_multiset_commutative(
        t.subrange(0, lo) + t.subrange(lo, hi),
        t.subrange(hi, n),
    );
}

/// Two sequences of at most one element with the same elements are equal.
pub proof fn lemma_short_rearranged<T>(s: Seq<T>, t: Seq<T>)
    requires
        s.to_multiset() == t.to_multiset(),
        s.len() <= 1,
    ensures
        t == s,
{
    broadcast use vstd::seq_lib::group_to_multiset_ensures;

    assert(s.len() == s.to_multiset().len());
    assert(t.len() == t.to_multiset().len());
    if s.len() == 1 {
        assert(t.contains(t[0]));
        assert(t.to_multiset().count(t[0]) > 0);
        assert(s.contains(t[0]));
    }
    assert(t =~= s);
}

/// An exchange of two elements is an exchange of their origins.
pub proof fn lemma_arranges_swapped<T>(origin: Seq<int>, before: Seq<T>, s: Seq<T>, a: int, b: int)
    requires
        arranges(origin, before, s),
        0 <= a < s.len(),
        0 <= b < s.len(),
    ensures
        arranges(swapped(origin, a, b), before, swapped(s, a, b)),
{
    let o2 = swapped(origin, a, b);
    let s2 = swapped(s, a, b);
    assert forall|i: int| 0 <= i < s2.len() implies 0 <= #[trigger] o2[i] < before.len() && s2[i]
        == before[o2[i]] by {
        let i0 = if i == a {
            b
        } else if i == b {
            a
        } else {
            i
        };
        assert(o2[i] == origin[i0]);
        assert(s2[i] == s[i0]);
    }
    assert forall|i: int, j: int| 0 <= i < j < o2.len() implies #[trigger] o2[i]
        != #[trigger] o2[j] by {
        let i0 = if i == a {
            b
        } else if i == b {
            a
        } else {
            i
        };
        let j0 = if j == a {
            b
        } else if j == b {
            a
        } else {
            j
        };
        assert(o2[i] == origin[i0]);
        assert(o2[j] == origin[j0]);
        if i0 < j0 {
            assert(origin[i0] != origin[j0]);
        } else {
            assert(origin[j0] != origin[i0]);
        }
    }
}

/// Exchanges the elements at `a` and `b`.
pub fn swap_at<T>(v: &mut [T], a: usize, b: usize)
    requires
        a < old(v)@.len(),
        b < old(v)@.len(),
    ensures
        final(v)@ == swapped(old(v)@, a as int, b as int),
        final(v)@.to_multiset() == old(v)@.to_multiset(),
{
    proof {
        lemma_swapped_multiset(v@, a as int, b as int);
    }
    if a == b {
        assert(v@ =~= swapped(v@, a as int, b as int));
        return ;
    }
    let (lo, hi) = if a < b {
        (a, b)
    } else {
        (b, a)
    };
    let (left, right) = v.split_at_mut(hi);
    core::mem::swap(&mut left[lo], &mut right[0]);
    assert(v@ =~= swapped(old(v)@, a as int, b as int));
}

/// Exchanges the `k` elements from `a` on with the `k` elements from `b` on,
/// pair by pair.
pub fn swap_many<T>(v: &mut [T], a: usize, b: usize, k: usize)
    requires
        a + k <= old(v)@.len(),
        b + k <= old(v)@.len(),
    ensures
        final(v)@ == pairs_swapped(old(v)@, a as int, b as int, k as int),
        final(v)@.to_multiset() == old(v)@.to_multiset(),
        final(v)@.len() == old(v)@.len(),
{
    let ghost first = v@;
    let n = v.len();
    let mut i: usize = 0;
    while i < k
        invariant
            i <= k,
            v@.len() == n,
            n == first.len(),
            a + k <= n,
            b + k <= n,
            v@.to_multiset() == first.to_multiset(),
            v@ == pairs_swapped(first, a as int, b as int, i as int),
        decreases k - i,
    {
        swap_at(v, a + i, b + i);
        i += 1;
    }
}

/// The positions `lo..hi` of the slice, to be changed in place.
pub fn part<T>(v: &mut [T], lo: usize, hi: usize) -> (r: &mut [T])
    requires
        lo <= hi <= old(v)@.len(),
    ensures
        r@ == old(v)@.subrange(lo as int, hi as int),
        final(v)@ == old(v)@.subrange(0, lo as int) + final(r)@ + old(v)@.subrange(
            hi as int,
            old(v)@.len() as int,
        ),
{
    let (front, _) = v.split_at_mut(hi);
    let (_, r) = front.split_at_mut(lo);
    r
}

} // verus!
