//! What a comparator is taken to promise, and what follows for a slice.

use crate::exchange::{arranges, size};
use core::cmp::Ordering;
use vstd::prelude::*;

verus! {

/// The comparator may be called on every pair of elements of `dom`.
pub open spec fn callable_on<T, C: Fn(&T, &T) -> Ordering>(compare: &C, dom: Set<T>) -> bool {
    forall|a: T, b: T|
        dom.contains(a) && dom.contains(b) ==> #[trigger] compare.requires((&a, &b))
}

/// The answer that a three-way comparison by `le` gives for `a` against `b`.
pub open spec fn three_way<T>(le: spec_fn(T, T) -> bool, a: T, b: T) -> Ordering {
    if !le(b, a) {
        Ordering::Less
    } else if le(a, b) {
        Ordering::Equal
    } else {
        Ordering::Greater
    }
}

/// One instance of transitivity: from `a <= b` and `b <= c` follows `a <= c`.
pub open spec fn chains<T>(le: spec_fn(T, T) -> bool, a: T, b: T, c: T) -> bool {
    le(a, b) && le(b, c) ==> le(a, c)
}

/// `le` is a total preorder on `dom`: any two elements are comparable, and
/// the relation is transitive.
pub open spec fn total_preorder_on<T>(le: spec_fn(T, T) -> bool, dom: Set<T>) -> bool {
    &&& forall|a: T, b: T|
        dom.contains(a) && dom.contains(b) ==> #[trigger] le(a, b) || le(b, a)
    &&& forall|a: T, b: T, c: T|
        dom.contains(a) && dom.contains(b) && dom.contains(c) ==> #[trigger] chains(le, a, b, c)
}

/// Whatever the comparator returns for two elements of `dom` is the
/// three-way answer by `le`.
pub open spec fn answers_by<T, C: Fn(&T, &T) -> Ordering>(
    compare: &C,
    le: spec_fn(T, T) -> bool,
    dom: Set<T>,
) -> bool {
    forall|a: T, b: T, o: Ordering|
        dom.contains(a) && dom.contains(b) && #[trigger] compare.ensures((&a, &b), o) ==> o
            == three_way(le, a, b)
}

/// The comparator is a valid one on `dom`: it answers by `le`, and `le` is a
/// total preorder there.
pub open spec fn orders<T, C: Fn(&T, &T) -> Ordering>(
    compare: &C,
    le: spec_fn(T, T) -> bool,
    dom: Set<T>,
) -> bool {
    &&& total_preorder_on(le, dom)
    &&& answers_by(compare, le, dom)
}

/// Every element of `s` belongs to `dom`.
pub open spec fn within<T>(s: Seq<T>, dom: Set<T>) -> bool {
    forall|i: int| 0 <= i < s.len() ==> dom.contains(#[trigger] s[i])
}

/// The element at position `a` of `s` is no greater than the one at `b`.
pub open spec fn le_at<T>(s: Seq<T>, le: spec_fn(T, T) -> bool, a: usize, b: usize) -> bool {
    le(s[a as int], s[b as int])
}

/// The positions `lo..hi` of `s` are in order by `le`.
pub open spec fn sorted_range<T>(s: Seq<T>, le: spec_fn(T, T) -> bool, lo: int, hi: int) -> bool {
    forall|i: int, j: int| lo <= i < j < hi ==> #[trigger] le(s[i], s[j])
}

/// The positions `lo..hi` of `s` hold elements strictly below `p`.
pub open spec fn below<T>(s: Seq<T>, le: spec_fn(T, T) -> bool, p: T, lo: int, hi: int) -> bool {
    forall|i: int| lo <= i < hi ==> !le(p, #[trigger] s[i])
}

/// The positions `lo..hi` of `s` hold elements strictly above `p`.
pub open spec fn above<T>(s: Seq<T>, le: spec_fn(T, T) -> bool, p: T, lo: int, hi: int) -> bool {
    forall|i: int| lo <= i < hi ==> !le(#[trigger] s[i], p)
}

/// The positions `lo..hi` of `s` hold elements that are level with `p`:
/// neither below nor above it.
pub open spec fn level<T>(s: Seq<T>, le: spec_fn(T, T) -> bool, p: T, lo: int, hi: int) -> bool {
    forall|i: int| lo <= i < hi ==> le(#[trigger] s[i], p) && le(p, s[i])
}

/// The positions `lo..hi` of `s` hold elements from `p` to `q`, both
/// included.
pub open spec fn between<T>(
    s: Seq<T>,
    le: spec_fn(T, T) -> bool,
    p: T,
    q: T,
    lo: int,
    hi: int,
) -> bool {
    forall|i: int| lo <= i < hi ==> le(p, #[trigger] s[i]) && le(s[i], q)
}

/// For no element of `s` and the next can the comparator answer `Greater`.
pub open spec fn never_greater<T, C: Fn(&T, &T) -> Ordering>(compare: &C, s: Seq<T>) -> bool {
    forall|i: int, o: Ordering|
        0 <= i && i + 1 < s.len() && #[trigger] compare.ensures((&s[i], &s[i + 1]), o) ==> o
            != Ordering::Greater
}

/// Among the first `hi` elements of `s`, those that are not below an
/// earlier one stood behind it before.
pub open spec fn level_order_upto<T>(
    origin: Seq<int>,
    s: Seq<T>,
    le: spec_fn(T, T) -> bool,
    hi: int,
) -> bool {
    forall|i: int, j: int|
        0 <= i < j < hi && #[trigger] le(s[j], s[i]) ==> origin[i] < origin[j]
}

/// `after` holds the elements of `before`, and where the comparator is a
/// valid one, those that it holds level stand in the order in which they
/// stood in `before`.
pub open spec fn stably_arranged<T, C: Fn(&T, &T) -> Ordering>(
    compare: &C,
    before: Seq<T>,
    after: Seq<T>,
) -> bool {
    exists|origin: Seq<int>| #[trigger]
        arranges(origin, before, after) && forall|le: spec_fn(T, T) -> bool| #[trigger]
            orders(compare, le, before.to_set()) ==> level_order_upto(
                origin,
                after,
                le,
                size(after),
            )
}

/// A sequence holds elements of its own set of elements.
pub proof fn lemma_within_own_set<T>(s: Seq<T>)
    ensures
        within(s, s.to_set()),
{
    assert forall|i: int| 0 <= i < s.len() implies s.to_set().contains(#[trigger] s[i]) by {
        assert(s.contains(s[i]));
    }
}

/// Two sequences with the same multiset of elements have the same set of
/// elements.
pub proof fn lemma_same_elements<T>(s: Seq<T>, t: Seq<T>)
    requires
        s.to_multiset() == t.to_multiset(),
    ensures
        s.to_set() == t.to_set(),
        s.len() == t.len(),
{
    broadcast use vstd::seq_lib::group_to_multiset_ensures;

    assert(s.len() == s.to_multiset().len());
    assert(t.len() == t.to_multiset().len());
    assert forall|x: T| s.to_set().contains(x) == t.to_set().contains(x) by {
        assert(s.contains(x) <==> s.to_multiset().count(x) > 0);
        assert(t.contains(x) <==> t.to_multiset().count(x) > 0);
    }
    assert(s.to_set() =~= t.to_set());
}

/// A rearrangement of elements of `dom` holds elements of `dom`.
pub proof fn lemma_rearranged_within<T>(s: Seq<T>, t: Seq<T>, dom: Set<T>)
    requires
        s.to_multiset() == t.to_multiset(),
        within(s, dom),
    ensures
        within(t, dom),
{
    lemma_same_elements(s, t);
    assert forall|i: int| 0 <= i < t.len() implies dom.contains(#[trigger] t[i]) by {
        assert(t.contains(t[i]));
        assert(t.to_set().contains(t[i]));
        assert(s.contains(t[i]));
    }
}

/// The elements of a part of a sequence are elements of the sequence.
pub proof fn lemma_part_within<T>(s: Seq<T>, dom: Set<T>, lo: int, hi: int)
    requires
        within(s, dom),
        0 <= lo <= hi <= s.len(),
    ensures
        s.subrange(lo, hi).to_set().subset_of(dom),
{
    let part = s.subrange(lo, hi);
    assert forall|x: T| part.to_set().contains(x) implies dom.contains(x) by {
        let k = choose|k: int| 0 <= k < part.len() && part[k] == x;
        assert(part[k] == s[lo + k]);
    }
}

/// Calling a comparator on fewer elements asks no more of it.
pub proof fn lemma_callable_on_subset<T, C: Fn(&T, &T) -> Ordering>(
    compare: &C,
    big: Set<T>,
    small: Set<T>,
)
    requires
        callable_on(compare, big),
        small.subset_of(big),
    ensures
        callable_on(compare, small),
{
}

/// A comparator that is valid on a set is valid on each of its subsets.
pub proof fn lemma_orders_subset<T, C: Fn(&T, &T) -> Ordering>(
    compare: &C,
    le: spec_fn(T, T) -> bool,
    big: Set<T>,
    small: Set<T>,
)
    requires
        orders(compare, le, big),
        small.subset_of(big),
    ensures
        orders(compare, le, small),
{
}

/// A sequence left as it is holds its elements in the order in which they
/// stood.
pub proof fn lemma_unmoved_is_stable<T, C: Fn(&T, &T) -> Ordering>(compare: &C, s: Seq<T>)
    ensures
        stably_arranged(compare, s, s),
{
    let origin = Seq::new(s.len(), |k: int| k);
    assert(arranges(origin, s, s));
    assert forall|le: spec_fn(T, T) -> bool| #[trigger]
        orders(compare, le, s.to_set()) implies level_order_upto(
        origin,
        s,
        le,
        size(s),
    ) by {}
}

} // verus!
