//! What holds of every sort of this library, proved from the contracts of
//! the entry points.

use crate::order::{
    chains, lemma_rearranged_within, lemma_same_elements, lemma_within_own_set,
    orders, three_way, total_preorder_on, within,
};
use core::cmp::Ordering;
use vstd::prelude::*;
use vstd::relations::sorted_by;

verus! {

/// On `dom`, two elements of which each is no greater than the other are
/// one and the same: the total preorder `le` is a total order there.
pub open spec fn antisymmetric_on<T>(le: spec_fn(T, T) -> bool, dom: Set<T>) -> bool {
    forall|a: T, b: T|
        dom.contains(a) && dom.contains(b) && #[trigger] le(a, b) && le(b, a) ==> a == b
}

/// `reverse` answers for two elements of `dom` what `compare` answers for
/// them the other way round.
pub open spec fn reverses<T, C: Fn(&T, &T) -> Ordering, R: Fn(&T, &T) -> Ordering>(
    reverse: &R,
    compare: &C,
    dom: Set<T>,
) -> bool {
    forall|a: T, b: T, o: Ordering|
        dom.contains(a) && dom.contains(b) && #[trigger] reverse.ensures((&a, &b), o)
            ==> compare.ensures((&b, &a), o)
}

/// After a sort by a valid comparator, the comparator answers `Less` or
/// `Equal` for each element against the next, and against every later one.
pub proof fn lemma_sorted_answers<T, C: Fn(&T, &T) -> Ordering>(
    compare: &C,
    le: spec_fn(T, T) -> bool,
    before: Seq<T>,
    after: Seq<T>,
    i: int,
    j: int,
    o: Ordering,
)
    requires
        orders(compare, le, before.to_set()),
        after.to_multiset() == before.to_multiset(),
        forall|le: spec_fn(T, T) -> bool| #[trigger]
            orders(compare, le, before.to_set()) ==> sorted_by(after, le),
        0 <= i < j < after.len(),
        compare.ensures((&after[i], &after[j]), o),
    ensures
        o == Ordering::Less || o == Ordering::Equal,
{
    lemma_within_own_set(before);
    lemma_rearranged_within(before, after, before.to_set());
    assert(le(after[i], after[j]));
    assert(o == three_way(le, after[i], after[j]));
}

/// Two sequences in order by a total order that hold the same elements are
/// equal.
pub proof fn lemma_one_order<T>(s: Seq<T>, t: Seq<T>, le: spec_fn(T, T) -> bool, dom: Set<T>)
    requires
        within(s, dom),
        total_preorder_on(le, dom),
        antisymmetric_on(le, dom),
        sorted_by(s, le),
        sorted_by(t, le),
        s.to_multiset() == t.to_multiset(),
    ensures
        s == t,
    decreases s.len(),
{
    broadcast use vstd::seq_lib::group_to_multiset_ensures;

    lemma_same_elements(s, t);
    lemma_rearranged_within(s, t, dom);
    if s.len() == 0 {
        assert(s =~= t);
    } else {
        let k = s.len() - 1;
        assert(t.contains(t[k]));
        assert(s.to_set().contains(t[k]));
        let i = choose|i: int| 0 <= i < s.len() && s[i] == t[k];
        assert(s.contains(s[k]));
        assert(t.to_set().contains(s[k]));
        let j = choose|j: int| 0 <= j < t.len() && t[j] == s[k];
        assert(le(s[k], s[k]) || le(s[k], s[k]));
        assert(le(t[k], t[k]) || le(t[k], t[k]));
        if i < k {
            assert(le(s[i], s[k]));
        }
        if j < k {
            assert(le(t[j], t[k]));
        }
        assert(le(t[k], s[k]));
        assert(le(s[k], t[k]));
        assert(s[k] == t[k]);
        let s0 = s.remove(k);
        let t0 = t.remove(k);
        assert(s0.to_multiset() == s.to_multiset().remove(s[k]));
        assert(t0.to_multiset() == t.to_multiset().remove(t[k]));
        assert forall|a: int, b: int| 0 <= a < b < s0.len() implies #[trigger] le(s0[a], s0[b]) by {
            assert(le(s[a], s[b]));
        }
        assert forall|a: int, b: int| 0 <= a < b < t0.len() implies #[trigger] le(t0[a], t0[b]) by {
            assert(le(t[a], t[b]));
        }
        assert forall|a: int| 0 <= a < s0.len() implies dom.contains(#[trigger] s0[a]) by {
            assert(s0[a] == s[a]);
        }
        lemma_one_order(s0, t0, le, dom);
        assert forall|a: int| 0 <= a < s.len() implies s[a] == t[a] by {
            if a < k {
                assert(s0[a] == s[a]);
                assert(t0[a] == t[a]);
            }
        }
        assert(s =~= t);
    }
}

/// A sort by a comparator that answers by a total order leaves a sequence
/// that is in order already as it is.
pub proof fn lemma_sort_idempotent<T, C: Fn(&T, &T) -> Ordering>(
    compare: &C,
    le: spec_fn(T, T) -> bool,
    before: Seq<T>,
    after: Seq<T>,
)
    requires
        orders(compare, le, before.to_set()),
        antisymmetric_on(le, before.to_set()),
        sorted_by(before, le),
        after.to_multiset() == before.to_multiset(),
        forall|le: spec_fn(T, T) -> bool| #[trigger]
            orders(compare, le, before.to_set()) ==> sorted_by(after, le),
    ensures
        after == before,
{
    lemma_within_own_set(before);
    lemma_one_order(before, after, le, before.to_set());
}

/// A sort by the reverse of a valid comparator gives a sequence in which no
/// element is less than a later one.
pub proof fn lemma_reversed_sort<T, C: Fn(&T, &T) -> Ordering, R: Fn(&T, &T) -> Ordering>(
    compare: &C,
    reverse: &R,
    le: spec_fn(T, T) -> bool,
    before: Seq<T>,
    after: Seq<T>,
)
    requires
        orders(compare, le, before.to_set()),
        reverses(reverse, compare, before.to_set()),
        after.to_multiset() == before.to_multiset(),
        forall|ge: spec_fn(T, T) -> bool| #[trigger]
            orders(reverse, ge, before.to_set()) ==> sorted_by(after, ge),
    ensures
        sorted_by(after, |a: T, b: T| le(b, a)),
{
    let dom = before.to_set();
    let ge = |a: T, b: T| le(b, a);
    assert forall|a: T, b: T, c: T|
        dom.contains(a) && dom.contains(b) && dom.contains(c) implies #[trigger] chains(
        ge,
        a,
        b,
        c,
    ) by {
        assert(chains(le, c, b, a));
    }
    assert forall|a: T, b: T| dom.contains(a) && dom.contains(b) implies #[trigger] ge(a, b) || ge(
        b,
        a,
    ) by {
        assert(le(b, a) || le(a, b));
    }
    assert forall|a: T, b: T, o: Ordering|
        dom.contains(a) && dom.contains(b) && #[trigger] reverse.ensures(
            (&a, &b),
            o,
        ) implies o == three_way(ge, a, b) by {
        assert(compare.ensures((&b, &a), o));
        assert(o == three_way(le, b, a));
    }
    assert(orders(reverse, ge, dom));
}

} // verus!
