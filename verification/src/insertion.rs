//! Insertion sort, for short slices.

use crate::exchange::{
    arranges, idx, lemma_arranges_swapped, lemma_short_rearranged, size, swap_at, swapped,
};
use crate::order::{
    callable_on, chains, lemma_within_own_set, level_order_upto, never_greater, orders,
    sorted_range, stably_arranged, total_preorder_on, within,
};
use core::cmp::Ordering;
use vstd::prelude::*;
use vstd::relations::sorted_by;

verus! {

/// Compares the elements at two positions of a slice.
pub fn compare_idxs<T, C: Fn(&T, &T) -> Ordering>(v: &[T], a: usize, b: usize, compare: &C) -> (o:
    Ordering)
    requires
        a < v@.len(),
        b < v@.len(),
        compare.requires((&v@[idx(a)], &v@[idx(b)])),
    ensures
        compare.ensures((&v@[idx(a)], &v@[idx(b)]), o),
{
    compare(&v[a], &v[b])
}

/// While the element that started at `i` travels left and stands at `j`,
/// every pair of the first `i + 1` positions is in order but those that end
/// at `j`.
pub open spec fn inserting<T>(s: Seq<T>, le: spec_fn(T, T) -> bool, j: int, i: int) -> bool {
    forall|a: int, b: int| 0 <= a < b <= i && b != j ==> #[trigger] le(s[a], s[b])
}

/// The travelling element changes places with its left neighbour, which
/// is greater.
proof fn lemma_inserting_step<T>(s: Seq<T>, le: spec_fn(T, T) -> bool, dom: Set<T>, j: int, i: int)
    requires
        0 < j <= i < s.len(),
        within(s, dom),
        total_preorder_on(le, dom),
        inserting(s, le, j, i),
        !le(s[j - 1], s[j]),
    ensures
        inserting(swapped(s, j, j - 1), le, j - 1, i),
{
    let t = swapped(s, j, j - 1);
    assert(le(s[j], s[j - 1]));
    assert forall|a: int, b: int| 0 <= a < b <= i && b != j - 1 implies #[trigger] le(
        t[a],
        t[b],
    ) by {
        let a0 = if a == j {
            j - 1
        } else if a == j - 1 {
            j
        } else {
            a
        };
        let b0 = if b == j {
            j - 1
        } else if b == j - 1 {
            j
        } else {
            b
        };
        assert(t[a] == s[a0]);
        assert(t[b] == s[b0]);
        if a0 < b0 {
            assert(le(s[a0], s[b0]));
        }
    }
}

/// The travelling element has come to the front, or to a left neighbour
/// that is no greater.
proof fn lemma_inserting_done<T>(s: Seq<T>, le: spec_fn(T, T) -> bool, dom: Set<T>, j: int, i: int)
    requires
        0 <= j <= i < s.len(),
        within(s, dom),
        total_preorder_on(le, dom),
        inserting(s, le, j, i),
        j > 0 ==> le(s[j - 1], s[j]),
    ensures
        sorted_range(s, le, 0, i + 1),
{
    assert forall|a: int, b: int| 0 <= a < b < i + 1 implies #[trigger] le(s[a], s[b]) by {
        if b == j && a < j - 1 {
            assert(le(s[a], s[j - 1]));
            assert(chains(le, s[a], s[j - 1], s[j]));
        }
    }
}

/// While the element that started at `i` travels left and stands at `j`:
/// it is below each element that it has passed, and the others of the first
/// `i + 1` stand as `level_order_upto` asks.
pub open spec fn inserting_stably<T>(
    s: Seq<T>,
    le: spec_fn(T, T) -> bool,
    origin: Seq<int>,
    j: int,
    i: int,
) -> bool {
    &&& forall|a: int, b: int|
        0 <= a < b <= i && a != j && b != j && #[trigger] le(s[b], s[a]) ==> origin[a] < origin[b]
    &&& forall|b: int| j < b <= i ==> !le(#[trigger] s[b], s[j])
}

/// Where the origins stand while the element from `i` stands at `j`: the
/// positions behind `i` are untouched, and the first `i + 1` hold what they
/// held before.
pub open spec fn origins_inserting(origin: Seq<int>, j: int, i: int) -> bool {
    &&& 0 <= j <= i < origin.len()
    &&& origin[j] == i
    &&& forall|k: int| 0 <= k <= i && k != j ==> #[trigger] origin[k] < i
    &&& forall|k: int| i < k < origin.len() ==> #[trigger] origin[k] == k
}

/// As `lemma_inserting_step`, for the order of level elements.
proof fn lemma_stable_step<T>(
    s: Seq<T>,
    le: spec_fn(T, T) -> bool,
    origin: Seq<int>,
    j: int,
    i: int,
)
    requires
        0 < j <= i < s.len(),
        origin.len() == s.len(),
        inserting_stably(s, le, origin, j, i),
        !le(s[j - 1], s[j]),
    ensures
        inserting_stably(swapped(s, j, j - 1), le, swapped(origin, j, j - 1), j - 1, i),
{
    let t = swapped(s, j, j - 1);
    let o2 = swapped(origin, j, j - 1);
    assert forall|a: int, b: int|
        0 <= a < b <= i && a != j - 1 && b != j - 1 && #[trigger] le(t[b], t[a]) implies o2[a]
        < o2[b] by {
        let a0 = if a == j {
            j - 1
        } else {
            a
        };
        let b0 = if b == j {
            j - 1
        } else {
            b
        };
        assert(t[a] == s[a0] && o2[a] == origin[a0]);
        assert(t[b] == s[b0] && o2[b] == origin[b0]);
        assert(le(s[b0], s[a0]));
    }
    assert forall|b: int| j - 1 < b <= i implies !le(#[trigger] t[b], t[j - 1]) by {
        if b == j {
            assert(t[b] == s[j - 1]);
        } else {
            assert(t[b] == s[b]);
        }
    }
}

/// As `lemma_inserting_step`, for the origins.
proof fn lemma_origins_step(origin: Seq<int>, j: int, i: int)
    requires
        0 < j,
        origins_inserting(origin, j, i),
    ensures
        origins_inserting(swapped(origin, j, j - 1), j - 1, i),
{
    let o2 = swapped(origin, j, j - 1);
    assert forall|k: int| 0 <= k <= i && k != j - 1 implies #[trigger] o2[k] < i by {
        if k == j {
            assert(o2[k] == origin[j - 1]);
        } else {
            assert(o2[k] == origin[k]);
        }
    }
    assert forall|k: int| i < k < o2.len() implies #[trigger] o2[k] == k by {
        assert(o2[k] == origin[k]);
    }
}

/// As `lemma_inserting_done`, for the order of level elements.
proof fn lemma_stable_done<T>(
    s: Seq<T>,
    le: spec_fn(T, T) -> bool,
    origin: Seq<int>,
    j: int,
    i: int,
)
    requires
        origin.len() == s.len(),
        inserting_stably(s, le, origin, j, i),
        origins_inserting(origin, j, i),
    ensures
        level_order_upto(origin, s, le, i + 1),
{
    assert forall|a: int, b: int| 0 <= a < b < i + 1 && #[trigger] le(s[b], s[a]) implies origin[a]
        < origin[b] by {
        if b == j {
            assert(origin[a] < i);
        } else if a == j {
            assert(!le(s[b], s[j]));
        }
    }
}

/// Sorts the slice by adjacent exchanges. An exchange is made only where the
/// comparator answers `Greater`, so a slice that is in order already is left
/// as it is.
pub fn insertion_sort<T, C: Fn(&T, &T) -> Ordering>(v: &mut [T], compare: &C)
    requires
        callable_on(compare, old(v)@.to_set()),
    ensures
        final(v)@.to_multiset() == old(v)@.to_multiset(),
        forall|le: spec_fn(T, T) -> bool| #[trigger]
            orders(compare, le, old(v)@.to_set()) ==> sorted_by(final(v)@, le),
        forall|le: spec_fn(T, T) -> bool| #[trigger]
            orders(compare, le, old(v)@.to_set()) && sorted_by(old(v)@, le) ==> final(v)@ == old(
                v,
            )@,
        never_greater(compare, old(v)@) ==> final(v)@ == old(v)@,
        old(v)@.len() <= 1 ==> final(v)@ == old(v)@,
        stably_arranged(compare, old(v)@, final(v)@),
{
    let ghost dom = v@.to_set();
    let ghost start = v@;
    let ghost mut origin = Seq::new(v@.len(), |k: int| k);
    proof {
        lemma_within_own_set(v@);
    }
    let n = v.len();
    let mut i: usize = 1;
    while i < n
        invariant
            v@.len() == n,
            1 <= i,
            within(v@, dom),
            callable_on(compare, dom),
            v@.to_multiset() == start.to_multiset(),
            forall|le: spec_fn(T, T) -> bool| #[trigger]
                orders(compare, le, dom) ==> sorted_range(v@, le, 0, idx(i)),
            forall|le: spec_fn(T, T) -> bool| #[trigger]
                orders(compare, le, dom) && sorted_by(start, le) ==> v@ == start,
            never_greater(compare, start) ==> v@ == start,
            arranges(origin, start, v@),
            forall|k: int| 0 <= k < i && k < n ==> #[trigger] origin[k] < i,
            forall|k: int| i <= k < n ==> #[trigger] origin[k] == k,
            forall|le: spec_fn(T, T) -> bool| #[trigger]
                orders(compare, le, dom) ==> level_order_upto(origin, v@, le, idx(i)),
        decreases n - i,
    {
        let mut j = i;
        while j > 0
            invariant_except_break
                forall|le: spec_fn(T, T) -> bool| #[trigger]
                    orders(compare, le, dom) ==> inserting(v@, le, idx(j), idx(i)),
            invariant
                arranges(origin, start, v@),
                origins_inserting(origin, idx(j), idx(i)),
                forall|le: spec_fn(T, T) -> bool| #[trigger]
                    orders(compare, le, dom) ==> inserting_stably(
                        v@,
                        le,
                        origin,
                        idx(j),
                        idx(i),
                    ),
                v@.len() == n,
                j <= i < n,
                within(v@, dom),
                callable_on(compare, dom),
                v@.to_multiset() == start.to_multiset(),
                forall|le: spec_fn(T, T) -> bool| #[trigger]
                    orders(compare, le, dom) && sorted_by(start, le) ==> v@ == start,
                never_greater(compare, start) ==> v@ == start,
            ensures
                forall|le: spec_fn(T, T) -> bool| #[trigger]
                    orders(compare, le, dom) ==> sorted_range(v@, le, 0, i + 1),
            decreases j,
        {
            let o = compare_idxs(v, j - 1, j, compare);
            match o {
                Ordering::Greater => {},
                _ => {
                    proof {
                        assert forall|le: spec_fn(T, T) -> bool| #[trigger]
                            orders(compare, le, dom) implies sorted_range(v@, le, 0, i + 1) by {
                            lemma_inserting_done(v@, le, dom, idx(j), idx(i));
                        }
                    }
                    break ;
                },
            }
            let ghost before = v@;
            let ghost origin_before = origin;
            swap_at(v, j, j - 1);
            proof {
                origin = swapped(origin, idx(j), j - 1);
                lemma_arranges_swapped(origin_before, start, before, idx(j), j - 1);
                assert forall|le: spec_fn(T, T) -> bool| #[trigger]
                    orders(compare, le, dom) implies inserting(v@, le, j - 1, idx(i))
                    && inserting_stably(v@, le, origin, j - 1, idx(i)) by {
                    lemma_inserting_step(before, le, dom, idx(j), idx(i));
                    lemma_stable_step(before, le, origin_before, idx(j), idx(i));
                }
                lemma_origins_step(origin_before, idx(j), idx(i));
                assert forall|le: spec_fn(T, T) -> bool| #[trigger]
                    orders(compare, le, dom) && sorted_by(start, le) implies v@ == start by {
                    assert(before == start);
                    assert(le(start[j - 1], start[idx(j)]));
                }
                if never_greater(compare, start) {
                    assert(compare.ensures((&start[j - 1], &start[j - 1 + 1]), o));
                }
            }
            j -= 1;
        }
        proof {
            assert forall|le: spec_fn(T, T) -> bool| #[trigger]
                orders(compare, le, dom) implies level_order_upto(origin, v@, le, i + 1) by {
                lemma_stable_done(v@, le, origin, idx(j), idx(i));
            }
        }
        i += 1;
    }
    proof {
        if start.len() <= 1 {
            lemma_short_rearranged(start, v@);
        }
        assert forall|le: spec_fn(T, T) -> bool| #[trigger]
            orders(compare, le, dom) implies level_order_upto(origin, v@, le, size(v@)) by {
            assert(level_order_upto(origin, v@, le, idx(i)));
        }
        assert(arranges(origin, start, v@));
        assert forall|le: spec_fn(T, T) -> bool| #[trigger]
            orders(compare, le, dom) implies sorted_by(v@, le) by {
            assert(sorted_range(v@, le, 0, idx(i)));
        }
    }
}

} // verus!
