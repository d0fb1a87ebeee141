//! Heapsort on a quaternary max-heap: the children of position `p` are the
//! positions `4p + 1` to `4p + 4`.

use crate::exchange::{
    idx, lemma_range_element, lemma_rearranged_twice, lemma_short_rearranged,
    lemma_swapped_range, rearranges_range, size, swap_at, swapped,
};
use crate::insertion::compare_idxs;
use crate::order::{
    callable_on, chains, lemma_same_elements, lemma_within_own_set, orders, sorted_range,
    total_preorder_on, within,
};
use core::cmp::Ordering;
use vstd::prelude::*;
use vstd::relations::sorted_by;

verus! {

/// The parent of position `i`, for `i` at least 1.
pub open spec fn parent(i: int) -> int {
    (i - 1) / 4
}

/// Below `end`, every position whose parent is `root` or later holds no more
/// than its parent does. With `root` 0 the first `end` elements are a heap.
pub open spec fn heap_below<T>(s: Seq<T>, le: spec_fn(T, T) -> bool, root: int, end: int) -> bool {
    forall|i: int| 1 <= i < end && parent(i) >= root ==> le(#[trigger] s[i], s[parent(i)])
}

/// `pos` is `start` or lies in the subtree under it.
pub open spec fn descends(start: int, pos: int) -> bool
    decreases pos,
{
    if pos <= start || pos < 1 {
        pos == start
    } else {
        descends(start, parent(pos))
    }
}

/// Below `end`, every position under `root` holds no more than its parent
/// does: what stands at `root` and under it is a heap.
pub open spec fn heap_under<T>(s: Seq<T>, le: spec_fn(T, T) -> bool, root: int, end: int) -> bool {
    forall|i: int|
        1 <= i < end && descends(root, parent(i)) ==> le(#[trigger] s[i], s[parent(i)])
}

/// As `heap_under`, but for the children of `root` themselves: each of
/// them stands over a heap.
pub open spec fn heap_under_children<T>(
    s: Seq<T>,
    le: spec_fn(T, T) -> bool,
    root: int,
    end: int,
) -> bool {
    forall|i: int|
        1 <= i < end && parent(i) != root && descends(root, parent(i)) ==> le(
            #[trigger] s[i],
            s[parent(i)],
        )
}

/// The state while an element sinks from `start` and stands at `pos`: the
/// heap order holds below `end` under `start`, but for the pairs that `pos`
/// is part of; and the children of `pos` hold no more than its parent does.
pub open spec fn sinking<T>(
    s: Seq<T>,
    le: spec_fn(T, T) -> bool,
    start: int,
    pos: int,
    end: int,
) -> bool {
    &&& forall|i: int|
        1 <= i < end && descends(start, parent(i)) && i != pos && parent(i) != pos ==> le(
            #[trigger] s[i],
            s[parent(i)],
        )
    &&& pos > start ==> forall|c: int|
        1 <= c < end && parent(c) == pos ==> le(#[trigger] s[c], s[parent(pos)])
}

/// The state while an element rises towards `start` and stands at `pos`: as
/// `sinking`, and `pos` is in order with its children too.
pub open spec fn rising<T>(
    s: Seq<T>,
    le: spec_fn(T, T) -> bool,
    start: int,
    pos: int,
    end: int,
) -> bool {
    &&& forall|i: int|
        1 <= i < end && descends(start, parent(i)) && i != pos ==> le(#[trigger] s[i], s[parent(i)])
    &&& pos > start ==> forall|c: int|
        1 <= c < end && parent(c) == pos ==> le(#[trigger] s[c], s[parent(pos)])
}

/// The parent of a position under `start` is `start` or lies under it.
proof fn lemma_descends_parent(start: int, pos: int)
    requires
        0 <= start < pos,
        descends(start, pos),
    ensures
        start <= parent(pos) < pos,
        descends(start, parent(pos)),
{
    reveal_with_fuel(descends, 2);
}

/// The children of a position under `start` lie under `start`.
proof fn lemma_descends_child(start: int, pos: int, c: int)
    requires
        0 <= start <= pos,
        descends(start, pos),
        4 * pos + 1 <= c <= 4 * pos + 4,
    ensures
        descends(start, c),
{
    assert(parent(c) == pos);
}

/// The sinking element changes places with the greatest child of `pos`.
proof fn lemma_sink_step<T>(
    s: Seq<T>,
    le: spec_fn(T, T) -> bool,
    dom: Set<T>,
    start: int,
    pos: int,
    c: int,
    end: int,
)
    requires
        0 <= start <= pos,
        descends(start, pos),
        c < end <= s.len(),
        4 * pos + 1 <= c <= 4 * pos + 4,
        within(s, dom),
        total_preorder_on(le, dom),
        sinking(s, le, start, pos, end),
        forall|k: int| 4 * pos + 1 <= k <= 4 * pos + 4 && k < end ==> le(#[trigger] s[k], s[c]),
    ensures
        sinking(swapped(s, pos, c), le, start, c, end),
{
    let t = swapped(s, pos, c);
    assert(parent(c) == pos);
    assert forall|i: int|
        1 <= i < end && descends(start, parent(i)) && i != c && parent(i) != c implies le(
        #[trigger] t[i],
        t[parent(i)],
    ) by {
        if i == pos {
            assert(t[i] == s[c]);
            assert(t[parent(i)] == s[parent(pos)]);
            assert(le(s[c], s[parent(pos)]));
        } else if parent(i) == pos {
            assert(4 * pos + 1 <= i <= 4 * pos + 4);
            assert(le(s[i], s[c]));
        } else {
            assert(le(s[i], s[parent(i)]));
        }
    }
    assert forall|g: int| 1 <= g < end && parent(g) == c implies le(
        #[trigger] t[g],
        t[parent(c)],
    ) by {
        assert(le(s[g], s[parent(g)]));
    }
}

/// The sinking element has come to a position without children.
proof fn lemma_sink_leaf<T>(s: Seq<T>, le: spec_fn(T, T) -> bool, start: int, pos: int, end: int)
    requires
        0 <= start <= pos,
        sinking(s, le, start, pos, end),
        4 * pos + 1 >= end,
    ensures
        rising(s, le, start, pos, end),
{
    assert forall|i: int| 1 <= i < end && descends(start, parent(i)) && i != pos implies le(
        #[trigger] s[i],
        s[parent(i)],
    ) by {
        if parent(i) == pos {
            assert(i >= 4 * pos + 1);
        }
    }
}

/// The rising element changes places with its parent, which is less.
proof fn lemma_rise_step<T>(
    s: Seq<T>,
    le: spec_fn(T, T) -> bool,
    dom: Set<T>,
    start: int,
    pos: int,
    end: int,
)
    requires
        0 <= start < pos < end <= s.len(),
        descends(start, pos),
        within(s, dom),
        total_preorder_on(le, dom),
        rising(s, le, start, pos, end),
        !le(s[pos], s[parent(pos)]),
    ensures
        rising(swapped(s, pos, parent(pos)), le, start, parent(pos), end),
{
    let par = parent(pos);
    let t = swapped(s, pos, par);
    lemma_descends_parent(start, pos);
    assert(le(s[par], s[pos]));
    assert forall|i: int| 1 <= i < end && descends(start, parent(i)) && i != par implies le(
        #[trigger] t[i],
        t[parent(i)],
    ) by {
        if i == pos {
        } else if parent(i) == pos {
            assert(le(s[i], s[par]));
        } else if parent(i) == par {
            assert(le(s[i], s[par]));
            assert(chains(le, s[i], s[par], s[pos]));
        } else {
            assert(le(s[i], s[parent(i)]));
        }
    }
    if par > start {
        lemma_descends_parent(start, par);
        let gp = parent(par);
        assert(le(s[par], s[gp]));
        assert forall|c: int| 1 <= c < end && parent(c) == par implies le(
            #[trigger] t[c],
            t[gp],
        ) by {
            if c != pos {
                assert(le(s[c], s[par]));
                assert(chains(le, s[c], s[par], s[gp]));
            }
        }
    }
}

/// The rising element has come to `start`, or to a parent that is no less.
proof fn lemma_rise_done<T>(s: Seq<T>, le: spec_fn(T, T) -> bool, start: int, pos: int, end: int)
    requires
        0 <= start <= pos,
        descends(start, pos),
        rising(s, le, start, pos, end),
        pos == start || le(s[pos], s[parent(pos)]),
    ensures
        heap_under(s, le, start, end),
{
    assert forall|i: int| 1 <= i < end && descends(start, parent(i)) implies le(
        #[trigger] s[i],
        s[parent(i)],
    ) by {
        if i == start {
            assert(parent(i) < i);
        }
    }
}

/// In a heap no element is greater than the first.
pub proof fn lemma_root_is_greatest<T>(
    s: Seq<T>,
    le: spec_fn(T, T) -> bool,
    dom: Set<T>,
    end: int,
    i: int,
)
    requires
        0 <= i < end <= s.len(),
        within(s, dom),
        total_preorder_on(le, dom),
        heap_below(s, le, 0, end),
    ensures
        le(s[i], s[0]),
    decreases i,
{
    if i == 0 {
        assert(le(s[0], s[0]) || le(s[0], s[0]));
    } else {
        lemma_root_is_greatest(s, le, dom, end, parent(i));
        assert(le(s[i], s[parent(i)]));
        assert(chains(le, s[i], s[parent(i)], s[0]));
    }
}

/// Of the children of a position, the first at `left`, those at less than
/// `left + room - 1` lie below the end of the heap; `child` is the greatest
/// of them where it was chosen between the greater of the first two and the
/// greater of the others.
proof fn lemma_greatest_child<T>(
    s: Seq<T>,
    le: spec_fn(T, T) -> bool,
    dom: Set<T>,
    left: int,
    ll: int,
    lr: int,
    child: int,
    room: int,
)
    requires
        0 <= left,
        room > 2,
        left + room - 1 <= s.len(),
        within(s, dom),
        total_preorder_on(le, dom),
        ll == left || ll == left + 1,
        le(s[left], s[ll]),
        le(s[left + 1], s[ll]),
        room > 4 ==> (lr == left + 2 || lr == left + 3) && le(s[left + 2], s[lr]) && le(
            s[left + 3],
            s[lr],
        ),
        room <= 4 ==> lr == left + 2,
        room > 3 ==> (child == ll && le(s[lr], s[ll])) || (child == lr && le(s[ll], s[lr])),
        room <= 3 ==> child == ll,
    ensures
        left <= child <= left + 3,
        child < left + room - 1,
        forall|k: int|
            left <= k <= left + 3 && k < left + room - 1 ==> le(#[trigger] s[k], s[child]),
{
    if room > 3 {
        assert(le(s[left + 2], s[left + 2]) || le(s[left + 2], s[left + 2]));
    }
    assert forall|k: int| left <= k <= left + 3 && k < left + room - 1 implies le(
        #[trigger] s[k],
        s[child],
    ) by {
        if k <= left + 1 {
            assert(le(s[k], s[ll]));
            assert(chains(le, s[k], s[ll], s[child]));
        } else {
            assert(le(s[k], s[lr]));
            assert(chains(le, s[k], s[lr], s[child]));
        }
    }
}

/// Every position lies under the first.
proof fn lemma_descends_from_root(pos: int)
    requires
        0 <= pos,
    ensures
        descends(0, pos),
    decreases pos,
{
    if pos >= 1 {
        lemma_descends_from_root(parent(pos));
    }
}

/// In a slice that is in heap order behind `root`, each child of `root`
/// stands over a heap.
proof fn lemma_heap_behind_is_under<T>(s: Seq<T>, le: spec_fn(T, T) -> bool, root: int, end: int)
    requires
        0 <= root,
        heap_below(s, le, root + 1, end),
    ensures
        heap_under_children(s, le, root, end),
{
    assert forall|i: int|
        1 <= i < end && parent(i) != root && descends(root, parent(i)) implies le(
        #[trigger] s[i],
        s[parent(i)],
    ) by {
        assert(parent(i) >= root + 1);
    }
}

/// A sift from `root` that leaves a heap under `root`, in a slice that was
/// in heap order behind `root`, leaves it in heap order from `root` on.
proof fn lemma_heap_extends<T>(
    s: Seq<T>,
    t: Seq<T>,
    le: spec_fn(T, T) -> bool,
    root: int,
    end: int,
)
    requires
        0 <= root,
        end <= s.len(),
        heap_below(s, le, root + 1, end),
        kept_outside_subtree(s, t, root, end),
        heap_under(t, le, root, end),
    ensures
        heap_below(t, le, root, end),
{
    assert forall|i: int| 1 <= i < end && parent(i) >= root implies le(
        #[trigger] t[i],
        t[parent(i)],
    ) by {
        if !descends(root, parent(i)) {
            assert(!descends(root, i));
            assert(t[i] == s[i]);
            assert(t[parent(i)] == s[parent(i)]);
            assert(le(s[i], s[parent(i)]));
        }
    }
}

/// The state of heapsort with `end` elements left in the heap: they are a
/// heap, the others are in order, and none in the heap is greater than any
/// of the others.
pub open spec fn unloading<T>(s: Seq<T>, le: spec_fn(T, T) -> bool, end: int) -> bool {
    &&& heap_below(s, le, 0, end)
    &&& sorted_range(s, le, end, s.len() as int)
    &&& forall|i: int, j: int| 0 <= i < end <= j < s.len() ==> #[trigger] le(s[i], s[j])
}

/// One round of heapsort: the first element of the heap changes places with
/// the last, at `end`, and what came to the front sinks below `end`.
proof fn lemma_unload_step<T>(
    s: Seq<T>,
    t: Seq<T>,
    le: spec_fn(T, T) -> bool,
    dom: Set<T>,
    end: int,
)
    requires
        0 <= end < s.len(),
        within(s, dom),
        total_preorder_on(le, dom),
        unloading(s, le, end + 1),
        rearranges_range(swapped(s, 0, end), t, 0, end),
        heap_under_children(swapped(s, 0, end), le, 0, end) ==> heap_under(t, le, 0, end),
    ensures
        unloading(t, le, end),
{
    let m = swapped(s, 0, end);
    assert forall|i: int| 1 <= i < end && parent(i) >= 1 implies le(
        #[trigger] m[i],
        m[parent(i)],
    ) by {
        assert(le(s[i], s[parent(i)]));
    }
    lemma_heap_behind_is_under(m, le, 0, end);
    assert forall|i: int| 1 <= i < end && parent(i) >= 0 implies le(
        #[trigger] t[i],
        t[parent(i)],
    ) by {
        lemma_descends_from_root(parent(i));
    }
    assert forall|i: int, j: int| 0 <= i < j < s.len() && end <= i implies #[trigger] le(
        t[i],
        t[j],
    ) by {
        let i0 = lemma_range_element(m, t, 0, end, i);
        let j0 = lemma_range_element(m, t, 0, end, j);
        if i == end {
            assert(le(s[0], s[j]));
        } else {
            assert(le(s[i], s[j]));
        }
    }
    assert forall|i: int, j: int| 0 <= i < end <= j < s.len() implies #[trigger] le(
        t[i],
        t[j],
    ) by {
        let i0 = lemma_range_element(m, t, 0, end, i);
        let j0 = lemma_range_element(m, t, 0, end, j);
        let i1 = if i0 == 0 {
            end
        } else {
            i0
        };
        assert(m[i0] == s[i1]);
        if j == end {
            lemma_root_is_greatest(s, le, dom, end + 1, i1);
        } else {
            assert(le(s[i1], s[j]));
        }
    }
}

/// Of the positions `a` and `b`, the one that holds the greater element;
/// `a` where they are level.
pub open spec fn greater_of<T>(s: Seq<T>, le: spec_fn(T, T) -> bool, a: int, b: int) -> int {
    if !le(s[b], s[a]) {
        b
    } else {
        a
    }
}

/// The child of `pos` that moves up when an element sinks from `pos`: of
/// the children below `end`, the greater of the greater of the first two
/// and the greater of the others; where two are level, the earlier.
pub open spec fn chosen_child<T>(s: Seq<T>, le: spec_fn(T, T) -> bool, pos: int, end: int) -> int {
    let left = 4 * pos + 1;
    if left + 1 >= end {
        left
    } else {
        let of_first = greater_of(s, le, left, left + 1);
        let of_others = if left + 3 < end {
            greater_of(s, le, left + 2, left + 3)
        } else {
            left + 2
        };
        if left + 2 < end {
            greater_of(s, le, of_first, of_others)
        } else {
            of_first
        }
    }
}

/// The sequence after the element at `pos` has sunk to a position without a
/// child below `end`, its chosen child moving up at each level, and that
/// position.
pub open spec fn sunk<T>(s: Seq<T>, le: spec_fn(T, T) -> bool, pos: int, end: int) -> (
    Seq<T>,
    int,
)
    decreases end - pos,
{
    if pos < 0 || 4 * pos + 1 >= end {
        (s, pos)
    } else {
        let child = chosen_child(s, le, pos, end);
        sunk(swapped(s, pos, child), le, child, end)
    }
}

/// The sequence after the element at `pos` has risen towards `start`: it
/// changes places with its parent as long as the parent is less, and not
/// beyond `start`.
pub open spec fn risen<T>(s: Seq<T>, le: spec_fn(T, T) -> bool, start: int, pos: int) -> Seq<T>
    decreases pos,
{
    if pos > start && pos >= 1 && le(s[parent(pos)], s[pos]) && !le(s[pos], s[parent(pos)]) {
        risen(swapped(s, pos, parent(pos)), le, start, parent(pos))
    } else {
        s
    }
}

/// What `siftdown_range` makes of `s`: the element at `pos` sinks to a
/// position without a child below `end` and rises from there as far as the
/// order asks, not beyond `pos`.
pub open spec fn sifted_down<T>(s: Seq<T>, le: spec_fn(T, T) -> bool, pos: int, end: int) -> Seq<
    T,
> {
    let (t, rest) = sunk(s, le, pos, end);
    risen(t, le, pos, rest)
}

/// `t` differs from `s` at most at `pos` and at the positions under it
/// that lie below `end`.
pub open spec fn kept_outside_subtree<T>(s: Seq<T>, t: Seq<T>, pos: int, end: int) -> bool {
    &&& t.len() == s.len()
    &&& forall|i: int|
        0 <= i < s.len() && !(i < end && descends(pos, i)) ==> #[trigger] t[i] == s[i]
}

/// `t` differs from `s` at most at `pos`, at `start`, and at the parents
/// of `pos` between them.
pub open spec fn kept_outside_chain<T>(s: Seq<T>, t: Seq<T>, start: int, pos: int) -> bool {
    &&& t.len() == s.len()
    &&& forall|i: int|
        0 <= i < s.len() && !(descends(start, i) && descends(i, pos)) ==> #[trigger] t[i] == s[i]
}

/// One level of sinking: the chosen child moves up.
proof fn lemma_sunk_step<T>(s: Seq<T>, le: spec_fn(T, T) -> bool, pos: int, end: int)
    requires
        0 <= pos,
        4 * pos + 1 < end,
    ensures
        sunk(s, le, pos, end) == sunk(
            swapped(s, pos, chosen_child(s, le, pos, end)),
            le,
            chosen_child(s, le, pos, end),
            end,
        ),
{
}

/// The child that three comparisons pick is the chosen child.
proof fn lemma_picked_is_chosen<T>(
    s: Seq<T>,
    le: spec_fn(T, T) -> bool,
    pos: int,
    end: int,
    of_first: int,
    of_others: int,
    child: int,
)
    requires
        0 <= pos,
        4 * pos + 2 < end,
        of_first == greater_of(s, le, 4 * pos + 1, 4 * pos + 2),
        of_others == if 4 * pos + 4 < end {
            greater_of(s, le, 4 * pos + 3, 4 * pos + 4)
        } else {
            4 * pos + 3
        },
        child == if 4 * pos + 3 < end {
            greater_of(s, le, of_first, of_others)
        } else {
            of_first
        },
    ensures
        child == chosen_child(s, le, pos, end),
{
}

/// What lies under a position lies under its parent.
proof fn lemma_descends_up(pos: int, under: int)
    requires
        1 <= pos,
        descends(pos, under),
    ensures
        descends(parent(pos), under),
    decreases under,
{
    if under <= pos {
        assert(descends(parent(pos), parent(pos)));
    } else {
        lemma_descends_up(pos, parent(under));
    }
}

/// The positions from `pos` up to `start` lie under `start`, and below `end`
/// where `pos` does.
proof fn lemma_chain_in_subtree<T>(s: Seq<T>, t: Seq<T>, start: int, pos: int, end: int)
    requires
        0 <= start <= pos < end,
        kept_outside_chain(s, t, start, pos),
    ensures
        kept_outside_subtree(s, t, start, end),
{
    assert forall|i: int|
        0 <= i < s.len() && !(i < end && descends(start, i)) implies #[trigger] t[i] == s[i] by {
        if descends(start, i) && descends(i, pos) {
            assert(i <= pos);
        }
    }
}

/// How far `end` lies beyond `4 * pos`: the children of `pos` below `end`
/// are those `4 * pos + k` with `1 <= k < room`.
pub fn room(pos: usize, end: usize) -> (r: usize)
    ensures
        r == if 4 * pos < end {
            end - 4 * pos
        } else {
            0
        },
{
    if pos > end / 4 {
        0
    } else {
        end - 4 * pos
    }
}

/// Lets the element at `pos` rise towards `start` while it is greater than
/// its parent.
fn siftup<T, C: Fn(&T, &T) -> Ordering>(
    v: &mut [T],
    start: usize,
    pos: usize,
    compare: &C,
    Ghost(end): Ghost<int>,
)
    requires
        start <= pos < old(v)@.len(),
        pos > start ==> pos < end,
        end <= old(v)@.len(),
        descends(idx(start), idx(pos)),
        callable_on(compare, old(v)@.to_set()),
    ensures
        final(v)@.to_multiset() == old(v)@.to_multiset(),
        kept_outside_chain(old(v)@, final(v)@, idx(start), idx(pos)),
        pos > start ==> rearranges_range(old(v)@, final(v)@, idx(start), end),
        pos == start ==> final(v)@ == old(v)@,
        forall|le: spec_fn(T, T) -> bool| #[trigger]
            orders(compare, le, old(v)@.to_set()) ==> final(v)@ == risen(
                old(v)@,
                le,
                idx(start),
                idx(pos),
            ),
        forall|le: spec_fn(T, T) -> bool| #[trigger]
            orders(compare, le, old(v)@.to_set()) && rising(
                old(v)@,
                le,
                idx(start),
                idx(pos),
                end,
            ) ==> heap_under(final(v)@, le, idx(start), end),
{
    let ghost dom = v@.to_set();
    let ghost first = v@;
    let ghost n = v@.len();
    proof {
        lemma_within_own_set(v@);
    }
    let from = pos;
    let mut pos = pos;
    while pos > start
        invariant_except_break
            forall|le: spec_fn(T, T) -> bool| #[trigger]
                orders(compare, le, dom) && rising(first, le, idx(start), idx(from), end)
                    ==> rising(v@, le, idx(start), idx(pos), end),
            forall|le: spec_fn(T, T) -> bool| #[trigger]
                orders(compare, le, dom) ==> risen(first, le, idx(start), idx(from)) == risen(
                    v@,
                    le,
                    idx(start),
                    idx(pos),
                ),
        invariant
            v@.len() == n,
            start <= pos <= from < n,
            pos > start ==> pos < end,
            end <= n,
            descends(idx(start), idx(pos)),
            descends(idx(pos), idx(from)),
            within(v@, dom),
            callable_on(compare, dom),
            v@.to_multiset() == first.to_multiset(),
            kept_outside_chain(first, v@, idx(start), idx(from)),
            from > start ==> rearranges_range(first, v@, idx(start), end),
            from == start ==> v@ == first,
        ensures
            forall|le: spec_fn(T, T) -> bool| #[trigger]
                orders(compare, le, dom) && rising(first, le, idx(start), idx(from), end)
                    ==> heap_under(v@, le, idx(start), end),
            forall|le: spec_fn(T, T) -> bool| #[trigger]
                orders(compare, le, dom) ==> v@ == risen(first, le, idx(start), idx(from)),
        decreases pos,
    {
        let par = (pos - 1) / 4;
        proof {
            lemma_descends_parent(idx(start), idx(pos));
            lemma_descends_up(idx(pos), idx(from));
        }
        let o = compare_idxs(v, pos, par, compare);
        match o {
            Ordering::Greater => {},
            _ => {
                proof {
                    assert forall|le: spec_fn(T, T) -> bool| #[trigger]
                        orders(compare, le, dom) && rising(
                            first,
                            le,
                            idx(start),
                            idx(from),
                            end,
                        ) implies heap_under(v@, le, idx(start), end) by {
                        lemma_rise_done(v@, le, idx(start), idx(pos), end);
                    }
                    assert forall|le: spec_fn(T, T) -> bool| #[trigger]
                        orders(compare, le, dom) implies v@ == risen(
                        first,
                        le,
                        idx(start),
                        idx(from),
                    ) by {
                        assert(risen(v@, le, idx(start), idx(pos)) == v@);
                    }
                }
                break ;
            },
        }
        let ghost before = v@;
        swap_at(v, pos, par);
        proof {
            lemma_swapped_range(before, idx(pos), idx(par), idx(start), end);
            lemma_rearranged_twice(first, before, v@, idx(start), end);
            assert forall|le: spec_fn(T, T) -> bool| #[trigger]
                orders(compare, le, dom) && rising(
                    first,
                    le,
                    idx(start),
                    idx(from),
                    end,
                ) implies rising(v@, le, idx(start), idx(par), end) by {
                lemma_rise_step(before, le, dom, idx(start), idx(pos), end);
            }
            assert forall|le: spec_fn(T, T) -> bool| #[trigger]
                orders(compare, le, dom) implies risen(first, le, idx(start), idx(from)) == risen(
                v@,
                le,
                idx(start),
                idx(par),
            ) by {
                assert(risen(before, le, idx(start), idx(pos)) == risen(
                    swapped(before, idx(pos), idx(par)),
                    le,
                    idx(start),
                    idx(par),
                ));
            }
        }
        pos = par;
    }
    proof {
        assert forall|le: spec_fn(T, T) -> bool| #[trigger]
            orders(compare, le, dom) && rising(
                first,
                le,
                idx(start),
                idx(from),
                end,
            ) implies heap_under(v@, le, idx(start), end) by {
            if pos == start {
                lemma_rise_done(v@, le, idx(start), idx(pos), end);
            }
        }
    }
}

/// Lets the element at `pos` sink below `end`: at each level the greatest
/// child moves up, down to a position without children; from there the
/// element rises again as far as the order asks.
pub fn siftdown_range<T, C: Fn(&T, &T) -> Ordering>(
    v: &mut [T],
    pos: usize,
    end: usize,
    compare: &C,
)
    requires
        pos < old(v)@.len(),
        end <= old(v)@.len(),
        callable_on(compare, old(v)@.to_set()),
    ensures
        final(v)@.to_multiset() == old(v)@.to_multiset(),
        kept_outside_subtree(old(v)@, final(v)@, idx(pos), idx(end)),
        4 * pos + 1 >= end ==> final(v)@ == old(v)@,
        pos < end ==> rearranges_range(old(v)@, final(v)@, idx(pos), idx(end)),
        forall|le: spec_fn(T, T) -> bool| #[trigger]
            orders(compare, le, old(v)@.to_set()) ==> final(v)@ == sifted_down(
                old(v)@,
                le,
                idx(pos),
                idx(end),
            ),
        forall|le: spec_fn(T, T) -> bool| #[trigger]
            orders(compare, le, old(v)@.to_set()) && heap_under_children(
                old(v)@,
                le,
                idx(pos),
                idx(end),
            )
                ==> heap_under(final(v)@, le, idx(pos), idx(end)),
{
    let ghost dom = v@.to_set();
    let ghost first = v@;
    let ghost n = v@.len();
    proof {
        lemma_within_own_set(v@);
    }
    let start = pos;
    let mut pos = pos;
    let mut r = room(pos, end);
    while r > 2
        invariant
            v@.len() == n,
            end <= n,
            start <= pos < n,
            pos > start ==> pos < end,
            4 * start + 1 >= end ==> pos == start,
            r == if 4 * pos < end {
                end - 4 * pos
            } else {
                0
            },
            descends(idx(start), idx(pos)),
            within(v@, dom),
            callable_on(compare, dom),
            v@.to_multiset() == first.to_multiset(),
            kept_outside_subtree(first, v@, idx(start), idx(end)),
            pos > start ==> rearranges_range(first, v@, idx(start), idx(end)),
            pos == start ==> v@ == first,
            forall|le: spec_fn(T, T) -> bool| #[trigger]
                orders(compare, le, dom) ==> sunk(first, le, idx(start), idx(end)) == sunk(
                    v@,
                    le,
                    idx(pos),
                    idx(end),
                ),
            forall|le: spec_fn(T, T) -> bool| #[trigger]
                orders(compare, le, dom) && heap_under_children(
                    first,
                    le,
                    idx(start),
                    idx(end),
                )
                    ==> sinking(v@, le, idx(start), idx(pos), idx(end)),
        decreases end - pos,
    {
        let left = 4 * pos + 1;
        let m_left = left + 1;
        let m_right = left + 2;
        let largest_left = match compare_idxs(v, left, m_left, compare) {
            Ordering::Less => m_left,
            _ => left,
        };
        let largest_right = if r > 4 {
            match compare_idxs(v, m_right, m_right + 1, compare) {
                Ordering::Less => m_right + 1,
                _ => m_right,
            }
        } else {
            m_right
        };
        let child = if r > 3 {
            match compare_idxs(v, largest_left, largest_right, compare) {
                Ordering::Less => largest_right,
                _ => largest_left,
            }
        } else {
            largest_left
        };
        let ghost before = v@;
        swap_at(v, pos, child);
        proof {
            lemma_swapped_range(before, idx(pos), idx(child), idx(start), idx(end));
            if pos > start {
                lemma_rearranged_twice(first, before, v@, idx(start), idx(end));
            }
            lemma_descends_child(idx(start), idx(pos), idx(child));
            assert forall|le: spec_fn(T, T) -> bool| #[trigger]
                orders(compare, le, dom) implies sunk(first, le, idx(start), idx(end)) == sunk(
                v@,
                le,
                idx(child),
                idx(end),
            ) by {
                lemma_picked_is_chosen(
                    before,
                    le,
                    idx(pos),
                    idx(end),
                    idx(largest_left),
                    idx(largest_right),
                    idx(child),
                );
                lemma_sunk_step(before, le, idx(pos), idx(end));
            }
            assert forall|le: spec_fn(T, T) -> bool| #[trigger]
                orders(compare, le, dom) && heap_under_children(
                    first,
                    le,
                    idx(start),
                    idx(end),
                ) implies sinking(v@, le, idx(start), idx(child), idx(end)) by {
                lemma_greatest_child(
                    before,
                    le,
                    dom,
                    idx(left),
                    idx(largest_left),
                    idx(largest_right),
                    idx(child),
                    idx(r),
                );
                lemma_sink_step(before, le, dom, idx(start), idx(pos), idx(child), idx(end));
            }
        }
        pos = child;
        r = room(pos, end);
    }
    if r > 1 {
        let left = 4 * pos + 1;
        let ghost before = v@;
        swap_at(v, pos, left);
        proof {
            lemma_swapped_range(before, idx(pos), idx(left), idx(start), idx(end));
            if pos > start {
                lemma_rearranged_twice(first, before, v@, idx(start), idx(end));
            }
            lemma_descends_child(idx(start), idx(pos), idx(left));
            assert forall|le: spec_fn(T, T) -> bool| #[trigger]
                orders(compare, le, dom) implies sunk(first, le, idx(start), idx(end)) == sunk(
                v@,
                le,
                idx(left),
                idx(end),
            ) by {
                assert(idx(left) == chosen_child(before, le, idx(pos), idx(end)));
                lemma_sunk_step(before, le, idx(pos), idx(end));
            }
            assert forall|le: spec_fn(T, T) -> bool| #[trigger]
                orders(compare, le, dom) && heap_under_children(
                    first,
                    le,
                    idx(start),
                    idx(end),
                ) implies sinking(v@, le, idx(start), idx(left), idx(end)) by {
                assert(le(before[idx(left)], before[idx(left)]) || le(
                    before[idx(left)],
                    before[idx(left)],
                ));
                lemma_sink_step(before, le, dom, idx(start), idx(pos), idx(left), idx(end));
            }
        }
        pos = left;
    }
    let ghost at_rest = v@;
    proof {
        lemma_same_elements(first, at_rest);
    }
    siftup(v, start, pos, compare, Ghost(idx(end)));
    proof {
        if pos > start {
            lemma_rearranged_twice(first, at_rest, v@, idx(start), idx(end));
            lemma_chain_in_subtree(at_rest, v@, idx(start), idx(pos), idx(end));
        }
        assert forall|le: spec_fn(T, T) -> bool| #[trigger]
            orders(compare, le, dom) implies v@ == sifted_down(
            first,
            le,
            idx(start),
            idx(end),
        ) by {
            assert(sunk(at_rest, le, idx(pos), idx(end)) == (at_rest, idx(pos)));
        }
        assert forall|le: spec_fn(T, T) -> bool| #[trigger]
            orders(compare, le, dom) && heap_under_children(
                first,
                le,
                idx(start),
                idx(end),
            ) implies heap_under(v@, le, idx(start), idx(end)) by {
            lemma_sink_leaf(at_rest, le, idx(start), idx(pos), idx(end));
        }
    }
}

/// Lets the element at `pos` sink in the whole slice.
pub fn siftdown<T, C: Fn(&T, &T) -> Ordering>(v: &mut [T], pos: usize, compare: &C)
    requires
        pos < old(v)@.len(),
        callable_on(compare, old(v)@.to_set()),
    ensures
        final(v)@.to_multiset() == old(v)@.to_multiset(),
        kept_outside_subtree(old(v)@, final(v)@, idx(pos), size(old(v)@)),
        4 * pos + 1 >= old(v)@.len() ==> final(v)@ == old(v)@,
        rearranges_range(old(v)@, final(v)@, idx(pos), size(old(v)@)),
        forall|le: spec_fn(T, T) -> bool| #[trigger]
            orders(compare, le, old(v)@.to_set()) ==> final(v)@ == sifted_down(
                old(v)@,
                le,
                idx(pos),
                size(old(v)@),
            ),
        forall|le: spec_fn(T, T) -> bool| #[trigger]
            orders(compare, le, old(v)@.to_set()) && heap_under_children(
                old(v)@,
                le,
                idx(pos),
                size(old(v)@),
            ) ==> heap_under(final(v)@, le, idx(pos), size(final(v)@)),
{
    let len = v.len();
    siftdown_range(v, pos, len, compare);
}

/// Orders the whole slice as a heap, from the last parent back to the first
/// position.
pub fn heapify<T, C: Fn(&T, &T) -> Ordering>(v: &mut [T], compare: &C)
    requires
        callable_on(compare, old(v)@.to_set()),
    ensures
        final(v)@.to_multiset() == old(v)@.to_multiset(),
        forall|le: spec_fn(T, T) -> bool| #[trigger]
            orders(compare, le, old(v)@.to_set()) ==> heap_below(
                final(v)@,
                le,
                0,
                size(final(v)@),
            ),
{
    let ghost dom = v@.to_set();
    let ghost first = v@;
    let len = v.len();
    if len == 0 {
        return ;
    }
    let mut n = (len - 1) / 4 + 1;
    while n > 0
        invariant
            v@.len() == len,
            n <= len,
            v@.to_multiset() == first.to_multiset(),
            v@.to_set() == dom,
            callable_on(compare, dom),
            forall|le: spec_fn(T, T) -> bool| #[trigger]
                orders(compare, le, dom) ==> heap_below(v@, le, idx(n), idx(len)),
        decreases n,
    {
        n -= 1;
        let ghost before = v@;
        siftdown(v, n, compare);
        proof {
            lemma_same_elements(before, v@);
            assert forall|le: spec_fn(T, T) -> bool| #[trigger]
                orders(compare, le, dom) implies heap_below(v@, le, idx(n), idx(len)) by {
                lemma_heap_behind_is_under(before, le, idx(n), idx(len));
                lemma_heap_extends(before, v@, le, idx(n), idx(len));
            }
        }
    }
}

/// Sorts the slice by building a heap and then moving its greatest element
/// behind the heap, again and again, until the heap is empty.
pub fn heapsort<T, C: Fn(&T, &T) -> Ordering>(v: &mut [T], compare: &C)
    requires
        callable_on(compare, old(v)@.to_set()),
    ensures
        final(v)@.to_multiset() == old(v)@.to_multiset(),
        forall|le: spec_fn(T, T) -> bool| #[trigger]
            orders(compare, le, old(v)@.to_set()) ==> sorted_by(final(v)@, le),
        old(v)@.len() <= 1 ==> final(v)@ == old(v)@,
{
    let ghost dom = v@.to_set();
    let ghost first = v@;
    let len = v.len();
    let mut end = len;
    heapify(v, compare);
    proof {
        lemma_same_elements(first, v@);
        lemma_within_own_set(v@);
    }
    while end > 0
        invariant
            v@.len() == len,
            end <= len,
            v@.to_multiset() == first.to_multiset(),
            v@.to_set() == dom,
            within(v@, dom),
            callable_on(compare, dom),
            forall|le: spec_fn(T, T) -> bool| #[trigger]
                orders(compare, le, dom) ==> unloading(v@, le, idx(end)),
        decreases end,
    {
        end -= 1;
        let ghost before = v@;
        swap_at(v, 0, end);
        let ghost swapped_out = v@;
        proof {
            lemma_same_elements(before, swapped_out);
        }
        siftdown_range(v, 0, end, compare);
        proof {
            lemma_same_elements(swapped_out, v@);
            lemma_within_own_set(v@);
            assert forall|le: spec_fn(T, T) -> bool| #[trigger]
                orders(compare, le, dom) implies unloading(v@, le, idx(end)) by {
                lemma_unload_step(before, v@, le, dom, idx(end));
            }
        }
    }
    proof {
        if first.len() <= 1 {
            lemma_short_rearranged(first, v@);
        }
        assert forall|le: spec_fn(T, T) -> bool| #[trigger]
            orders(compare, le, dom) implies sorted_by(v@, le) by {
            assert(unloading(v@, le, 0));
            assert(sorted_range(v@, le, 0, size(v@)));
        }
    }
}

} // verus!
