//! Partitioning a slice around one pivot or around two.

use crate::exchange::{
    blocks_swapped, idx, lemma_pairs_are_blocks, swap_at, swap_many, swapped,
};
use crate::insertion::compare_idxs;
use crate::order::{
    above, below, between, callable_on, lemma_within_own_set, level,
    orders, total_preorder_on, within,
};
use core::cmp::Ordering;
use vstd::prelude::*;

verus! {

/// The result of a partition around `p`: first `l` elements below `p`, last
/// `r` elements above it, and between them at least one element, all level
/// with `p`.
pub open spec fn fat_partitioned<T>(
    s: Seq<T>,
    le: spec_fn(T, T) -> bool,
    p: T,
    l: int,
    r: int,
) -> bool {
    &&& 0 <= l
    &&& 0 <= r
    &&& l + r < s.len()
    &&& below(s, le, p, 0, l)
    &&& level(s, le, p, l, s.len() - r)
    &&& above(s, le, p, s.len() - r, s.len() as int)
}

/// The state of the scan around the pivot `p`, which stands at the front:
/// level elements in `0..a` and in `d..`, lower ones in `a..b`, higher ones
/// in `c..d`, and `b..c` still to be looked at.
pub open spec fn fat_scanning<T>(
    s: Seq<T>,
    le: spec_fn(T, T) -> bool,
    p: T,
    a: int,
    b: int,
    c: int,
    d: int,
) -> bool {
    &&& 0 <= a <= b <= c <= d <= s.len()
    &&& s[0] == p
    &&& 1 <= c
    &&& b > 0 ==> a > 0
    &&& level(s, le, p, 0, a)
    &&& below(s, le, p, a, b)
    &&& above(s, le, p, c, d)
    &&& level(s, le, p, d, s.len() as int)
}

/// Before the scan, with the pivot at the front.
proof fn lemma_fat_start<T>(s: Seq<T>, le: spec_fn(T, T) -> bool, dom: Set<T>)
    requires
        s.len() >= 1,
        within(s, dom),
        total_preorder_on(le, dom),
    ensures
        fat_scanning(s, le, s[0], 0, 0, s.len() as int, s.len() as int),
{
}

/// The element at `b` is below the pivot and stays.
proof fn lemma_fat_lower<T>(
    s: Seq<T>,
    le: spec_fn(T, T) -> bool,
    dom: Set<T>,
    p: T,
    a: int,
    b: int,
    c: int,
    d: int,
)
    requires
        within(s, dom),
        total_preorder_on(le, dom),
        fat_scanning(s, le, p, a, b, c, d),
        b < c,
        !le(p, s[b]),
    ensures
        fat_scanning(s, le, p, a, b + 1, c, d),
{
    assert(le(s[0], s[0]) || le(s[0], s[0]));
}

/// The element at `b` is level with the pivot and joins the level elements
/// at the front.
proof fn lemma_fat_level_left<T>(
    s: Seq<T>,
    le: spec_fn(T, T) -> bool,
    dom: Set<T>,
    p: T,
    a: int,
    b: int,
    c: int,
    d: int,
)
    requires
        within(s, dom),
        total_preorder_on(le, dom),
        fat_scanning(s, le, p, a, b, c, d),
        b < c,
        le(p, s[b]),
        le(s[b], p),
    ensures
        fat_scanning(swapped(s, a, b), le, p, a + 1, b + 1, c, d),
{
    let t = swapped(s, a, b);
    assert forall|i: int| a + 1 <= i < b + 1 implies !le(p, #[trigger] t[i]) by {
        if i == b {
            assert(t[i] == s[a]);
        } else {
            assert(t[i] == s[i]);
        }
    }
    assert forall|i: int| 0 <= i < a + 1 implies le(#[trigger] t[i], p) && le(p, t[i]) by {
        if i == a {
            assert(t[i] == s[b]);
        } else {
            assert(t[i] == s[i]);
        }
    }
    assert forall|i: int| c <= i < d implies !le(#[trigger] t[i], p) by {
        assert(t[i] == s[i]);
    }
    assert forall|i: int| d <= i < t.len() implies le(#[trigger] t[i], p) && le(p, t[i]) by {
        assert(t[i] == s[i]);
    }
}

/// The scan from the left has passed the pivot itself.
proof fn lemma_fat_front<T>(
    s: Seq<T>,
    le: spec_fn(T, T) -> bool,
    dom: Set<T>,
    p: T,
    a: int,
    b: int,
    c: int,
    d: int,
)
    requires
        within(s, dom),
        total_preorder_on(le, dom),
        fat_scanning(s, le, p, a, b, c, d),
        b < c ==> !le(s[b], p),
    ensures
        b >= 1,
{
    assert(le(s[0], s[0]) || le(s[0], s[0]));
}

/// The element before `c` is above the pivot and stays.
proof fn lemma_fat_higher<T>(
    s: Seq<T>,
    le: spec_fn(T, T) -> bool,
    dom: Set<T>,
    p: T,
    a: int,
    b: int,
    c: int,
    d: int,
)
    requires
        within(s, dom),
        total_preorder_on(le, dom),
        fat_scanning(s, le, p, a, b, c, d),
        1 <= b < c,
        !le(s[c - 1], p),
    ensures
        fat_scanning(s, le, p, a, b, c - 1, d),
{
}

/// The element before `c` is level with the pivot and joins the level
/// elements at the back.
proof fn lemma_fat_level_right<T>(
    s: Seq<T>,
    le: spec_fn(T, T) -> bool,
    dom: Set<T>,
    p: T,
    a: int,
    b: int,
    c: int,
    d: int,
)
    requires
        within(s, dom),
        total_preorder_on(le, dom),
        fat_scanning(s, le, p, a, b, c, d),
        1 <= b < c,
        !le(s[b], p),
        le(p, s[c - 1]),
        le(s[c - 1], p),
    ensures
        b < c - 1,
        fat_scanning(swapped(s, c - 1, d - 1), le, p, a, b, c - 1, d - 1),
        swapped(s, c - 1, d - 1)[b] == s[b],
{
    let t = swapped(s, c - 1, d - 1);
    assert forall|i: int| c - 1 <= i < d - 1 implies !le(#[trigger] t[i], p) by {
        if i == c - 1 {
            assert(t[i] == s[d - 1]);
        } else {
            assert(t[i] == s[i]);
        }
    }
    assert forall|i: int| d - 1 <= i < t.len() implies le(#[trigger] t[i], p) && le(p, t[i]) by {
        if i == d - 1 {
            assert(t[i] == s[c - 1]);
        } else {
            assert(t[i] == s[i]);
        }
    }
    assert forall|i: int| 0 <= i < a implies le(#[trigger] t[i], p) && le(p, t[i]) by {
        assert(t[i] == s[i]);
    }
    assert forall|i: int| a <= i < b implies !le(p, #[trigger] t[i]) by {
        assert(t[i] == s[i]);
    }
}

/// Both scans have stopped: a higher element at `b` and a lower one before
/// `c` change places.
proof fn lemma_fat_exchange<T>(
    s: Seq<T>,
    le: spec_fn(T, T) -> bool,
    dom: Set<T>,
    p: T,
    a: int,
    b: int,
    c: int,
    d: int,
)
    requires
        within(s, dom),
        total_preorder_on(le, dom),
        fat_scanning(s, le, p, a, b, c, d),
        1 <= b < c,
        !le(s[b], p),
        !le(p, s[c - 1]),
    ensures
        b < c - 1,
        fat_scanning(swapped(s, b, c - 1), le, p, a, b + 1, c - 1, d),
{
    let t = swapped(s, b, c - 1);
    assert(le(s[b], p) || le(p, s[b]));
    assert forall|i: int| a <= i < b + 1 implies !le(p, #[trigger] t[i]) by {
        if i == b {
            assert(t[i] == s[c - 1]);
        } else {
            assert(t[i] == s[i]);
        }
    }
    assert forall|i: int| c - 1 <= i < d implies !le(#[trigger] t[i], p) by {
        if i == c - 1 {
            assert(t[i] == s[b]);
        } else {
            assert(t[i] == s[i]);
        }
    }
    assert forall|i: int| 0 <= i < a implies le(#[trigger] t[i], p) && le(p, t[i]) by {
        assert(t[i] == s[i]);
    }
    assert forall|i: int| d <= i < t.len() implies le(#[trigger] t[i], p) && le(p, t[i]) by {
        assert(t[i] == s[i]);
    }
}

/// After the scan the level elements at both ends change places with as
/// many of their lower and higher neighbours, which brings them together in
/// the middle.
proof fn lemma_fat_gather<T>(
    s: Seq<T>,
    le: spec_fn(T, T) -> bool,
    p: T,
    a: int,
    b: int,
    d: int,
    l: int,
    r: int,
)
    requires
        fat_scanning(s, le, p, a, b, b, d),
        l == if a < b - a {
            a
        } else {
            b - a
        },
        r == if d - b < s.len() - d {
            d - b
        } else {
            s.len() - d
        },
    ensures
        fat_partitioned(
            blocks_swapped(blocks_swapped(s, 0, b - l, l), b, s.len() - r, r),
            le,
            p,
            b - a,
            d - b,
        ),
{
    let n = s.len() as int;
    let t = blocks_swapped(s, 0, b - l, l);
    let u = blocks_swapped(t, b, n - r, r);
    assert forall|i: int| 0 <= i < b - a implies !le(p, #[trigger] u[i]) by {
        if i < l {
            assert(u[i] == s[i + (b - l)]);
        } else {
            assert(u[i] == s[i]);
        }
    }
    assert forall|i: int| b - a <= i < n - (d - b) implies le(#[trigger] u[i], p) && le(
        p,
        u[i],
    ) by {
        if i < b {
            if b - l <= i {
                assert(u[i] == s[i - (b - l)]);
            } else {
                assert(u[i] == s[i]);
            }
        } else {
            if i < b + r {
                assert(u[i] == s[i - b + (n - r)]);
            } else {
                assert(u[i] == s[i]);
            }
        }
    }
    assert forall|i: int| n - (d - b) <= i < n implies !le(#[trigger] u[i], p) by {
        if n - r <= i {
            assert(u[i] == s[i - (n - r) + b]);
        } else {
            assert(u[i] == s[i]);
        }
    }
}

/// Partitions the slice around the element at `pivot`: lower elements come
/// first, then those level with the pivot, then higher ones. Returns the
/// number of lower and the number of higher elements.
pub fn fat_partition<T, C: Fn(&T, &T) -> Ordering>(v: &mut [T], pivot: usize, compare: &C) -> (r: (
    usize,
    usize,
))
    requires
        pivot < old(v)@.len(),
        callable_on(compare, old(v)@.to_set()),
    ensures
        final(v)@.to_multiset() == old(v)@.to_multiset(),
        r.0 + r.1 <= old(v)@.len(),
        forall|le: spec_fn(T, T) -> bool| #[trigger]
            orders(compare, le, old(v)@.to_set()) ==> fat_partitioned(
                final(v)@,
                le,
                old(v)@[idx(pivot)],
                idx(r.0),
                idx(r.1),
            ),
{
    let ghost dom = v@.to_set();
    let ghost first = v@;
    let ghost p = v@[idx(pivot)];
    proof {
        lemma_within_own_set(v@);
    }
    let n = v.len();
    let mut a: usize = 0;
    let mut b: usize = 0;
    let mut c: usize = n;
    let mut d: usize = n;
    swap_at(v, 0, pivot);
    proof {
        assert forall|le: spec_fn(T, T) -> bool| #[trigger]
            orders(compare, le, dom) implies fat_scanning(
            v@,
            le,
            p,
            idx(a),
            idx(b),
            idx(c),
            idx(d),
        ) by {
            lemma_fat_start(v@, le, dom);
        }
    }
    loop
        invariant
            v@.len() == n,
            n >= 1,
            a <= b <= c,
            c <= d <= n,
            within(v@, dom),
            callable_on(compare, dom),
            v@.to_multiset() == first.to_multiset(),
            forall|le: spec_fn(T, T) -> bool| #[trigger]
                orders(compare, le, dom) ==> fat_scanning(
                    v@,
                    le,
                    p,
                    idx(a),
                    idx(b),
                    idx(c),
                    idx(d),
                ),
        ensures
            forall|le: spec_fn(T, T) -> bool| #[trigger] orders(compare, le, dom) ==> b == c,
        decreases c - b,
    {
        let ghost b0 = idx(b);
        let ghost c0 = idx(c);
        while b < c
            invariant
                v@.len() == n,
                n >= 1,
                a <= b <= n,
                b0 <= b <= c,
                c == c0,
                c <= d <= n,
                within(v@, dom),
                callable_on(compare, dom),
                v@.to_multiset() == first.to_multiset(),
                forall|le: spec_fn(T, T) -> bool| #[trigger]
                    orders(compare, le, dom) ==> fat_scanning(
                        v@,
                        le,
                        p,
                        idx(a),
                        idx(b),
                        idx(c),
                        idx(d),
                    ),
            ensures
                forall|le: spec_fn(T, T) -> bool| #[trigger]
                    orders(compare, le, dom) ==> (b < c ==> !le(v@[idx(b)], p)),
            decreases c - b,
        {
            let o = compare_idxs(v, b, 0, compare);
            match o {
                Ordering::Greater => {
                    break ;
                },
                Ordering::Equal => {
                    let ghost before = v@;
                    swap_at(v, a, b);
                    proof {
                        assert forall|le: spec_fn(T, T) -> bool| #[trigger]
                            orders(compare, le, dom) implies fat_scanning(
                            v@,
                            le,
                            p,
                            a + 1,
                            b + 1,
                            idx(c),
                            idx(d),
                        ) by {
                            lemma_fat_level_left(
                                before,
                                le,
                                dom,
                                p,
                                idx(a),
                                idx(b),
                                idx(c),
                                idx(d),
                            );
                        }
                    }
                    a += 1;
                },
                Ordering::Less => {
                    proof {
                        assert forall|le: spec_fn(T, T) -> bool| #[trigger]
                            orders(compare, le, dom) implies fat_scanning(
                            v@,
                            le,
                            p,
                            idx(a),
                            b + 1,
                            idx(c),
                            idx(d),
                        ) by {
                            lemma_fat_lower(v@, le, dom, p, idx(a), idx(b), idx(c), idx(d));
                        }
                    }
                },
            }
            b += 1;
        }
        proof {
            assert forall|le: spec_fn(T, T) -> bool| #[trigger]
                orders(compare, le, dom) implies b >= 1 by {
                lemma_fat_front(v@, le, dom, p, idx(a), idx(b), idx(c), idx(d));
            }
        }
        while c > b
            invariant
                v@.len() == n,
                n >= 1,
                a <= b <= n,
                b0 <= b <= c,
                c <= c0,
                c <= d <= n,
                within(v@, dom),
                callable_on(compare, dom),
                v@.to_multiset() == first.to_multiset(),
                forall|le: spec_fn(T, T) -> bool| #[trigger]
                    orders(compare, le, dom) ==> b >= 1 && (b < c ==> !le(v@[idx(b)], p))
                        && fat_scanning(v@, le, p, idx(a), idx(b), idx(c), idx(d)),
            ensures
                forall|le: spec_fn(T, T) -> bool| #[trigger]
                    orders(compare, le, dom) ==> (b < c ==> !le(p, v@[c - 1])),
            decreases c - b,
        {
            let o = compare_idxs(v, c - 1, 0, compare);
            match o {
                Ordering::Less => {
                    break ;
                },
                Ordering::Equal => {
                    let ghost before = v@;
                    swap_at(v, c - 1, d - 1);
                    proof {
                        assert forall|le: spec_fn(T, T) -> bool| #[trigger]
                            orders(compare, le, dom) implies b >= 1 && (b < c - 1 ==> !le(
                            v@[idx(b)],
                            p,
                        )) && fat_scanning(v@, le, p, idx(a), idx(b), c - 1, d - 1) by {
                            lemma_fat_level_right(
                                before,
                                le,
                                dom,
                                p,
                                idx(a),
                                idx(b),
                                idx(c),
                                idx(d),
                            );
                        }
                    }
                    d -= 1;
                },
                Ordering::Greater => {
                    proof {
                        assert forall|le: spec_fn(T, T) -> bool| #[trigger]
                            orders(compare, le, dom) implies fat_scanning(
                            v@,
                            le,
                            p,
                            idx(a),
                            idx(b),
                            c - 1,
                            idx(d),
                        ) by {
                            lemma_fat_higher(v@, le, dom, p, idx(a), idx(b), idx(c), idx(d));
                        }
                    }
                },
            }
            c -= 1;
        }
        if c - b <= 1 {
            // the scans have met; or they have stopped at one element, of
            // which the comparator says both that it is higher than the
            // pivot and that it is lower
            proof {
                assert forall|le: spec_fn(T, T) -> bool| #[trigger]
                    orders(compare, le, dom) implies b == c by {
                    if b < c {
                        assert(le(v@[idx(b)], p) || le(p, v@[idx(b)]));
                    }
                }
            }
            break ;
        }
        let ghost before = v@;
        swap_at(v, b, c - 1);
        proof {
            assert forall|le: spec_fn(T, T) -> bool| #[trigger]
                orders(compare, le, dom) implies fat_scanning(
                v@,
                le,
                p,
                idx(a),
                b + 1,
                c - 1,
                idx(d),
            ) by {
                lemma_fat_exchange(before, le, dom, p, idx(a), idx(b), idx(c), idx(d));
            }
        }
        b += 1;
        c -= 1;
    }
    let l = if a < b - a {
        a
    } else {
        b - a
    };
    let ghost scanned = v@;
    swap_many(v, 0, b - l, l);
    let ghost halfway = v@;
    let r = if d - c < n - d {
        d - c
    } else {
        n - d
    };
    swap_many(v, b, n - r, r);
    proof {
        assert forall|le: spec_fn(T, T) -> bool| #[trigger]
            orders(compare, le, dom) implies fat_partitioned(
            v@,
            le,
            p,
            b - a,
            d - c,
        ) by {
            assert(fat_scanning(scanned, le, p, idx(a), idx(b), idx(c), idx(d)));
            lemma_pairs_are_blocks(scanned, 0, b - l, idx(l));
            lemma_pairs_are_blocks(halfway, idx(b), n - r, idx(r));
            lemma_fat_gather(scanned, le, p, idx(a), idx(b), idx(d), idx(l), idx(r));
        }
    }
    (b - a, d - c)
}

/// The result of a partition around `lower` and `upper`: the pivots stand at
/// `less - 1` and at `great + 1`; before the first are lower elements, after
/// the second higher ones, and between them elements from `lower` to `upper`.
pub open spec fn dual_partitioned<T>(
    s: Seq<T>,
    le: spec_fn(T, T) -> bool,
    lower: T,
    upper: T,
    less: int,
    great: int,
) -> bool {
    &&& 1 <= less <= great + 1 <= s.len() - 1
    &&& s[less - 1] == lower
    &&& s[great + 1] == upper
    &&& below(s, le, lower, 0, less - 1)
    &&& between(s, le, lower, upper, less, great + 1)
    &&& above(s, le, upper, great + 2, s.len() as int)
}

/// The state of the scan around two pivots, which stand at the front and at
/// the back: elements below `lower` in `1..less`, elements from `lower` to
/// `upper` in `less..k`, elements above `upper` behind `great`, and
/// `k..=great` still to be looked at.
pub open spec fn dual_scanning<T>(
    s: Seq<T>,
    le: spec_fn(T, T) -> bool,
    lower: T,
    upper: T,
    less: int,
    k: int,
    great: int,
) -> bool {
    &&& 1 <= less <= k <= great + 1 <= s.len() - 1
    &&& s[0] == lower
    &&& s[s.len() - 1] == upper
    &&& below(s, le, lower, 1, less)
    &&& between(s, le, lower, upper, less, k)
    &&& above(s, le, upper, great + 1, s.len() - 1)
}

/// The element at `k` is below the first pivot and joins the lower part.
proof fn lemma_dual_lower<T>(
    s: Seq<T>,
    le: spec_fn(T, T) -> bool,
    lower: T,
    upper: T,
    less: int,
    k: int,
    great: int,
)
    requires
        dual_scanning(s, le, lower, upper, less, k, great),
        k <= great,
        !le(lower, s[k]),
    ensures
        dual_scanning(swapped(s, k, less), le, lower, upper, less + 1, k + 1, great),
{
    let t = swapped(s, k, less);
    assert forall|i: int| 1 <= i < less + 1 implies !le(lower, #[trigger] t[i]) by {
        if i == less {
            assert(t[i] == s[k]);
        } else {
            assert(t[i] == s[i]);
        }
    }
    assert forall|i: int| less + 1 <= i < k + 1 implies le(lower, #[trigger] t[i]) && le(
        t[i],
        upper,
    ) by {
        if i == k {
            assert(t[i] == s[less]);
        } else {
            assert(t[i] == s[i]);
        }
    }
    assert forall|i: int| great + 1 <= i < t.len() - 1 implies !le(#[trigger] t[i], upper) by {
        assert(t[i] == s[i]);
    }
}

/// The element at `k` is above the second pivot, the one at `great` below
/// the first: three elements move on.
proof fn lemma_dual_higher_for_lower<T>(
    s: Seq<T>,
    le: spec_fn(T, T) -> bool,
    lower: T,
    upper: T,
    less: int,
    k: int,
    great: int,
)
    requires
        dual_scanning(s, le, lower, upper, less, k, great),
        k < great,
        !le(s[k], upper),
        !le(lower, s[great]),
    ensures
        dual_scanning(
            swapped(swapped(s, k, great), k, less),
            le,
            lower,
            upper,
            less + 1,
            k + 1,
            great - 1,
        ),
{
    let t = swapped(swapped(s, k, great), k, less);
    assert forall|i: int| 1 <= i < less + 1 implies !le(lower, #[trigger] t[i]) by {
        if i == less {
            assert(t[i] == s[great]);
        } else {
            assert(t[i] == s[i]);
        }
    }
    assert forall|i: int| less + 1 <= i < k + 1 implies le(lower, #[trigger] t[i]) && le(
        t[i],
        upper,
    ) by {
        if i == k {
            assert(t[i] == s[less]);
        } else {
            assert(t[i] == s[i]);
        }
    }
    assert forall|i: int| great <= i < t.len() - 1 implies !le(#[trigger] t[i], upper) by {
        if i == great {
            assert(t[i] == s[k]);
        } else {
            assert(t[i] == s[i]);
        }
    }
}

/// The element at `k` is above the second pivot, the one at `great` belongs
/// between the pivots: they change places.
proof fn lemma_dual_higher_for_middle<T>(
    s: Seq<T>,
    le: spec_fn(T, T) -> bool,
    lower: T,
    upper: T,
    less: int,
    k: int,
    great: int,
)
    requires
        dual_scanning(s, le, lower, upper, less, k, great),
        k < great,
        !le(s[k], upper),
        le(lower, s[great]),
        le(s[great], upper),
    ensures
        dual_scanning(swapped(s, k, great), le, lower, upper, less, k + 1, great - 1),
{
    let t = swapped(s, k, great);
    assert forall|i: int| 1 <= i < less implies !le(lower, #[trigger] t[i]) by {
        assert(t[i] == s[i]);
    }
    assert forall|i: int| less <= i < k + 1 implies le(lower, #[trigger] t[i]) && le(
        t[i],
        upper,
    ) by {
        if i == k {
            assert(t[i] == s[great]);
        } else {
            assert(t[i] == s[i]);
        }
    }
    assert forall|i: int| great <= i < t.len() - 1 implies !le(#[trigger] t[i], upper) by {
        if i == great {
            assert(t[i] == s[k]);
        } else {
            assert(t[i] == s[i]);
        }
    }
}

/// When nothing is left to look at, the pivots change places with the last
/// of the lower and the first of the higher elements.
proof fn lemma_dual_settle<T>(
    s: Seq<T>,
    le: spec_fn(T, T) -> bool,
    lower: T,
    upper: T,
    less: int,
    great: int,
)
    requires
        dual_scanning(s, le, lower, upper, less, great + 1, great),
    ensures
        dual_partitioned(
            swapped(swapped(s, 0, less - 1), s.len() - 1, great + 1),
            le,
            lower,
            upper,
            less,
            great,
        ),
{
    let last = s.len() - 1;
    let t = swapped(swapped(s, 0, less - 1), last, great + 1);
    assert forall|i: int| 0 <= i < less - 1 implies !le(lower, #[trigger] t[i]) by {
        if i == 0 {
            assert(t[i] == s[less - 1]);
        } else {
            assert(t[i] == s[i]);
        }
    }
    assert forall|i: int| less <= i < great + 1 implies le(lower, #[trigger] t[i]) && le(
        t[i],
        upper,
    ) by {
        assert(t[i] == s[i]);
    }
    assert forall|i: int| great + 2 <= i < t.len() implies !le(#[trigger] t[i], upper) by {
        if i == last {
            assert(t[i] == s[great + 1]);
        } else {
            assert(t[i] == s[i]);
        }
    }
}

/// Partitions the slice around the elements at `lower` and `upper`, of which
/// the first is meant to be no greater than the second. The pivots wait at
/// the front and at the back while the rest is sorted into three parts, and
/// then take their places between the parts. Returns `(less, great)`: the lower part is
/// `..less - 1`, the middle part `less..great + 1`, the higher part
/// `great + 2..`.
pub fn dual_pivot_partition<T, C: Fn(&T, &T) -> Ordering>(
    v: &mut [T],
    lower: usize,
    upper: usize,
    compare: &C,
) -> (r: (usize, usize))
    requires
        0 < lower < old(v)@.len() - 1,
        0 < upper < old(v)@.len() - 1,
        lower != upper,
        callable_on(compare, old(v)@.to_set()),
    ensures
        final(v)@.to_multiset() == old(v)@.to_multiset(),
        1 <= r.0 <= r.1 + 1 <= old(v)@.len() - 1,
        forall|le: spec_fn(T, T) -> bool| #[trigger]
            orders(compare, le, old(v)@.to_set()) ==> dual_partitioned(
                final(v)@,
                le,
                old(v)@[idx(lower)],
                old(v)@[idx(upper)],
                idx(r.0),
                idx(r.1),
            ),
{
    let ghost dom = v@.to_set();
    let ghost first = v@;
    let ghost e1 = v@[idx(lower)];
    let ghost e2 = v@[idx(upper)];
    proof {
        lemma_within_own_set(v@);
    }
    let n = v.len();
    let last = n - 1;
    swap_at(v, 0, lower);
    swap_at(v, last, upper);
    let mut less: usize = 1;
    while less < last
        invariant
            v@.len() == n,
            last == n - 1,
            1 <= less <= last,
            n >= 4,
            within(v@, dom),
            callable_on(compare, dom),
            v@.to_multiset() == first.to_multiset(),
            forall|le: spec_fn(T, T) -> bool| #[trigger]
                orders(compare, le, dom) ==> dual_scanning(
                    v@,
                    le,
                    e1,
                    e2,
                    idx(less),
                    idx(less),
                    last - 1,
                ),
        decreases last - less,
    {
        match compare_idxs(v, less, 0, compare) {
            Ordering::Less => {},
            _ => {
                break ;
            },
        }
        less += 1;
    }
    let mut great: usize = last - 1;
    while great >= less
        invariant
            v@.len() == n,
            last == n - 1,
            1 <= less <= great + 1 <= last,
            within(v@, dom),
            callable_on(compare, dom),
            v@.to_multiset() == first.to_multiset(),
            forall|le: spec_fn(T, T) -> bool| #[trigger]
                orders(compare, le, dom) ==> dual_scanning(
                    v@,
                    le,
                    e1,
                    e2,
                    idx(less),
                    idx(less),
                    idx(great),
                ),
        decreases great,
    {
        match compare_idxs(v, great, last, compare) {
            Ordering::Greater => {},
            _ => {
                break ;
            },
        }
        great -= 1;
    }
    let mut k: usize = less;
    while k <= great
        invariant_except_break
            forall|le: spec_fn(T, T) -> bool| #[trigger]
                orders(compare, le, dom) ==> dual_scanning(
                    v@,
                    le,
                    e1,
                    e2,
                    idx(less),
                    idx(k),
                    idx(great),
                ),
        invariant
            v@.len() == n,
            last == n - 1,
            1 <= less <= k <= great + 1 <= last,
            within(v@, dom),
            callable_on(compare, dom),
            v@.to_multiset() == first.to_multiset(),
        ensures
            forall|le: spec_fn(T, T) -> bool| #[trigger]
                orders(compare, le, dom) ==> dual_scanning(
                    v@,
                    le,
                    e1,
                    e2,
                    idx(less),
                    great + 1,
                    idx(great),
                ),
        decreases great + 1 - k,
    {
        match compare_idxs(v, k, 0, compare) {
            Ordering::Less => {
                let ghost before = v@;
                swap_at(v, k, less);
                proof {
                    assert forall|le: spec_fn(T, T) -> bool| #[trigger]
                        orders(compare, le, dom) implies dual_scanning(
                        v@,
                        le,
                        e1,
                        e2,
                        less + 1,
                        k + 1,
                        idx(great),
                    ) by {
                        lemma_dual_lower(before, le, e1, e2, idx(less), idx(k), idx(great));
                    }
                }
                less += 1;
            },
            _ => {
                match compare_idxs(v, k, last, compare) {
                    Ordering::Greater => {
                        let ghost scanned = v@;
                        let ghost great0 = great;
                        loop
                            invariant_except_break
                                k <= great,
                            invariant
                                great <= great0,
                                v@ == scanned,
                                v@.len() == n,
                                last == n - 1,
                                1 <= less <= k <= great + 1 <= last,
                                within(v@, dom),
                                callable_on(compare, dom),
                                forall|le: spec_fn(T, T) -> bool| #[trigger]
                                    orders(compare, le, dom) ==> !le(v@[idx(k)], e2)
                                        && dual_scanning(
                                        v@,
                                        le,
                                        e1,
                                        e2,
                                        idx(less),
                                        idx(k),
                                        idx(great),
                                    ),
                            ensures
                                forall|le: spec_fn(T, T) -> bool| #[trigger]
                                    orders(compare, le, dom) ==> (k <= great ==> le(
                                        v@[idx(great)],
                                        e2,
                                    )),
                            decreases great,
                        {
                            match compare_idxs(v, great, last, compare) {
                                Ordering::Greater => {},
                                _ => {
                                    break ;
                                },
                            }
                            great -= 1;
                            if great < k {
                                break ;
                            }
                        }
                        if great <= k {
                            break ;
                        }
                        match compare_idxs(v, great, 0, compare) {
                            Ordering::Less => {
                                swap_at(v, k, great);
                                swap_at(v, k, less);
                                proof {
                                    assert forall|le: spec_fn(T, T) -> bool| #[trigger]
                                        orders(compare, le, dom) implies dual_scanning(
                                        v@,
                                        le,
                                        e1,
                                        e2,
                                        less + 1,
                                        k + 1,
                                        great - 1,
                                    ) by {
                                        lemma_dual_higher_for_lower(
                                            scanned,
                                            le,
                                            e1,
                                            e2,
                                            idx(less),
                                            idx(k),
                                            idx(great),
                                        );
                                    }
                                }
                                less += 1;
                            },
                            _ => {
                                swap_at(v, k, great);
                                proof {
                                    assert forall|le: spec_fn(T, T) -> bool| #[trigger]
                                        orders(compare, le, dom) implies dual_scanning(
                                        v@,
                                        le,
                                        e1,
                                        e2,
                                        idx(less),
                                        k + 1,
                                        great - 1,
                                    ) by {
                                        lemma_dual_higher_for_middle(
                                            scanned,
                                            le,
                                            e1,
                                            e2,
                                            idx(less),
                                            idx(k),
                                            idx(great),
                                        );
                                    }
                                }
                            },
                        }
                        great -= 1;
                    },
                    _ => {},
                }
            },
        }
        k += 1;
    }
    let ghost scanned = v@;
    swap_at(v, 0, less - 1);
    swap_at(v, last, great + 1);
    proof {
        assert forall|le: spec_fn(T, T) -> bool| #[trigger]
            orders(compare, le, dom) implies dual_partitioned(
            v@,
            le,
            e1,
            e2,
            idx(less),
            idx(great),
        ) by {
            lemma_dual_settle(scanned, le, e1, e2, idx(less), idx(great));
        }
    }
    (less, great)
}

} // verus!
