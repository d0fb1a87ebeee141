//! The sort itself: quicksort on one pivot or on two, with insertion sort
//! for short slices and heapsort once the recursion has gone too deep.

use crate::exchange::{
    arranges, idx, lemma_range_element, lemma_range_multiset, part, rearranges_range, size,
};
use crate::heap::heapsort;
use crate::insertion::{compare_idxs, insertion_sort};
use crate::order::{
    callable_on, chains, lemma_callable_on_subset, lemma_orders_subset, lemma_part_within,
    le_at, lemma_same_elements, lemma_unmoved_is_stable, lemma_within_own_set,
    level_order_upto, never_greater, orders, sorted_range, stably_arranged, three_way,
    total_preorder_on, within,
};
use crate::partition::{
    dual_partitioned, dual_pivot_partition, fat_partition, fat_partitioned,
};
use core::cmp::Ordering;
use vstd::prelude::*;
use vstd::relations::sorted_by;
use vstd::std_specs::cmp::OrdSpec;

verus! {

/// The smallest number of elements that may be quicksorted. The choice of
/// pivots needs at least 9.
pub const MIN_QUICKSORT_ELEMS: usize = 10;

/// The greatest number of elements that are sorted by insertion.
pub const MAX_INSERTION_SORT_ELEMS: usize = 42;

/// Divided by the size of an element in bytes, this gives the number of
/// elements up to which a slice is sorted by insertion.
pub const INSERTION_SORT_FACTOR: usize = 450;

/// The length up to which slices of elements of `size` bytes are sorted by
/// insertion: `INSERTION_SORT_FACTOR / size`, kept between
/// `MIN_QUICKSORT_ELEMS` and `MAX_INSERTION_SORT_ELEMS`; for elements without
/// size it is `MAX_INSERTION_SORT_ELEMS`.
pub open spec fn insertion_threshold(size: nat) -> int {
    if size == 0 {
        MAX_INSERTION_SORT_ELEMS as int
    } else if INSERTION_SORT_FACTOR as nat / size < MIN_QUICKSORT_ELEMS {
        MIN_QUICKSORT_ELEMS as int
    } else if INSERTION_SORT_FACTOR as nat / size > MAX_INSERTION_SORT_ELEMS {
        MAX_INSERTION_SORT_ELEMS as int
    } else {
        (INSERTION_SORT_FACTOR as nat / size) as int
    }
}

/// The number of binary digits of `x`.
pub open spec fn bit_length(x: nat) -> nat
    decreases x,
{
    if x == 0 {
        0
    } else {
        1 + bit_length(x / 2)
    }
}

/// The logarithm of `x` to the base 2, rounded down; 0 for 0.
pub open spec fn log2_of(x: nat) -> nat {
    if x <= 1 {
        0
    } else {
        (bit_length(x) - 1) as nat
    }
}

/// A number below the `k`-th power of 2 has at most `k` binary digits.
proof fn lemma_bit_length_bound(x: nat, k: nat)
    requires
        x < vstd::arithmetic::power2::pow2(k),
    ensures
        bit_length(x) <= k,
    decreases k,
{
    vstd::arithmetic::power2::lemma2_to64();
    if x != 0 {
        if k == 0 {
        } else {
            vstd::arithmetic::power2::lemma_pow2_unfold(k);
            lemma_bit_length_bound(x / 2, (k - 1) as nat);
        }
    }
}

/// The power of 2 with the rounded logarithm of `x` is no greater than `x`.
proof fn lemma_pow2_log2(x: nat)
    requires
        x >= 1,
    ensures
        vstd::arithmetic::power2::pow2(log2_of(x)) <= x,
    decreases x,
{
    vstd::arithmetic::power2::lemma2_to64();
    if x >= 2 {
        lemma_pow2_log2(x / 2);
        assert(bit_length(1) == 1) by {
            assert(bit_length(0) == 0);
        }
        assert(log2_of(x) == log2_of(x / 2) + 1);
        vstd::arithmetic::power2::lemma_pow2_unfold(log2_of(x));
    }
}

/// The logarithm of `x` to the base 2, rounded down; 0 for 0.
pub fn log2(x: usize) -> (r: u32)
    ensures
        r == log2_of(x as nat),
        r < 64,
{
    proof {
        vstd::arithmetic::power2::lemma2_to64();
        lemma_bit_length_bound(x as nat, 64);
        assert(bit_length(1) == 1) by {
            assert(bit_length(0) == 0);
        }
    }
    let mut r: u32 = 0;
    let mut y = x;
    while y > 1
        invariant
            x >= 1 ==> y >= 1,
            x == 0 ==> y == 0 && r == 0,
            r + bit_length(y as nat) == bit_length(x as nat),
            bit_length(x as nat) <= 64,
        decreases y,
    {
        y = y / 2;
        r += 1;
    }
    r
}

/// The depth of recursion beyond which a slice of `n` elements is handed to
/// heapsort: one and a half times the logarithm of `n` to the base 2, each
/// rounded down.
pub open spec fn depth_limit(n: nat) -> nat {
    3 * log2_of(n) / 2
}

/// The depth limit is no more than one and a half times the logarithm of
/// `n`: 2 to the power of twice the limit is no more than the cube of `n`.
pub proof fn lemma_depth_limit(n: nat)
    requires
        n >= 1,
    ensures
        vstd::arithmetic::power2::pow2(2 * depth_limit(n)) <= n * n * n,
{
    let k = log2_of(n);
    let r = depth_limit(n);
    let p = vstd::arithmetic::power2::pow2(k);
    lemma_pow2_log2(n);
    vstd::arithmetic::power2::lemma_pow2_pos(k);
    vstd::arithmetic::power2::lemma_pow2_adds(k, k);
    vstd::arithmetic::power2::lemma_pow2_adds(k + k, k);
    assert(2 * r <= 3 * k);
    if 2 * r < 3 * k {
        vstd::arithmetic::power2::lemma_pow2_strictly_increases(2 * r, 3 * k);
    }
    assert(k + k + k == 3 * k);
    assert(vstd::arithmetic::power2::pow2(3 * k) == p * p * p);
    assert(p * p * p <= n * n * n) by (nonlinear_arith)
        requires
            0 < p <= n,
    ;
}

/// The depth of recursion beyond which a slice of `n` elements is handed to
/// heapsort.
pub fn heapsort_depth(n: usize) -> (r: u32)
    ensures
        r == depth_limit(n as nat),
        n >= 1 ==> vstd::arithmetic::power2::pow2(2 * r as nat) <= n * n * n,
        r <= 96,
{
    proof {
        if n >= 1 {
            lemma_depth_limit(n as nat);
        }
    }
    (3 * log2(n)) / 2
}

/// The length up to which slices of `T` are sorted by insertion.
pub fn threshold<T>() -> (r: usize)
    ensures
        r == insertion_threshold(vstd::layout::size_of::<T>()),
{
    let size = core::mem::size_of::<T>();
    if size == 0 {
        MAX_INSERTION_SORT_ELEMS
    } else {
        let q = INSERTION_SORT_FACTOR / size;
        if q < MIN_QUICKSORT_ELEMS {
            MIN_QUICKSORT_ELEMS
        } else if q > MAX_INSERTION_SORT_ELEMS {
            MAX_INSERTION_SORT_ELEMS
        } else {
            q
        }
    }
}

/// Sorts the slice by insertion if it is short enough for that, and says
/// whether it did.
pub fn maybe_insertion_sort<T, C: Fn(&T, &T) -> Ordering>(v: &mut [T], compare: &C) -> (done: bool)
    requires
        callable_on(compare, old(v)@.to_set()),
    ensures
        done <==> old(v)@.len() <= insertion_threshold(vstd::layout::size_of::<T>()),
        !done ==> final(v)@ == old(v)@,
        final(v)@.to_multiset() == old(v)@.to_multiset(),
        forall|le: spec_fn(T, T) -> bool| #[trigger]
            orders(compare, le, old(v)@.to_set()) && done ==> sorted_by(final(v)@, le),
        forall|le: spec_fn(T, T) -> bool| #[trigger]
            orders(compare, le, old(v)@.to_set()) && sorted_by(old(v)@, le) ==> final(v)@ == old(
                v,
            )@,
        old(v)@.len() <= 1 ==> final(v)@ == old(v)@,
        stably_arranged(compare, old(v)@, final(v)@),
        never_greater(compare, old(v)@) ==> final(v)@ == old(v)@,
{
    let n = v.len();
    proof {
        lemma_unmoved_is_stable(compare, v@);
    }
    if n <= 1 {
        return true;
    }
    if n <= threshold::<T>() {
        insertion_sort(v, compare);
        return true;
    }
    return false;
}

/// About a seventh of `n`.
pub open spec fn seventh_of(n: int) -> int {
    n / 8 + n / 64 + 1
}

/// `e` is one of the five positions of a slice of `n` elements from which
/// the pivots are taken: the middle, and one and two sevenths to each side.
pub open spec fn is_sample(n: usize, e: usize) -> bool {
    let m = n as int / 2;
    let s = seventh_of(n as int);
    e == m - 2 * s || e == m - s || e == m || e == m + s || e == m + 2 * s
}

/// The five positions from which the pivots are taken lie inside the slice,
/// off its two ends, and differ from each other.
pub open spec fn spread(n: usize, e1: usize, e2: usize, e3: usize, e4: usize, e5: usize) -> bool {
    &&& 0 < e1 < n - 1 && is_sample(n, e1)
    &&& 0 < e2 < n - 1 && is_sample(n, e2)
    &&& 0 < e3 < n - 1 && is_sample(n, e3)
    &&& 0 < e4 < n - 1 && is_sample(n, e4)
    &&& 0 < e5 < n - 1 && is_sample(n, e5)
    &&& e1 != e2 && e1 != e3 && e1 != e4 && e1 != e5
    &&& e2 != e3 && e2 != e4 && e2 != e5
    &&& e3 != e4 && e3 != e5
    &&& e4 != e5
}

/// What is known of the elements at the five positions after `step` steps of
/// the sorting network, which compares, and exchanges where it must, the
/// positions 1 and 2, 4 and 5, 3 and 5, 3 and 4, 2 and 5, 1 and 4, 1 and 3,
/// 2 and 4, 2 and 3. After the ninth step the five are in order.
pub open spec fn network_after<T>(
    step: int,
    s: Seq<T>,
    le: spec_fn(T, T) -> bool,
    e1: usize,
    e2: usize,
    e3: usize,
    e4: usize,
    e5: usize,
) -> bool {
    &&& 1 <= step <= 4 || 7 <= step ==> le_at(s, le, e1, e2)
    &&& 5 <= step <= 6 ==> le_at(s, le, e1, e2) || le_at(s, le, e3, e2)
    &&& 2 <= step ==> le_at(s, le, e4, e5)
    &&& 3 <= step ==> le_at(s, le, e3, e5)
    &&& 4 <= step ==> le_at(s, le, e3, e4)
    &&& 5 <= step ==> le_at(s, le, e1, e5) && le_at(s, le, e2, e5)
    &&& 6 <= step ==> le_at(s, le, e1, e4)
    &&& 7 <= step ==> le_at(s, le, e1, e3)
    &&& 8 <= step ==> le_at(s, le, e2, e4)
    &&& 9 <= step ==> le_at(s, le, e2, e3)
}

/// What transitivity gives for the elements at `x` and `y`, which a step of
/// the sorting network may exchange, and the element at `z`.
pub open spec fn exchange_chains<T>(
    s: Seq<T>,
    le: spec_fn(T, T) -> bool,
    x: usize,
    y: usize,
    z: usize,
) -> bool {
    &&& chains(le, s[z as int], s[x as int], s[y as int])
    &&& chains(le, s[z as int], s[y as int], s[x as int])
    &&& chains(le, s[x as int], s[y as int], s[z as int])
    &&& chains(le, s[y as int], s[x as int], s[z as int])
}

/// Transitivity for the two elements of a step and each of the five.
proof fn lemma_exchange_chains<T>(
    s: Seq<T>,
    le: spec_fn(T, T) -> bool,
    dom: Set<T>,
    x: usize,
    y: usize,
    e1: usize,
    e2: usize,
    e3: usize,
    e4: usize,
    e5: usize,
)
    requires
        x < s.len(),
        y < s.len(),
        e1 < s.len(),
        e2 < s.len(),
        e3 < s.len(),
        e4 < s.len(),
        e5 < s.len(),
        within(s, dom),
        total_preorder_on(le, dom),
    ensures
        exchange_chains(s, le, x, y, e1),
        exchange_chains(s, le, x, y, e2),
        exchange_chains(s, le, x, y, e3),
        exchange_chains(s, le, x, y, e4),
        exchange_chains(s, le, x, y, e5),
{
}

/// Takes five positions about the middle of the slice and puts them in the
/// order of the elements that stand there, by a sorting network of nine
/// comparisons.
pub fn choose_pivots<T, C: Fn(&T, &T) -> Ordering>(v: &[T], compare: &C) -> (e: (
    usize,
    usize,
    usize,
    usize,
    usize,
))
    requires
        v@.len() > MIN_QUICKSORT_ELEMS,
        callable_on(compare, v@.to_set()),
    ensures
        spread(v.len(), e.0, e.1, e.2, e.3, e.4),
        forall|le: spec_fn(T, T) -> bool| #[trigger]
            orders(compare, le, v@.to_set()) ==> le_at(v@, le, e.0, e.1) && le_at(
                v@,
                le,
                e.1,
                e.2,
            ) && le_at(v@, le, e.2, e.3) && le_at(v@, le, e.3, e.4),
{
    let ghost dom = v@.to_set();
    proof {
        lemma_within_own_set(v@);
    }
    let n = v.len();

    // about a seventh of the length
    let seventh = (n / 8) + (n / 64) + 1;

    // five positions, evenly spaced about the middle
    let mut e3 = n / 2;
    let mut e2 = e3 - seventh;
    let mut e1 = e3 - 2 * seventh;
    let mut e4 = e3 + seventh;
    let mut e5 = e3 + 2 * seventh;
    assert(spread(n, e1, e2, e3, e4, e5));

    // put in order by a sorting network
    let ghost (x, y) = (e1, e2);
    maybe_swap(v, &mut e1, &mut e2, compare);
    proof {
        assert(spread(n, e1, e2, e3, e4, e5));
        assert forall|le: spec_fn(T, T) -> bool| #[trigger]
            orders(compare, le, dom) implies network_after(1, v@, le, e1, e2, e3, e4, e5) by {
            lemma_exchange_chains(v@, le, dom, x, y, e1, e2, e3, e4, e5);
        }
    }
    let ghost (x, y) = (e4, e5);
    maybe_swap(v, &mut e4, &mut e5, compare);
    proof {
        assert(spread(n, e1, e2, e3, e4, e5));
        assert forall|le: spec_fn(T, T) -> bool| #[trigger]
            orders(compare, le, dom) implies network_after(2, v@, le, e1, e2, e3, e4, e5) by {
            lemma_exchange_chains(v@, le, dom, x, y, e1, e2, e3, e4, e5);
        }
    }
    let ghost (x, y) = (e3, e5);
    maybe_swap(v, &mut e3, &mut e5, compare);
    proof {
        assert(spread(n, e1, e2, e3, e4, e5));
        assert forall|le: spec_fn(T, T) -> bool| #[trigger]
            orders(compare, le, dom) implies network_after(3, v@, le, e1, e2, e3, e4, e5) by {
            lemma_exchange_chains(v@, le, dom, x, y, e1, e2, e3, e4, e5);
        }
    }
    let ghost (x, y) = (e3, e4);
    maybe_swap(v, &mut e3, &mut e4, compare);
    proof {
        assert(spread(n, e1, e2, e3, e4, e5));
        assert forall|le: spec_fn(T, T) -> bool| #[trigger]
            orders(compare, le, dom) implies network_after(4, v@, le, e1, e2, e3, e4, e5) by {
            lemma_exchange_chains(v@, le, dom, x, y, e1, e2, e3, e4, e5);
        }
    }
    let ghost (x, y) = (e2, e5);
    maybe_swap(v, &mut e2, &mut e5, compare);
    proof {
        assert(spread(n, e1, e2, e3, e4, e5));
        assert forall|le: spec_fn(T, T) -> bool| #[trigger]
            orders(compare, le, dom) implies network_after(5, v@, le, e1, e2, e3, e4, e5) by {
            lemma_exchange_chains(v@, le, dom, x, y, e1, e2, e3, e4, e5);
        }
    }
    let ghost (x, y) = (e1, e4);
    maybe_swap(v, &mut e1, &mut e4, compare);
    proof {
        assert(spread(n, e1, e2, e3, e4, e5));
        assert forall|le: spec_fn(T, T) -> bool| #[trigger]
            orders(compare, le, dom) implies network_after(6, v@, le, e1, e2, e3, e4, e5) by {
            lemma_exchange_chains(v@, le, dom, x, y, e1, e2, e3, e4, e5);
        }
    }
    let ghost (x, y) = (e1, e3);
    maybe_swap(v, &mut e1, &mut e3, compare);
    proof {
        assert(spread(n, e1, e2, e3, e4, e5));
        assert forall|le: spec_fn(T, T) -> bool| #[trigger]
            orders(compare, le, dom) implies network_after(7, v@, le, e1, e2, e3, e4, e5) by {
            lemma_exchange_chains(v@, le, dom, x, y, e1, e2, e3, e4, e5);
        }
    }
    let ghost (x, y) = (e2, e4);
    maybe_swap(v, &mut e2, &mut e4, compare);
    proof {
        assert(spread(n, e1, e2, e3, e4, e5));
        assert forall|le: spec_fn(T, T) -> bool| #[trigger]
            orders(compare, le, dom) implies network_after(8, v@, le, e1, e2, e3, e4, e5) by {
            lemma_exchange_chains(v@, le, dom, x, y, e1, e2, e3, e4, e5);
        }
    }
    let ghost (x, y) = (e2, e3);
    maybe_swap(v, &mut e2, &mut e3, compare);
    proof {
        assert(spread(n, e1, e2, e3, e4, e5));
        assert forall|le: spec_fn(T, T) -> bool| #[trigger]
            orders(compare, le, dom) implies network_after(9, v@, le, e1, e2, e3, e4, e5) by {
            lemma_exchange_chains(v@, le, dom, x, y, e1, e2, e3, e4, e5);
        }
    }
    (e1, e2, e3, e4, e5)
}

/// A slice partitioned around one pivot is in order once its lower and its
/// higher part are.
proof fn lemma_fat_sorted<T>(
    s1: Seq<T>,
    s2: Seq<T>,
    s3: Seq<T>,
    le: spec_fn(T, T) -> bool,
    dom: Set<T>,
    p: T,
    l: int,
    r: int,
)
    requires
        within(s1, dom),
        dom.contains(p),
        total_preorder_on(le, dom),
        fat_partitioned(s1, le, p, l, r),
        rearranges_range(s1, s2, 0, l),
        rearranges_range(s2, s3, s1.len() - r, s1.len() as int),
        sorted_range(s2, le, 0, l),
        sorted_range(s3, le, s1.len() - r, s1.len() as int),
    ensures
        sorted_by(s3, le),
{
    let n = s1.len() as int;
    assert forall|i: int, j: int| 0 <= i < j < n implies #[trigger] le(s3[i], s3[j]) by {
        let i2 = lemma_range_element(s2, s3, n - r, n, i);
        let i1 = lemma_range_element(s1, s2, 0, l, i2);
        let j2 = lemma_range_element(s2, s3, n - r, n, j);
        let j1 = lemma_range_element(s1, s2, 0, l, j2);
        if j < l {
            assert(le(s2[i], s2[j]));
        } else if i >= n - r {
            assert(le(s3[i], s3[j]));
        } else {
            assert(le(p, s1[i1]) || le(s1[i1], p));
            assert(le(s1[j1], p) || le(p, s1[j1]));
            assert(chains(le, s1[i1], p, s1[j1]));
        }
    }
}

/// A slice partitioned around two pivots, the first no greater than the
/// second, is in order once its three parts are.
proof fn lemma_dual_sorted<T>(
    s1: Seq<T>,
    s2: Seq<T>,
    s3: Seq<T>,
    s4: Seq<T>,
    le: spec_fn(T, T) -> bool,
    dom: Set<T>,
    lower: T,
    upper: T,
    less: int,
    great: int,
)
    requires
        within(s1, dom),
        total_preorder_on(le, dom),
        dual_partitioned(s1, le, lower, upper, less, great),
        le(lower, upper),
        rearranges_range(s1, s2, 0, less - 1),
        rearranges_range(s2, s3, less, great + 1),
        rearranges_range(s3, s4, great + 2, s1.len() as int),
        sorted_range(s2, le, 0, less - 1),
        sorted_range(s3, le, less, great + 1),
        sorted_range(s4, le, great + 2, s1.len() as int),
    ensures
        sorted_by(s4, le),
{
    let n = s1.len() as int;
    assert(dom.contains(s1[less - 1]));
    assert(dom.contains(s1[great + 1]));
    assert(le(lower, lower) || le(lower, lower));
    assert(le(upper, upper) || le(upper, upper));
    assert forall|i: int, j: int| 0 <= i < j < n implies #[trigger] le(s4[i], s4[j]) by {
        let i3 = lemma_range_element(s3, s4, great + 2, n, i);
        let i2 = lemma_range_element(s2, s3, less, great + 1, i3);
        let i1 = lemma_range_element(s1, s2, 0, less - 1, i2);
        let j3 = lemma_range_element(s3, s4, great + 2, n, j);
        let j2 = lemma_range_element(s2, s3, less, great + 1, j3);
        let j1 = lemma_range_element(s1, s2, 0, less - 1, j2);
        if j < less - 1 {
            assert(le(s2[i], s2[j]));
        } else if less <= i && j <= great {
            assert(le(s3[i], s3[j]));
        } else if great + 2 <= i {
            assert(le(s4[i], s4[j]));
        } else {
            // the two positions lie in different parts: one of the pivots
            // stands at or between them
            assert(le(lower, s1[i1]) || le(s1[i1], lower));
            assert(le(s1[i1], upper) || le(upper, s1[i1]));
            assert(le(s1[j1], lower) || le(lower, s1[j1]));
            assert(le(upper, s1[j1]) || le(s1[j1], upper));
            if i <= less - 1 {
                assert(le(s1[i1], lower));
                if j <= great + 1 {
                    assert(le(lower, s1[j1]));
                    assert(chains(le, s1[i1], lower, s1[j1]));
                } else {
                    assert(le(upper, s1[j1]));
                    assert(chains(le, s1[i1], lower, upper));
                    assert(chains(le, s1[i1], upper, s1[j1]));
                }
            } else {
                assert(le(s1[i1], upper));
                assert(le(upper, s1[j1]));
                assert(chains(le, s1[i1], upper, s1[j1]));
            }
        }
    }
}

/// Puts two positions in the order of the elements that stand there.
pub fn maybe_swap<T, C: Fn(&T, &T) -> Ordering>(
    v: &[T],
    a: &mut usize,
    b: &mut usize,
    compare: &C,
)
    requires
        *old(a) < v@.len(),
        *old(b) < v@.len(),
        callable_on(compare, v@.to_set()),
    ensures
        (*final(a) == *old(a) && *final(b) == *old(b)) || (*final(a) == *old(b) && *final(b)
            == *old(a)),
        forall|le: spec_fn(T, T) -> bool| #[trigger]
            orders(compare, le, v@.to_set()) ==> le_at(v@, le, *final(a), *final(b)),
{
    proof {
        lemma_within_own_set(v@);
    }
    match compare_idxs(v, *a, *b, compare) {
        Ordering::Greater => {
            core::mem::swap(a, b);
        },
        _ => {},
    }
}

/// Whether the comparator tells the elements at two positions apart.
pub fn differ<T, C: Fn(&T, &T) -> Ordering>(v: &[T], a: usize, b: usize, compare: &C) -> (r: bool)
    requires
        a < v@.len(),
        b < v@.len(),
        callable_on(compare, v@.to_set()),
    ensures
        exists|o: Ordering| #[trigger]
            compare.ensures((&v@[idx(a)], &v@[idx(b)]), o) && r == (o != Ordering::Equal),
        forall|le: spec_fn(T, T) -> bool| #[trigger]
            orders(compare, le, v@.to_set()) ==> (r <==> !(le(v@[idx(a)], v@[idx(b)]) && le(
                v@[idx(b)],
                v@[idx(a)],
            ))),
{
    proof {
        lemma_within_own_set(v@);
    }
    match compare_idxs(v, a, b, compare) {
        Ordering::Equal => false,
        _ => true,
    }
}

/// Sorts the slice. `rec` is the depth of recursion that has been reached.
pub fn introsort<T, C: Fn(&T, &T) -> Ordering>(
    v: &mut [T],
    compare: &C,
    rec: u32,
    heapsort_depth: u32,
)
    requires
        callable_on(compare, old(v)@.to_set()),
        rec <= heapsort_depth + 1,
        heapsort_depth < u32::MAX,
    ensures
        final(v)@.to_multiset() == old(v)@.to_multiset(),
        forall|le: spec_fn(T, T) -> bool| #[trigger]
            orders(compare, le, old(v)@.to_set()) ==> sorted_by(final(v)@, le),
        old(v)@.len() <= 1 ==> final(v)@ == old(v)@,
        old(v)@.len() <= insertion_threshold(vstd::layout::size_of::<T>()) ==> stably_arranged(
            compare,
            old(v)@,
            final(v)@,
        ),
        old(v)@.len() <= insertion_threshold(vstd::layout::size_of::<T>()) && never_greater(
            compare,
            old(v)@,
        ) ==> final(v)@ == old(v)@,
    decreases heapsort_depth + 1 - rec, 2int,
{
    if maybe_insertion_sort(v, compare) {
        return ;
    }
    do_introsort(v, compare, rec, heapsort_depth);
}

/// Sorts the positions `lo..hi` of the slice and leaves the others alone.
pub fn introsort_part<T, C: Fn(&T, &T) -> Ordering>(
    v: &mut [T],
    lo: usize,
    hi: usize,
    compare: &C,
    rec: u32,
    heapsort_depth: u32,
)
    requires
        lo <= hi <= old(v)@.len(),
        callable_on(compare, old(v)@.to_set()),
        rec <= heapsort_depth + 1,
        heapsort_depth < u32::MAX,
    ensures
        rearranges_range(old(v)@, final(v)@, idx(lo), idx(hi)),
        final(v)@.to_multiset() == old(v)@.to_multiset(),
        forall|le: spec_fn(T, T) -> bool| #[trigger]
            orders(compare, le, old(v)@.to_set()) ==> sorted_range(
                final(v)@,
                le,
                idx(lo),
                idx(hi),
            ),
    decreases heapsort_depth + 1 - rec, 3int,
{
    let ghost first = v@;
    let ghost dom = v@.to_set();
    let ghost taken = first.subrange(idx(lo), idx(hi));
    proof {
        lemma_within_own_set(first);
        lemma_part_within(first, dom, idx(lo), idx(hi));
        lemma_callable_on_subset(compare, dom, taken.to_set());
    }
    let range = part(v, lo, hi);
    introsort(range, compare, rec, heapsort_depth);
    let ghost done = range@;
    proof {
        lemma_same_elements(taken, done);
        assert(v@ =~= first.subrange(0, idx(lo)) + done + first.subrange(idx(hi), size(first)));
        assert(v@.subrange(idx(lo), idx(hi)) =~= done);
        lemma_range_multiset(first, v@, idx(lo), idx(hi));
        assert forall|le: spec_fn(T, T) -> bool| #[trigger]
            orders(compare, le, dom) implies sorted_range(v@, le, idx(lo), idx(hi)) by {
            lemma_orders_subset(compare, le, dom, taken.to_set());
            assert(sorted_by(done, le));
            assert forall|i: int, j: int| lo <= i < j < hi implies #[trigger] le(v@[i], v@[j]) by {
                assert(v@[i] == done[i - lo]);
                assert(v@[j] == done[j - lo]);
            }
        }
    }
}

/// Sorts a slice that is too long for insertion sort: by heapsort where the
/// recursion is deeper than `heapsort_depth`, else by a partition around
/// pivots taken from five positions about the middle.
pub fn do_introsort<T, C: Fn(&T, &T) -> Ordering>(
    v: &mut [T],
    compare: &C,
    rec: u32,
    heapsort_depth: u32,
)
    requires
        rec <= heapsort_depth ==> old(v)@.len() > MIN_QUICKSORT_ELEMS,
        callable_on(compare, old(v)@.to_set()),
        rec <= heapsort_depth + 1,
        heapsort_depth < u32::MAX,
    ensures
        final(v)@.to_multiset() == old(v)@.to_multiset(),
        forall|le: spec_fn(T, T) -> bool| #[trigger]
            orders(compare, le, old(v)@.to_set()) ==> sorted_by(final(v)@, le),
    decreases heapsort_depth + 1 - rec, 1int,
{
    if rec > heapsort_depth {
        heapsort(v, compare);
        return ;
    }
    let (e1, e2, e3, e4, e5) = choose_pivots(v, compare);
    proof {
        lemma_within_own_set(v@);
        assert forall|le: spec_fn(T, T) -> bool| #[trigger]
            orders(compare, le, v@.to_set()) implies le(v@[idx(e2)], v@[idx(e4)]) by {
            assert(le_at(v@, le, e2, e3) && le_at(v@, le, e3, e4));
            assert(chains(le, v@[idx(e2)], v@[idx(e3)], v@[idx(e4)]));
        }
    }
    if differ(v, e1, e2, compare) && differ(v, e2, e3, compare) && differ(v, e3, e4, compare)
        && differ(v, e4, e5, compare) {
        // no two neighbours are level: the elements vary
        dual_pivot_sort(v, (e1, e2, e3, e4, e5), compare, rec, heapsort_depth);
    } else {
        // two neighbours are level: many elements are likely to be
        single_pivot_sort(v, e3, compare, rec, heapsort_depth);
    }
}

/// Partitions the slice around the second and the fourth of the five
/// positions and sorts the three parts.
pub fn dual_pivot_sort<T, C: Fn(&T, &T) -> Ordering>(
    v: &mut [T],
    pivots: (usize, usize, usize, usize, usize),
    compare: &C,
    rec: u32,
    heapsort_depth: u32,
)
    requires
        0 < pivots.1 < old(v)@.len() - 1,
        0 < pivots.3 < old(v)@.len() - 1,
        pivots.1 != pivots.3,
        callable_on(compare, old(v)@.to_set()),
        rec <= heapsort_depth < u32::MAX,
    ensures
        final(v)@.to_multiset() == old(v)@.to_multiset(),
        forall|le: spec_fn(T, T) -> bool| #[trigger]
            orders(compare, le, old(v)@.to_set()) && le(
                old(v)@[idx(pivots.1)],
                old(v)@[idx(pivots.3)],
            ) ==> sorted_by(final(v)@, le),
    decreases heapsort_depth + 1 - rec, 0int,
{
    let ghost first = v@;
    let ghost dom = v@.to_set();
    let (_, lower, _, upper, _) = pivots;
    let n = v.len();
    let (less, great) = dual_pivot_partition(v, lower, upper, compare);
    let ghost s1 = v@;
    proof {
        lemma_same_elements(first, s1);
        lemma_within_own_set(s1);
    }
    introsort_part(v, 0, less - 1, compare, rec + 1, heapsort_depth);
    let ghost s2 = v@;
    proof {
        lemma_same_elements(s1, s2);
    }
    introsort_part(v, less, great + 1, compare, rec + 1, heapsort_depth);
    let ghost s3 = v@;
    proof {
        lemma_same_elements(s2, s3);
    }
    introsort_part(v, great + 2, n, compare, rec + 1, heapsort_depth);
    proof {
        assert forall|le: spec_fn(T, T) -> bool| #[trigger]
            orders(compare, le, dom) && le(first[idx(lower)], first[idx(upper)]) implies sorted_by(
            v@,
            le,
        ) by {
            lemma_dual_sorted(
                s1,
                s2,
                s3,
                v@,
                le,
                dom,
                first[idx(lower)],
                first[idx(upper)],
                idx(less),
                idx(great),
            );
        }
    }
}

/// Partitions the slice around the element at `pivot` and sorts the lower
/// and the higher part.
pub fn single_pivot_sort<T, C: Fn(&T, &T) -> Ordering>(
    v: &mut [T],
    pivot: usize,
    compare: &C,
    rec: u32,
    heapsort_depth: u32,
)
    requires
        pivot < old(v)@.len(),
        callable_on(compare, old(v)@.to_set()),
        rec <= heapsort_depth < u32::MAX,
    ensures
        final(v)@.to_multiset() == old(v)@.to_multiset(),
        forall|le: spec_fn(T, T) -> bool| #[trigger]
            orders(compare, le, old(v)@.to_set()) ==> sorted_by(final(v)@, le),
    decreases heapsort_depth + 1 - rec, 0int,
{
    let ghost first = v@;
    let ghost dom = v@.to_set();
    proof {
        lemma_within_own_set(first);
    }
    let (l, r) = fat_partition(v, pivot, compare);
    let n = v.len();
    let ghost s1 = v@;
    proof {
        lemma_same_elements(first, s1);
        lemma_within_own_set(s1);
    }
    if l > 1 {
        introsort_part(v, 0, l, compare, rec + 1, heapsort_depth);
    }
    let ghost s2 = v@;
    proof {
        lemma_same_elements(s1, s2);
    }
    if r > 1 {
        introsort_part(v, n - r, n, compare, rec + 1, heapsort_depth);
    }
    proof {
        assert forall|le: spec_fn(T, T) -> bool| #[trigger]
            orders(compare, le, dom) implies sorted_by(v@, le) by {
            lemma_fat_sorted(s1, s2, v@, le, dom, first[idx(pivot)], idx(l), idx(r));
        }
    }
}

/// Sorts the slice by the comparator.
///
/// The result is a rearrangement of the slice, whatever the comparator
/// answers. Where it answers by a total preorder on the elements of the
/// slice, the result is in order by it.
pub fn sort_by<T, C: Fn(&T, &T) -> Ordering>(v: &mut [T], compare: &C)
    requires
        callable_on(compare, old(v)@.to_set()),
    ensures
        final(v)@.to_multiset() == old(v)@.to_multiset(),
        forall|le: spec_fn(T, T) -> bool| #[trigger]
            orders(compare, le, old(v)@.to_set()) ==> sorted_by(final(v)@, le),
        old(v)@.len() <= 1 ==> final(v)@ == old(v)@,
        old(v)@.len() <= insertion_threshold(vstd::layout::size_of::<T>()) ==> stably_arranged(
            compare,
            old(v)@,
            final(v)@,
        ),
        forall|le: spec_fn(T, T) -> bool| #[trigger]
            orders(compare, le, old(v)@.to_set()) && sorted_by(old(v)@, le) && old(v)@.len()
                <= insertion_threshold(vstd::layout::size_of::<T>()) ==> final(v)@ == old(v)@,
        old(v)@.len() <= insertion_threshold(vstd::layout::size_of::<T>()) && never_greater(
            compare,
            old(v)@,
        ) ==> final(v)@ == old(v)@,
{
    if maybe_insertion_sort(v, compare) {
        return ;
    }
    let heapsort_depth = heapsort_depth(v.len());
    do_introsort(v, compare, 0, heapsort_depth);
}

/// The order that `T` has by `Ord` is the total preorder `le` on `dom`:
/// the comparison of `T` is specified, and what it is specified to return
/// is the three-way answer by `le`.
pub open spec fn natural_order<T: Ord>(le: spec_fn(T, T) -> bool, dom: Set<T>) -> bool {
    &&& T::obeys_cmp_spec()
    &&& total_preorder_on(le, dom)
    &&& forall|a: T, b: T|
        dom.contains(a) && dom.contains(b) ==> #[trigger] a.cmp_spec(&b) == three_way(le, a, b)
}

/// `after` holds the elements of `before`, and where `T` has a total
/// preorder by `Ord`, those that are level by it stand in the order in which
/// they stood in `before`.
pub open spec fn naturally_stable<T: Ord>(before: Seq<T>, after: Seq<T>) -> bool {
    exists|origin: Seq<int>| #[trigger]
        arranges(origin, before, after) && forall|le: spec_fn(T, T) -> bool| #[trigger]
            natural_order::<T>(le, before.to_set()) ==> level_order_upto(
                origin,
                after,
                le,
                size(after),
            )
}

/// Sorts the slice by the order that `T` has by `Ord`.
pub fn sort<T: Ord>(v: &mut [T])
    ensures
        final(v)@.to_multiset() == old(v)@.to_multiset(),
        forall|le: spec_fn(T, T) -> bool| #[trigger]
            natural_order::<T>(le, old(v)@.to_set()) ==> sorted_by(final(v)@, le),
        old(v)@.len() <= 1 ==> final(v)@ == old(v)@,
        old(v)@.len() <= insertion_threshold(vstd::layout::size_of::<T>()) ==> naturally_stable::<
            T,
        >(old(v)@, final(v)@),
        forall|le: spec_fn(T, T) -> bool| #[trigger]
            natural_order::<T>(le, old(v)@.to_set()) && sorted_by(old(v)@, le) && old(v)@.len()
                <= insertion_threshold(vstd::layout::size_of::<T>()) ==> final(v)@ == old(v)@,
{
    let compare = |a: &T, b: &T| -> (o: Ordering)
        ensures
            T::obeys_cmp_spec() ==> o == a.cmp_spec(b),
        { a.cmp(b) };
    let ghost dom = v@.to_set();
    proof {
        assert forall|le: spec_fn(T, T) -> bool| #[trigger]
            natural_order::<T>(le, dom) implies orders(&compare, le, dom) by {}
    }
    let ghost first = v@;
    sort_by(v, &compare);
    proof {
        if first.len() <= insertion_threshold(vstd::layout::size_of::<T>()) {
            let origin = choose|origin: Seq<int>| #[trigger]
                arranges(origin, first, v@) && forall|le: spec_fn(T, T) -> bool| #[trigger]
                    orders(&compare, le, dom) ==> level_order_upto(origin, v@, le, size(v@));
            assert(arranges(origin, first, v@));
            assert forall|le: spec_fn(T, T) -> bool| #[trigger]
                natural_order::<T>(le, dom) implies level_order_upto(
                origin,
                v@,
                le,
                size(v@),
            ) by {
                assert(orders(&compare, le, dom));
            }
        }
    }
}

} // verus!
