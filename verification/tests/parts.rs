use quickersort::exchange::{part, swap_at, swap_many};
use quickersort::heap::{heapify, room, siftdown, siftdown_range};
use quickersort::insertion::compare_idxs;
use quickersort::introsort::{
    choose_pivots, differ, dual_pivot_sort, heapsort_depth, introsort_part, log2,
    maybe_insertion_sort,
    maybe_swap, single_pivot_sort, threshold, INSERTION_SORT_FACTOR, MAX_INSERTION_SORT_ELEMS,
    MIN_QUICKSORT_ELEMS,
};
use quickersort::partition::{dual_pivot_partition, fat_partition};
use std::cmp::Ordering;

fn ascending(a: &u32, b: &u32) -> Ordering {
    a.cmp(b)
}

fn is_heap(v: &[u32], from: usize, end: usize) -> bool {
    (1..end).all(|i| (i - 1) / 4 < from || v[(i - 1) / 4] >= v[i])
}

#[test]
fn swap_at_exchanges_two_elements() {
    let mut v = [10, 20, 30, 40];
    swap_at(&mut v, 0, 3);
    assert_eq!(v, [40, 20, 30, 10]);
    swap_at(&mut v, 2, 1);
    assert_eq!(v, [40, 30, 20, 10]);
    swap_at(&mut v, 2, 2);
    assert_eq!(v, [40, 30, 20, 10]);
}

#[test]
fn swap_many_exchanges_blocks() {
    let mut v = [0, 1, 2, 3, 4, 5, 6];
    swap_many(&mut v, 0, 4, 3);
    assert_eq!(v, [4, 5, 6, 3, 0, 1, 2]);
    swap_many(&mut v, 5, 1, 2);
    assert_eq!(v, [4, 1, 2, 3, 0, 5, 6]);
    swap_many(&mut v, 2, 6, 0);
    assert_eq!(v, [4, 1, 2, 3, 0, 5, 6]);
}

#[test]
fn swap_many_goes_pair_by_pair_where_blocks_overlap() {
    let mut v = [0, 1, 2, 3];
    swap_many(&mut v, 0, 1, 2);
    assert_eq!(v, [1, 2, 0, 3]);
}

#[test]
fn part_gives_a_range_to_change() {
    let mut v = [0, 1, 2, 3, 4, 5];
    {
        let p = part(&mut v, 2, 5);
        assert_eq!(p, [2, 3, 4]);
        p[0] = 20;
        p[2] = 40;
    }
    assert_eq!(v, [0, 1, 20, 3, 40, 5]);
    assert_eq!(part(&mut v, 3, 3).len(), 0);
    assert_eq!(part(&mut v, 0, 6).len(), 6);
}

#[test]
fn compare_idxs_compares_what_stands_there() {
    let v = [5u32, 1, 5];
    assert_eq!(compare_idxs(&v, 0, 1, &ascending), Ordering::Greater);
    assert_eq!(compare_idxs(&v, 1, 0, &ascending), Ordering::Less);
    assert_eq!(compare_idxs(&v, 0, 2, &ascending), Ordering::Equal);
}

#[test]
fn log2_is_the_logarithm_rounded_down() {
    assert_eq!(log2(0), 0);
    assert_eq!(log2(1), 0);
    assert_eq!(log2(2), 1);
    assert_eq!(log2(3), 1);
    assert_eq!(log2(4), 2);
    assert_eq!(log2(63), 5);
    assert_eq!(log2(64), 6);
    assert_eq!(log2(1000), 9);
    assert_eq!(log2(1023), 9);
    assert_eq!(log2(1024), 10);
    assert_eq!(log2(usize::MAX), usize::BITS - 1);
}

#[test]
fn heapsort_depth_is_one_and_a_half_times_log2() {
    assert_eq!(heapsort_depth(0), 0);
    assert_eq!(heapsort_depth(1), 0);
    assert_eq!(heapsort_depth(2), 1);
    assert_eq!(heapsort_depth(4), 3);
    assert_eq!(heapsort_depth(43), 7);
    assert_eq!(heapsort_depth(64), 9);
    assert_eq!(heapsort_depth(1000), 13);
    assert_eq!(heapsort_depth(1024), 15);
    assert_eq!(heapsort_depth(usize::MAX), 3 * (usize::BITS - 1) / 2);
    // never more than one and a half times the logarithm
    for n in 1..2000u128 {
        let r = heapsort_depth(n as usize);
        assert!(1u128 << (2 * r) <= n * n * n);
    }
}

#[test]
fn threshold_follows_the_size_of_an_element() {
    assert_eq!(MIN_QUICKSORT_ELEMS, 10);
    assert_eq!(MAX_INSERTION_SORT_ELEMS, 42);
    assert_eq!(INSERTION_SORT_FACTOR, 450);
    assert_eq!(threshold::<u8>(), 42);
    assert_eq!(threshold::<u64>(), 42);
    assert_eq!(threshold::<[u8; 10]>(), 42);
    assert_eq!(threshold::<[u8; 11]>(), 40);
    assert_eq!(threshold::<[u8; 15]>(), 30);
    assert_eq!(threshold::<[u8; 45]>(), 10);
    assert_eq!(threshold::<[u8; 46]>(), 10);
    assert_eq!(threshold::<[u64; 100]>(), 10);
    assert_eq!(threshold::<()>(), 42);
}

#[test]
fn maybe_insertion_sort_takes_short_slices_only() {
    let mut v: Vec<u32> = (0..42).rev().collect();
    assert!(maybe_insertion_sort(&mut v, &ascending));
    assert_eq!(v, (0..42).collect::<Vec<u32>>());

    let mut v: Vec<u32> = (0..43).rev().collect();
    assert!(!maybe_insertion_sort(&mut v, &ascending));
    assert_eq!(v, (0..43).rev().collect::<Vec<u32>>());

    let mut v: Vec<u32> = vec![];
    assert!(maybe_insertion_sort(&mut v, &ascending));
    let mut v: Vec<u32> = vec![3];
    assert!(maybe_insertion_sort(&mut v, &ascending));
    assert_eq!(v, [3]);

    // elements of 64 bytes: up to 10 of them
    let wide = |a: &[u64; 8], b: &[u64; 8]| a[0].cmp(&b[0]);
    let mut v: Vec<[u64; 8]> = (0..10).rev().map(|x| [x; 8]).collect();
    assert!(maybe_insertion_sort(&mut v, &wide));
    assert_eq!(v, (0..10).map(|x| [x; 8]).collect::<Vec<[u64; 8]>>());
    let mut v: Vec<[u64; 8]> = (0..11).rev().map(|x| [x; 8]).collect();
    assert!(!maybe_insertion_sort(&mut v, &wide));
    assert_eq!(v, (0..11).rev().map(|x| [x; 8]).collect::<Vec<[u64; 8]>>());
}

#[test]
fn elements_without_size_are_sorted_too() {
    let mut v = vec![(); 100];
    quickersort::sort_by(&mut v, &|_: &(), _: &()| Ordering::Equal);
    assert_eq!(v.len(), 100);
    let mut v = vec![(); 100];
    quickersort::heapsort(&mut v, &|_: &(), _: &()| Ordering::Equal);
    assert_eq!(v.len(), 100);
}

#[test]
fn maybe_swap_orders_two_positions() {
    let v = [5u32, 1, 5];
    let (mut a, mut b) = (0usize, 1usize);
    maybe_swap(&v, &mut a, &mut b, &ascending);
    assert_eq!((a, b), (1, 0));
    maybe_swap(&v, &mut a, &mut b, &ascending);
    assert_eq!((a, b), (1, 0));
    let (mut a, mut b) = (2usize, 0usize);
    maybe_swap(&v, &mut a, &mut b, &ascending);
    assert_eq!((a, b), (2, 0));
}

#[test]
fn differ_tells_level_elements() {
    let v = [1u32, 1, 2];
    assert!(!differ(&v, 0, 1, &ascending));
    assert!(differ(&v, 1, 2, &ascending));
    assert!(differ(&v, 2, 1, &ascending));
}

#[test]
fn choose_pivots_takes_five_positions_about_the_middle() {
    // 11 elements: a seventh is 2, the middle is 5
    let v: Vec<u32> = (0..11).collect();
    assert_eq!(choose_pivots(&v, &ascending), (1, 3, 5, 7, 9));
    let v: Vec<u32> = (0..11).rev().collect();
    assert_eq!(choose_pivots(&v, &ascending), (9, 7, 5, 3, 1));
    // 100 elements: a seventh is 12 + 1 + 1, the middle is 50
    let v: Vec<u32> = (0..100).collect();
    assert_eq!(choose_pivots(&v, &ascending), (22, 36, 50, 64, 78));
    let mut v: Vec<u32> = (0..100).collect();
    v[22] = 500;
    v[64] = 0;
    assert_eq!(choose_pivots(&v, &ascending), (64, 36, 50, 78, 22));
}

#[test]
fn choose_pivots_orders_every_arrangement() {
    // the five positions of 11 elements, filled with every arrangement of
    // five keys, of which some are level
    let keys = [1u32, 2, 2, 3, 5];
    let mut count = 0;
    for a in 0..5 {
        for b in 0..5 {
            for c in 0..5 {
                for d in 0..5 {
                    for e in 0..5 {
                        let pick = [a, b, c, d, e];
                        let mut seen = [false; 5];
                        for p in pick {
                            seen[p] = true;
                        }
                        if seen != [true; 5] {
                            continue;
                        }
                        count += 1;
                        let mut v = vec![0u32; 11];
                        for (i, p) in pick.iter().enumerate() {
                            v[1 + 2 * i] = keys[*p];
                        }
                        let (e1, e2, e3, e4, e5) = choose_pivots(&v, &ascending);
                        let mut at = [e1, e2, e3, e4, e5];
                        assert_eq!([v[e1], v[e2], v[e3], v[e4], v[e5]], keys);
                        at.sort();
                        assert_eq!(at, [1, 3, 5, 7, 9]);
                    }
                }
            }
        }
    }
    assert_eq!(count, 120);
}

#[test]
fn fat_partition_counts_lower_and_higher() {
    let mut v = [3u32, 1, 3, 5, 2, 3, 4];
    let (l, r) = fat_partition(&mut v, 0, &ascending);
    assert_eq!((l, r), (2, 2));
    assert!(v[..2].iter().all(|x| *x < 3));
    assert_eq!(v[2..5], [3, 3, 3]);
    assert!(v[5..].iter().all(|x| *x > 3));

    let mut v = [4u32, 9, 1, 7, 7, 0, 7, 8];
    let (l, r) = fat_partition(&mut v, 4, &ascending);
    assert_eq!((l, r), (3, 2));
    let mut low = v[..3].to_vec();
    low.sort();
    assert_eq!(low, [0, 1, 4]);
    assert_eq!(v[3..6], [7, 7, 7]);
    let mut high = v[6..].to_vec();
    high.sort();
    assert_eq!(high, [8, 9]);

    let mut v = [6u32];
    assert_eq!(fat_partition(&mut v, 0, &ascending), (0, 0));
    let mut v = [2u32; 9];
    assert_eq!(fat_partition(&mut v, 5, &ascending), (0, 0));
    assert_eq!(v, [2; 9]);
    let mut v = [1u32, 2, 3, 4, 5];
    assert_eq!(fat_partition(&mut v, 4, &ascending), (4, 0));
    let mut v = [1u32, 2, 3, 4, 5];
    assert_eq!(fat_partition(&mut v, 0, &ascending), (0, 4));
}

#[test]
fn fat_partition_lives_with_any_answers() {
    let less = |_: &u32, _: &u32| Ordering::Less;
    let greater = |_: &u32, _: &u32| Ordering::Greater;
    for n in 1..30usize {
        for pivot in 0..n {
            let mut v: Vec<u32> = (0..n as u32).collect();
            let (l, r) = fat_partition(&mut v, pivot, &less);
            assert!(l + r <= n);
            v.sort();
            assert_eq!(v, (0..n as u32).collect::<Vec<u32>>());

            let mut v: Vec<u32> = (0..n as u32).collect();
            let (l, r) = fat_partition(&mut v, pivot, &greater);
            assert!(l + r <= n);
            v.sort();
            assert_eq!(v, (0..n as u32).collect::<Vec<u32>>());
        }
    }
}

#[test]
fn fat_partition_counts_no_element_twice() {
    // answers that follow no order: they go round Greater, Less, Equal
    for n in 1..40usize {
        for pivot in 0..n {
            for first in 0..3u32 {
                let turn = std::cell::Cell::new(first);
                let round = |_: &u32, _: &u32| {
                    turn.set((turn.get() + 1) % 3);
                    match turn.get() {
                        0 => Ordering::Equal,
                        1 => Ordering::Greater,
                        _ => Ordering::Less,
                    }
                };
                let mut v: Vec<u32> = (0..n as u32).collect();
                let (l, r) = fat_partition(&mut v, pivot, &round);
                assert!(l + r <= n);
                v.sort();
                assert_eq!(v, (0..n as u32).collect::<Vec<u32>>());
            }
        }
    }
    // one element, said to be higher than itself and then lower
    let turn = std::cell::Cell::new(0u32);
    let mut v = [7u32];
    let (l, r) = fat_partition(&mut v, 0, &|_: &u32, _: &u32| {
        turn.set(turn.get() + 1);
        if turn.get() == 1 {
            Ordering::Greater
        } else {
            Ordering::Less
        }
    });
    assert_eq!((l, r), (0, 0));
    assert_eq!(v, [7]);
}

#[test]
fn dual_pivot_partition_makes_three_parts() {
    let mut v = [9u32, 2, 7, 4, 1, 8, 3, 6, 5, 0];
    let (less, great) = dual_pivot_partition(&mut v, 6, 7, &ascending);
    assert_eq!((less, great), (4, 5));
    assert_eq!(v[less - 1], 3);
    assert_eq!(v[great + 1], 6);
    assert!(v[..less - 1].iter().all(|x| *x < 3));
    assert!(v[less..great + 1].iter().all(|x| 3 <= *x && *x <= 6));
    assert!(v[great + 2..].iter().all(|x| *x > 6));
    let mut all = v.to_vec();
    all.sort();
    assert_eq!(all, [0, 1, 2, 3, 4, 5, 6, 7, 8, 9]);

    // pivots that are the least and the greatest
    let mut v = [5u32, 0, 3, 9, 4];
    let (less, great) = dual_pivot_partition(&mut v, 1, 3, &ascending);
    assert_eq!((less, great), (1, 3));
    assert_eq!(v[0], 0);
    assert_eq!(v[4], 9);
}

#[test]
fn dual_pivot_partition_lives_with_any_answers() {
    let less = |_: &u32, _: &u32| Ordering::Less;
    let greater = |_: &u32, _: &u32| Ordering::Greater;
    let level = |_: &u32, _: &u32| Ordering::Equal;
    let mixed = |a: &u32, b: &u32| match (a * 5 + b * 3) % 3 {
        0 => Ordering::Less,
        1 => Ordering::Equal,
        _ => Ordering::Greater,
    };
    for n in 4..25usize {
        for lower in 1..n - 1 {
            for upper in 1..n - 1 {
                if lower == upper {
                    continue;
                }
                let mut v: Vec<u32> = (0..n as u32).collect();
                let (a, b) = dual_pivot_partition(&mut v, lower, upper, &less);
                assert!(1 <= a && a <= b + 1 && b + 1 <= n - 1);
                let mut v: Vec<u32> = (0..n as u32).collect();
                let (a, b) = dual_pivot_partition(&mut v, lower, upper, &greater);
                assert!(1 <= a && a <= b + 1 && b + 1 <= n - 1);
                let mut v: Vec<u32> = (0..n as u32).collect();
                let (a, b) = dual_pivot_partition(&mut v, lower, upper, &level);
                assert!(1 <= a && a <= b + 1 && b + 1 <= n - 1);
                let mut v: Vec<u32> = (0..n as u32).collect();
                let (a, b) = dual_pivot_partition(&mut v, lower, upper, &mixed);
                assert!(1 <= a && a <= b + 1 && b + 1 <= n - 1);
                v.sort();
                assert_eq!(v, (0..n as u32).collect::<Vec<u32>>());
            }
        }
    }
}

#[test]
fn dual_and_single_pivot_sort_sort() {
    let input: Vec<u32> = (0..200).map(|x| (x * 7919) % 101).collect();
    let mut expected = input.clone();
    expected.sort();

    let mut v = input.clone();
    let (e1, e2, e3, e4, e5) = choose_pivots(&v, &ascending);
    dual_pivot_sort(&mut v, (e1, e2, e3, e4, e5), &ascending, 0, 20);
    assert_eq!(v, expected);

    let mut v = input.clone();
    single_pivot_sort(&mut v, 100, &ascending, 0, 20);
    assert_eq!(v, expected);

    let mut v = input.clone();
    single_pivot_sort(&mut v, 0, &ascending, 5, 5);
    assert_eq!(v, expected);
}

#[test]
fn introsort_part_sorts_a_range_only() {
    let mut v: Vec<u32> = (0..100).rev().collect();
    introsort_part(&mut v, 10, 90, &ascending, 0, 10);
    assert_eq!(v[..10], (90..100).rev().collect::<Vec<u32>>()[..]);
    assert_eq!(v[10..90], (10..90).collect::<Vec<u32>>()[..]);
    assert_eq!(v[90..], (0..10).rev().collect::<Vec<u32>>()[..]);
    introsort_part(&mut v, 5, 5, &ascending, 0, 10);
    assert_eq!(v[..10], (90..100).rev().collect::<Vec<u32>>()[..]);
}

#[test]
fn room_is_what_lies_beyond_four_times_the_position() {
    assert_eq!(room(0, 0), 0);
    assert_eq!(room(0, 1), 1);
    assert_eq!(room(0, 5), 5);
    assert_eq!(room(1, 5), 1);
    assert_eq!(room(1, 4), 0);
    assert_eq!(room(2, 5), 0);
    assert_eq!(room(3, 20), 8);
    assert_eq!(room(usize::MAX, usize::MAX), 0);
    assert_eq!(room(usize::MAX / 4, usize::MAX), 3);
}

#[test]
fn heapify_makes_a_heap() {
    for n in 0..200usize {
        let input: Vec<u32> = (0..n as u32).map(|x| (x * 7919) % 61).collect();
        let mut v = input.clone();
        heapify(&mut v, &ascending);
        assert!(is_heap(&v, 0, n));
        let mut a = input.clone();
        let mut b = v.clone();
        a.sort();
        b.sort();
        assert_eq!(a, b);
    }
}

#[test]
fn siftdown_mends_a_heap_at_its_root() {
    // a heap but for the first element
    let mut v = [0u32, 9, 8, 7, 6, 5, 4, 3, 2, 1];
    siftdown(&mut v, 0, &ascending);
    assert_eq!(v, [9, 5, 8, 7, 6, 0, 4, 3, 2, 1]);
    assert!(is_heap(&v, 0, 10));

    // below 5 only: the rest is left alone
    let mut v = [0u32, 9, 8, 7, 6, 50, 40, 30, 20, 10];
    siftdown_range(&mut v, 0, 5, &ascending);
    assert_eq!(v, [9, 0, 8, 7, 6, 50, 40, 30, 20, 10]);

    // the greatest child below the end moves up; what lies behind the end
    // is neither compared nor moved
    let mut v = [1u32, 5, 4, 3, 9];
    siftdown_range(&mut v, 0, 4, &ascending);
    assert_eq!(v, [5, 1, 4, 3, 9]);

    // of level children the earlier moves up
    let mut v = [1u32, 5, 5, 5, 5, 2, 2, 2, 2, 3];
    siftdown_range(&mut v, 0, 10, &ascending);
    assert_eq!(v, [5, 2, 5, 5, 5, 1, 2, 2, 2, 3]);

    // the element sinks to the bottom and rises again past a lesser parent
    let mut v = [3u32, 5, 1, 1, 1, 2];
    siftdown_range(&mut v, 0, 6, &ascending);
    assert_eq!(v, [5, 3, 1, 1, 1, 2]);

    // from a position further down: only what lies under it changes
    let mut v = [0u32, 1, 7, 7, 7, 4, 9, 6, 5];
    siftdown_range(&mut v, 1, 9, &ascending);
    assert_eq!(v, [0, 9, 7, 7, 7, 4, 1, 6, 5]);

    // a position without a child below the end: nothing to do
    let mut v = [0u32, 1, 7, 7, 7, 4, 9, 6, 5];
    siftdown_range(&mut v, 1, 5, &ascending);
    assert_eq!(v, [0, 1, 7, 7, 7, 4, 9, 6, 5]);
    siftdown_range(&mut v, 2, 9, &ascending);
    assert_eq!(v, [0, 1, 7, 7, 7, 4, 9, 6, 5]);

    // nothing below the end: nothing to do
    let mut v = [3u32, 2, 1];
    siftdown_range(&mut v, 0, 0, &ascending);
    assert_eq!(v, [3, 2, 1]);
    siftdown_range(&mut v, 2, 1, &ascending);
    assert_eq!(v, [3, 2, 1]);

    // an element that need not sink rises back to where it stood
    let mut v = [9u32, 5, 8, 7, 6, 0, 4, 3, 2, 1];
    siftdown(&mut v, 0, &ascending);
    assert_eq!(v, [9, 5, 8, 7, 6, 0, 4, 3, 2, 1]);
}
