use quickersort::introsort::{do_introsort, introsort, threshold};
use quickersort::{heapsort, insertion_sort, sort, sort_by};
use std::cmp::Ordering;

// A small generator of numbers that depends on nothing but its seed.
struct Lcg(u64);

impl Lcg {
    fn next(&mut self) -> u64 {
        self.0 = self
            .0
            .wrapping_mul(6364136223846793005)
            .wrapping_add(1442695040888963407);
        self.0 >> 33
    }

    fn below(&mut self, bound: u64) -> u64 {
        self.next() % bound
    }
}

fn ascending(a: &u32, b: &u32) -> Ordering {
    a.cmp(b)
}

fn by_key(a: &(u32, usize), b: &(u32, usize)) -> Ordering {
    a.0.cmp(&b.0)
}

// Elements with a key, of which few differ, and a tag that differs for each.
fn tagged(len: usize, keys: u64, seed: u64) -> Vec<(u32, usize)> {
    let mut rng = Lcg(seed);
    (0..len).map(|tag| (rng.below(keys) as u32, tag)).collect()
}

fn same_elements(a: &[(u32, usize)], b: &[(u32, usize)]) -> bool {
    let mut x = a.to_vec();
    let mut y = b.to_vec();
    x.sort();
    y.sort();
    x == y
}

fn in_order(v: &[(u32, usize)]) -> bool {
    v.windows(2)
        .all(|w| matches!(by_key(&w[0], &w[1]), Ordering::Less | Ordering::Equal))
}

#[test]
fn five_elements_ascending() {
    let mut v = [5u32, 3, 3, 1, 4];
    sort_by(&mut v, &ascending);
    assert_eq!(v, [1, 3, 3, 4, 5]);

    let mut v = [5u32, 3, 3, 1, 4];
    sort(&mut v);
    assert_eq!(v, [1, 3, 3, 4, 5]);

    let mut v = [5u32, 3, 3, 1, 4];
    insertion_sort(&mut v, &ascending);
    assert_eq!(v, [1, 3, 3, 4, 5]);

    let mut v = [5u32, 3, 3, 1, 4];
    heapsort(&mut v, &ascending);
    assert_eq!(v, [1, 3, 3, 4, 5]);
}

#[test]
fn empty_stays_empty() {
    let mut v: [u32; 0] = [];
    sort_by(&mut v, &ascending);
    assert_eq!(v, []);
    sort(&mut v);
    assert_eq!(v, []);
    insertion_sort(&mut v, &ascending);
    assert_eq!(v, []);
    heapsort(&mut v, &ascending);
    assert_eq!(v, []);
}

#[test]
fn single_element_stays() {
    let mut v = [0xFFFFFFFFu32];
    sort_by(&mut v, &ascending);
    assert_eq!(v, [0xFFFFFFFF]);
    sort(&mut v);
    assert_eq!(v, [0xFFFFFFFF]);
    insertion_sort(&mut v, &ascending);
    assert_eq!(v, [0xFFFFFFFF]);
    heapsort(&mut v, &ascending);
    assert_eq!(v, [0xFFFFFFFF]);
}

#[test]
fn neighbours_are_in_order_after_each_sort() {
    for len in 0..400 {
        let input = tagged(len, 1 + (len as u64 % 97), len as u64);

        let mut v = input.clone();
        sort_by(&mut v, &by_key);
        assert!(in_order(&v));

        let mut v = input.clone();
        heapsort(&mut v, &by_key);
        assert!(in_order(&v));

        let mut v = input.clone();
        insertion_sort(&mut v, &by_key);
        assert!(in_order(&v));

        let mut v = input.clone();
        sort(&mut v);
        assert!(v.windows(2).all(|w| w[0] <= w[1]));
    }
}

#[test]
fn elements_are_kept() {
    for len in 0..400 {
        let input = tagged(len, 7, 1000 + len as u64);

        let mut v = input.clone();
        sort_by(&mut v, &by_key);
        assert!(same_elements(&input, &v));

        let mut v = input.clone();
        heapsort(&mut v, &by_key);
        assert!(same_elements(&input, &v));

        let mut v = input.clone();
        insertion_sort(&mut v, &by_key);
        assert!(same_elements(&input, &v));

        let mut v = input.clone();
        sort(&mut v);
        assert!(same_elements(&input, &v));
    }
}

#[test]
fn boxed_elements_are_kept() {
    for len in [0usize, 1, 2, 10, 42, 43, 100, 333] {
        let mut rng = Lcg(len as u64);
        let input: Vec<Box<u64>> = (0..len).map(|_| Box::new(rng.below(50))).collect();
        let mut expected: Vec<u64> = input.iter().map(|b| **b).collect();
        expected.sort();

        let mut v = input.clone();
        sort_by(&mut v, &|a: &Box<u64>, b: &Box<u64>| (**a).cmp(&**b));
        assert_eq!(v.iter().map(|b| **b).collect::<Vec<u64>>(), expected);

        let mut v = input.clone();
        heapsort(&mut v, &|a: &Box<u64>, b: &Box<u64>| (**a).cmp(&**b));
        assert_eq!(v.iter().map(|b| **b).collect::<Vec<u64>>(), expected);

        let mut v = input.clone();
        insertion_sort(&mut v, &|a: &Box<u64>, b: &Box<u64>| (**a).cmp(&**b));
        assert_eq!(v.iter().map(|b| **b).collect::<Vec<u64>>(), expected);
    }
}

#[test]
fn sorting_twice_changes_nothing() {
    for len in [0usize, 1, 2, 9, 42, 43, 64, 200, 1000] {
        let mut rng = Lcg(7 * len as u64);
        let mut v: Vec<u32> = (0..len).map(|_| rng.below(1 << 20) as u32).collect();
        sort_by(&mut v, &ascending);
        let once = v.clone();
        sort_by(&mut v, &ascending);
        assert_eq!(v, once);
        heapsort(&mut v, &ascending);
        assert_eq!(v, once);
        insertion_sort(&mut v, &ascending);
        assert_eq!(v, once);
        sort(&mut v);
        assert_eq!(v, once);
    }
}

#[test]
fn insertion_sort_leaves_a_sorted_slice_of_level_elements() {
    // in order by key already; the tags would show any exchange
    let input: Vec<(u32, usize)> = (0..100).map(|tag| ((tag / 10) as u32, tag)).collect();
    let mut v = input.clone();
    insertion_sort(&mut v, &by_key);
    assert_eq!(v, input);

    let short: Vec<(u32, usize)> = (0..28).map(|tag| ((tag / 10) as u32, tag)).collect();
    let mut v = short.clone();
    sort_by(&mut v, &by_key);
    assert_eq!(v, short);
}

#[test]
fn insertion_sort_keeps_level_elements_in_their_order() {
    for len in 0..120 {
        let input = tagged(len, 5, 31 * len as u64);
        let mut expected = input.clone();
        expected.sort_by(by_key); // the stable sort of std

        let mut v = input.clone();
        insertion_sort(&mut v, &by_key);
        assert_eq!(v, expected);
    }
    // elements of 16 bytes: up to 28 of them, `sort_by` sorts by insertion
    assert_eq!(threshold::<(u32, usize)>(), 28);
    for len in 0..=28 {
        let input = tagged(len, 3, 77 + len as u64);
        let mut expected = input.clone();
        expected.sort_by(by_key);

        let mut v = input.clone();
        sort_by(&mut v, &by_key);
        assert_eq!(v, expected);
    }
}

#[test]
fn introsort_sorts_short_slices_as_insertion_sort_does() {
    for len in 0..=28 {
        let input = tagged(len, 3, 500 + len as u64);
        let mut expected = input.clone();
        insertion_sort(&mut expected, &by_key);

        let mut v = input.clone();
        introsort(&mut v, &by_key, 2, 9);
        assert_eq!(v, expected);
        let mut v = input.clone();
        introsort(&mut v, &by_key, 1, 0);
        assert_eq!(v, expected);
    }
}

#[test]
fn nothing_moves_where_no_neighbour_is_said_to_be_greater() {
    // a comparator that follows no order: it says Less of every pair
    let less = |_: &(u32, usize), _: &(u32, usize)| Ordering::Less;
    for len in [0usize, 1, 2, 5, 28, 29, 100] {
        let input = tagged(len, 9, 11 * len as u64);
        let mut v = input.clone();
        insertion_sort(&mut v, &less);
        assert_eq!(v, input);
    }
    for len in 0..=28 {
        let input = tagged(len, 9, 13 * len as u64);
        let mut v = input.clone();
        sort_by(&mut v, &less);
        assert_eq!(v, input);
        let mut v = input.clone();
        introsort(&mut v, &less, 0, 5);
        assert_eq!(v, input);
    }
}

#[test]
fn reversed_comparator_gives_descending_order() {
    for len in [0usize, 1, 2, 5, 42, 43, 99, 500] {
        let mut rng = Lcg(3 + len as u64);
        let input: Vec<u32> = (0..len).map(|_| rng.below(300) as u32).collect();
        let mut expected = input.clone();
        expected.sort();
        expected.reverse();

        let mut v = input.clone();
        sort_by(&mut v, &|a: &u32, b: &u32| b.cmp(a));
        assert_eq!(v, expected);

        let mut v = input.clone();
        heapsort(&mut v, &|a: &u32, b: &u32| b.cmp(a));
        assert_eq!(v, expected);

        let mut v = input.clone();
        insertion_sort(&mut v, &|a: &u32, b: &u32| b.cmp(a));
        assert_eq!(v, expected);
    }
}

#[test]
fn comparator_that_always_says_equal() {
    for len in [0usize, 1, 2, 11, 42, 43, 50, 257] {
        let input = tagged(len, 100, len as u64);
        let level = |_: &(u32, usize), _: &(u32, usize)| Ordering::Equal;

        let mut v = input.clone();
        sort_by(&mut v, &level);
        assert!(same_elements(&input, &v));

        let mut v = input.clone();
        heapsort(&mut v, &level);
        assert!(same_elements(&input, &v));

        let mut v = input.clone();
        insertion_sort(&mut v, &level);
        assert_eq!(v, input);
    }
}

#[test]
fn comparators_that_contradict_themselves() {
    for len in [0usize, 1, 2, 3, 11, 12, 42, 43, 50, 100, 257, 1000] {
        let input = tagged(len, 100, 5 * len as u64);
        let less = |_: &(u32, usize), _: &(u32, usize)| Ordering::Less;
        let greater = |_: &(u32, usize), _: &(u32, usize)| Ordering::Greater;
        // an answer that depends on the tags, and on nothing that orders them
        let mixed = |a: &(u32, usize), b: &(u32, usize)| match (a.1 * 7 + b.1 * 13) % 3 {
            0 => Ordering::Less,
            1 => Ordering::Equal,
            _ => Ordering::Greater,
        };

        let mut v = input.clone();
        sort_by(&mut v, &less);
        assert!(same_elements(&input, &v));
        let mut v = input.clone();
        sort_by(&mut v, &greater);
        assert!(same_elements(&input, &v));
        let mut v = input.clone();
        sort_by(&mut v, &mixed);
        assert!(same_elements(&input, &v));

        let mut v = input.clone();
        heapsort(&mut v, &less);
        assert!(same_elements(&input, &v));
        let mut v = input.clone();
        heapsort(&mut v, &greater);
        assert!(same_elements(&input, &v));
        let mut v = input.clone();
        heapsort(&mut v, &mixed);
        assert!(same_elements(&input, &v));

        let mut v = input.clone();
        insertion_sort(&mut v, &less);
        assert!(same_elements(&input, &v));
        let mut v = input.clone();
        insertion_sort(&mut v, &greater);
        assert!(same_elements(&input, &v));
        let mut v = input.clone();
        insertion_sort(&mut v, &mixed);
        assert!(same_elements(&input, &v));
    }
}

#[test]
fn long_slices_of_many_shapes() {
    let n = 5000usize;
    let mut shapes: Vec<Vec<u32>> = Vec::new();
    shapes.push((0..n as u32).collect());
    shapes.push((0..n as u32).rev().collect());
    shapes.push((0..n as u32).map(|x| x % 3).collect());
    shapes.push((0..n as u32).map(|_| 7).collect());
    shapes.push((0..n as u32).map(|x| if x < 2500 { x } else { 5000 - x }).collect());
    let mut rng = Lcg(99);
    shapes.push((0..n).map(|_| rng.below(1 << 30) as u32).collect());
    shapes.push((0..n).map(|_| rng.below(10) as u32).collect());

    for input in shapes {
        let mut expected = input.clone();
        expected.sort();

        let mut v = input.clone();
        sort_by(&mut v, &ascending);
        assert_eq!(v, expected);

        let mut v = input.clone();
        sort(&mut v);
        assert_eq!(v, expected);

        let mut v = input.clone();
        heapsort(&mut v, &ascending);
        assert_eq!(v, expected);
    }
}

#[test]
fn recursion_that_has_gone_too_deep_ends_in_heapsort() {
    let mut rng = Lcg(5);
    let input: Vec<u32> = (0..300).map(|_| rng.below(1000) as u32).collect();
    let mut expected = input.clone();
    expected.sort();

    // deeper than the limit from the start
    let mut v = input.clone();
    do_introsort(&mut v, &ascending, 1, 0);
    assert_eq!(v, expected);

    // a short slice at such a depth is sorted by heapsort as well
    let mut v = [5u32, 3, 3, 1, 4];
    do_introsort(&mut v, &ascending, 1, 0);
    assert_eq!(v, [1, 3, 3, 4, 5]);
    let mut v: [u32; 0] = [];
    do_introsort(&mut v, &ascending, 3, 2);
    assert_eq!(v, []);

    // one level of partitioning, then heapsort
    let mut v = input.clone();
    introsort(&mut v, &ascending, 0, 0);
    assert_eq!(v, expected);

    let mut v = input.clone();
    introsort(&mut v, &ascending, 0, 3);
    assert_eq!(v, expected);
}

#[test]
fn sort_uses_the_order_of_the_type() {
    let mut words = vec!["pear", "apple", "fig", "apple", "kiwi"];
    sort(&mut words);
    assert_eq!(words, ["apple", "apple", "fig", "kiwi", "pear"]);

    let mut pairs: Vec<(i8, char)> = (0..100).map(|i| ((50 - i) as i8 % 7, 'x')).collect();
    let mut expected = pairs.clone();
    expected.sort();
    sort(&mut pairs);
    assert_eq!(pairs, expected);
}
