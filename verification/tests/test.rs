use quickersort::{heapsort, insertion_sort, sort_by};
use rand::Rng;
use std::cmp::Ordering;
use std::cmp::Ordering::{Greater, Less};

// One of the entry points that take a comparator.
trait SortFn {
    fn run<T, C: Fn(&T, &T) -> Ordering>(v: &mut [T], compare: &C);
}

struct Introsort;

impl SortFn for Introsort {
    fn run<T, C: Fn(&T, &T) -> Ordering>(v: &mut [T], compare: &C) {
        sort_by(v, compare)
    }
}

struct Heapsort;

impl SortFn for Heapsort {
    fn run<T, C: Fn(&T, &T) -> Ordering>(v: &mut [T], compare: &C) {
        heapsort(v, compare)
    }
}

struct InsertionSort;

impl SortFn for InsertionSort {
    fn run<T, C: Fn(&T, &T) -> Ordering>(v: &mut [T], compare: &C) {
        insertion_sort(v, compare)
    }
}

fn do_test_sort<S: SortFn>() {
    let cmp = |a: &usize, b: &usize| a.cmp(b);
    let cmp_rev = |a: &usize, b: &usize| b.cmp(a);
    let mut rng = rand::thread_rng();
    for len in (4usize..250).step_by(5) {
        for _ in 0isize..100 {
            let mut v = (0..len)
                .map(|_| 10 + (rng.gen::<u8>() % 89) as usize)
                .collect::<Vec<usize>>();
            let mut v1 = v.clone();
            let mut v_b: Vec<Box<usize>> = (&v).into_iter().map(|x| Box::new(*x)).collect();

            S::run(&mut v[..], &cmp);
            assert!(v.windows(2).all(|w| w[0] <= w[1]));

            S::run(&mut v1[..], &cmp);
            assert!(v1.windows(2).all(|w| w[0] <= w[1]));

            S::run(&mut v1[..], &cmp_rev);
            assert!(v1.windows(2).all(|w| w[0] >= w[1]));

            S::run(&mut v_b[..], &|a: &Box<usize>, b: &Box<usize>| (&**a).cmp(&**b));
            assert!(v_b.windows(2).all(|w| w[0] <= w[1]));

            // a comparator that answers at random
            S::run(&mut v_b[..], &|_: &Box<usize>, _: &Box<usize>| {
                if rand::thread_rng().gen::<bool>() {
                    Less
                } else {
                    Greater
                }
            });
        }
    }
    // shouldn't fail/crash
    let mut v: [usize; 0] = [];
    S::run(&mut v[..], &cmp);

    let mut v = [0xDEADBEEFusize];
    S::run(&mut v[..], &cmp);
    assert!(v == [0xDEADBEEF]);
}

#[test]
fn test_introsort() {
    do_test_sort::<Introsort>();
}

#[test]
fn test_heapsort() {
    do_test_sort::<Heapsort>();
}

#[test]
fn test_insertion_sort() {
    do_test_sort::<InsertionSort>();
}
