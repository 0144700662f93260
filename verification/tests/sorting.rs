use quickersort::{heapsort, insertion_sort, sort, sort_by, sort_by_key};
use rand::{thread_rng, Rng};
use std::cmp::Ordering;
use std::cmp::Ordering::{Greater, Less};

type Compare = fn(&usize, &usize) -> Ordering;

fn cmp(a: &usize, b: &usize) -> Ordering {
    a.cmp(b)
}

fn cmp_rev(a: &usize, b: &usize) -> Ordering {
    b.cmp(a)
}

fn do_test_sort(sortfun: fn(&mut [usize], &Compare)) {
    let cmp: Compare = cmp;
    let cmp_rev: Compare = cmp_rev;
    let mut rng = thread_rng();
    for len in (4usize..250).step_by(5) {
        for _ in 0isize..100 {
            let mut v = (0..len)
                .map(|_| 10 + (rng.gen::<u8>() % 89) as usize)
                .collect::<Vec<usize>>();
            let mut v1 = v.clone();

            sortfun(&mut v[..], &cmp);
            assert!(v.windows(2).all(|w| w[0] <= w[1]));

            sortfun(&mut v1[..], &cmp);
            assert!(v1.windows(2).all(|w| w[0] <= w[1]));

            sortfun(&mut v1[..], &cmp_rev);
            assert!(v1.windows(2).all(|w| w[0] >= w[1]));
        }
    }
    // shouldn't fail/crash
    let mut v: [usize; 0] = [];
    sortfun(&mut v[..], &cmp);

    let mut v = [0xDEADBEEFusize];
    sortfun(&mut v[..], &cmp);
    assert!(v == [0xDEADBEEF]);
}

#[test]
fn sort_test_introsort() {
    do_test_sort(sort_by);
}

#[test]
fn sort_test_heapsort() {
    do_test_sort(heapsort);
}

#[test]
fn sort_test_insertion_sort() {
    do_test_sort(insertion_sort);
}

#[test]
fn test_test_introsort() {
    do_test_sort(sort_by);
}

#[test]
fn test_test_heapsort() {
    do_test_sort(heapsort);
}

#[test]
fn test_test_insertion_sort() {
    do_test_sort(insertion_sort);
}

#[test]
fn test_always_less() {
    let mut v = vec![];
    for _ in 0..256 {
        v.push(0u8);
    }
    sort_by(&mut v, &|_, _| Less);
}

#[test]
fn test_always_greater() {
    let mut v = vec![];
    for _ in 0..256 {
        v.push(0u8);
    }
    sort_by(&mut v, &|_, _| Greater);
}

#[test]
fn sort_by_reverses_with_a_flipped_comparator() {
    let mut unsorted = [1, 3, 9, 2, 6, 5];
    let sorted = [9, 6, 5, 3, 2, 1];
    sort_by(&mut unsorted, &|a: &i32, b: &i32| b.cmp(a));
    assert_eq!(unsorted, sorted);
}

#[test]
fn sort_by_key_orders_by_the_key() {
    let mut selectors_scrambled = [(1u32, 5u32), (1, 4), (3, 1)];
    let selectors_sorted = [(1u32, 4u32), (1, 5), (3, 1)];
    sort_by_key(&mut selectors_scrambled, |a: &(u32, u32)| (a.0, a.1));
    assert_eq!(selectors_scrambled, selectors_sorted);
}

#[test]
fn sort_orders_strings() {
    let mut ss = vec!["Introsort", "or", "introspective", "sort", "is", "a", "hybrid"];
    sort(&mut ss[..]);
    assert_eq!(ss, vec!["Introsort", "a", "hybrid", "introspective", "is", "or", "sort"]);
    sort_by(&mut ss[..], &|a: &&str, b: &&str| a.len().cmp(&b.len()));
    assert!(ss.windows(2).all(|w| w[0].len() <= w[1].len()));
}

#[test]
fn sort_large_random_is_a_sorted_permutation() {
    let mut rng = thread_rng();
    for &len in &[43usize, 100, 1000, 10_000] {
        let mut v: Vec<u64> = (0..len).map(|_| rng.gen::<u64>() % 1000).collect();
        let mut expected = v.clone();
        expected.sort();
        sort(&mut v[..]);
        assert_eq!(v, expected);
    }
}

#[test]
fn sort_duplicate_heavy_input_stays_all_equal() {
    let mut v = vec![1u8; 1000];
    sort(&mut v[..]);
    assert_eq!(v, vec![1u8; 1000]);
    let mut few: Vec<u32> = (0..1000u32).map(|i| i % 10).collect();
    let mut expected = few.clone();
    expected.sort();
    sort(&mut few[..]);
    assert_eq!(few, expected);
}

#[test]
fn sort_leaves_a_sorted_slice_as_it_is() {
    let mut v: Vec<(u32, u32)> = (0..500u32).map(|i| (i / 7, 500 - i)).collect();
    let before = v.clone();
    sort_by(&mut v[..], &|a: &(u32, u32), b: &(u32, u32)| a.0.cmp(&b.0));
    assert_eq!(v, before);
    let mut w = before.clone();
    insertion_sort(&mut w[..], &|a: &(u32, u32), b: &(u32, u32)| a.0.cmp(&b.0));
    assert_eq!(w, before);
}

#[test]
fn sort_with_a_lying_comparator_yields_a_permutation() {
    let mut rng = thread_rng();
    for round in 0..200usize {
        let len = 11 + round * 3;
        let answers: Vec<u8> = (0..64 * len).map(|_| rng.gen::<u8>() % 3).collect();
        let pos = std::cell::Cell::new(0usize);
        let lying = |_: &u32, _: &u32| {
            pos.set((pos.get() + 1) % answers.len());
            match answers[pos.get()] {
                0 => Less,
                1 => Ordering::Equal,
                _ => Greater,
            }
        };
        let mut v: Vec<u32> = (0..len as u32).collect();
        sort_by(&mut v[..], &lying);
        let mut seen = v.clone();
        seen.sort();
        assert_eq!(seen, (0..len as u32).collect::<Vec<u32>>());
        let mut h: Vec<u32> = (0..len as u32).collect();
        heapsort(&mut h[..], &lying);
        h.sort();
        assert_eq!(h, (0..len as u32).collect::<Vec<u32>>());
    }
}

#[test]
fn sort_handles_descending_and_organ_pipe_inputs() {
    let mut down: Vec<u32> = (0..5000u32).rev().collect();
    sort(&mut down[..]);
    assert!(down.windows(2).all(|w| w[0] <= w[1]));
    let mut pipe: Vec<u32> = (0..2500u32).chain((0..2500u32).rev()).collect();
    sort(&mut pipe[..]);
    assert!(pipe.windows(2).all(|w| w[0] <= w[1]));
}

#[test]
fn sort_zero_sized_elements() {
    let mut v = vec![(); 100];
    sort(&mut v[..]);
    assert_eq!(v.len(), 100);
}

#[test]
fn a_flipped_comparator_gives_the_reverse() {
    let mut rng = thread_rng();
    let sorts: [fn(&mut [usize], &Compare); 3] = [sort_by, heapsort, insertion_sort];
    let cmp: Compare = cmp;
    let cmp_rev: Compare = cmp_rev;
    for sortfun in sorts {
        for len in [0usize, 1, 2, 10, 43, 200] {
            // different values, so that no two are level
            let mut values: Vec<usize> = (0..len).map(|i| i * 3 + 1).collect();
            for i in (1..len).rev() {
                values.swap(i, rng.gen::<usize>() % (i + 1));
            }
            let mut forward = values.clone();
            let mut backward = values.clone();
            sortfun(&mut forward[..], &cmp);
            sortfun(&mut backward[..], &cmp_rev);
            forward.reverse();
            assert_eq!(forward, backward);
        }
    }
}

#[test]
fn boundary_sizes_are_left_alone() {
    let mut none: [u32; 0] = [];
    sort(&mut none[..]);
    sort_by_key(&mut none[..], |x: &u32| *x);
    let mut one = [0xDEADBEEFu32];
    sort(&mut one[..]);
    assert_eq!(one, [0xDEADBEEF]);
    sort_by_key(&mut one[..], |x: &u32| u32::MAX - *x);
    assert_eq!(one, [0xDEADBEEF]);
}

#[test]
fn sort_by_key_sorts_long_slices() {
    let mut rng = thread_rng();
    let mut v: Vec<(u32, u32)> = (0..5000).map(|i| (rng.gen::<u32>() % 500, i)).collect();
    let mut expected = v.clone();
    expected.sort_by_key(|x| std::cmp::Reverse(x.0));
    sort_by_key(&mut v[..], |x: &(u32, u32)| std::cmp::Reverse(x.0));
    assert!(v.windows(2).all(|w| w[0].0 >= w[1].0));
    let mut seen = v.clone();
    seen.sort();
    expected.sort();
    assert_eq!(seen, expected);
}

#[test]
fn level_elements_may_change_places() {
    let by_number = |a: &(u32, char), b: &(u32, char)| a.0.cmp(&b.0);
    let flipped = |a: &(u32, char), b: &(u32, char)| b.0.cmp(&a.0);
    // a sorted slice is not left alone by heapsort where elements are level
    let mut v = [(1, 'a'), (1, 'b'), (1, 'c')];
    heapsort(&mut v[..], &by_number);
    assert_eq!(v, [(1, 'c'), (1, 'a'), (1, 'b')]);
    // and the flipped comparator does not give the reverse
    let mut forward = [(1, 'a'), (1, 'b')];
    let mut backward = [(1, 'a'), (1, 'b')];
    sort_by(&mut forward[..], &by_number);
    sort_by(&mut backward[..], &flipped);
    assert_eq!(forward, [(1, 'a'), (1, 'b')]);
    assert_eq!(backward, [(1, 'a'), (1, 'b')]);
}

#[test]
fn at_most_one_element_is_never_compared() {
    let never = |_: &u32, _: &u32| -> Ordering { panic!("nothing is there to compare") };
    let mut none: [u32; 0] = [];
    sort_by(&mut none[..], &never);
    heapsort(&mut none[..], &never);
    insertion_sort(&mut none[..], &never);
    let mut one = [0xDEADBEEFu32];
    sort_by(&mut one[..], &never);
    heapsort(&mut one[..], &never);
    insertion_sort(&mut one[..], &never);
    sort_by_key(&mut one[..], |_: &u32| -> u32 { panic!("no key is needed") });
    assert_eq!(one, [0xDEADBEEF]);
}

#[test]
fn a_comparator_for_the_elements_alone_sorts_them() {
    // the comparator orders the numbers below 100 and answers nonsense on others
    let below_100 = |a: &u32, b: &u32| {
        if *a < 100 && *b < 100 {
            a.cmp(b)
        } else {
            Greater
        }
    };
    let mut rng = thread_rng();
    for len in [2usize, 11, 43, 500] {
        let before: Vec<u32> = (0..len).map(|_| rng.gen::<u32>() % 100).collect();
        let mut expected = before.clone();
        expected.sort();
        let mut v = before.clone();
        sort_by(&mut v[..], &below_100);
        assert_eq!(v, expected);
        let mut v = before.clone();
        heapsort(&mut v[..], &below_100);
        assert_eq!(v, expected);
        let mut v = before.clone();
        insertion_sort(&mut v[..], &below_100);
        assert_eq!(v, expected);
    }
}
