use quickersort::float::{
    compare_numbers, find_first_zero, is_below_zero, is_nan, is_negative, is_zero, nans_last,
    order_zeros, rank_of, INFINITY, NEG_ZERO,
};
use quickersort::heap::{find_largest_child, heapify, siftdown, siftdown_range, siftup};
use quickersort::insertion::{
    capped_insertion_sort, maybe_insertion_sort, threshold, INSERTION_SORTED_CAP,
    INSERTION_SORT_FACTOR, MAX_INSERTION_SORT_ELEMS, MIN_QUICKSORT_ELEMS,
};
use quickersort::order::compare_idxs;
use quickersort::partition::{dual_pivot_partition, fat_partition, swap_many, write_pivots};
use quickersort::pivots::{maybe_swap, pivot_candidates};
use quickersort::sort::{
    depth_budget, do_introsort, dual_pivot_sort, introsort, log2, single_pivot_sort,
};
use rand::{thread_rng, Rng};
use std::cmp::Ordering;

fn cmp(a: &u32, b: &u32) -> Ordering {
    a.cmp(b)
}

fn random(len: usize, modulus: u32) -> Vec<u32> {
    let mut rng = thread_rng();
    (0..len).map(|_| rng.gen::<u32>() % modulus).collect()
}

fn sorted_copy(v: &[u32]) -> Vec<u32> {
    let mut w = v.to_vec();
    w.sort();
    w
}

fn is_heap(v: &[u32], end: usize) -> bool {
    (1..end).all(|i| v[(i - 1) / 4] >= v[i])
}

#[test]
fn constants_have_their_values() {
    assert_eq!(MIN_QUICKSORT_ELEMS, 10);
    assert_eq!(MAX_INSERTION_SORT_ELEMS, 42);
    assert_eq!(INSERTION_SORT_FACTOR, 450);
    assert_eq!(INSERTION_SORTED_CAP, 8);
}

#[test]
fn log2_rounds_the_logarithm_down() {
    assert_eq!(log2(0), 0);
    assert_eq!(log2(1), 0);
    assert_eq!(log2(2), 1);
    assert_eq!(log2(3), 1);
    assert_eq!(log2(4), 2);
    assert_eq!(log2(63), 5);
    assert_eq!(log2(64), 6);
    assert_eq!(log2(1000), 9);
    assert_eq!(log2(1024), 10);
    assert_eq!(log2(usize::MAX), usize::BITS - 1);
    for x in 1usize..5000 {
        let r = log2(x);
        assert!((1usize << r) <= x && (x >> r) == 1);
    }
}

#[test]
fn depth_budget_is_one_and_a_half_logarithms() {
    assert_eq!(depth_budget(0), 0);
    assert_eq!(depth_budget(1), 0);
    assert_eq!(depth_budget(2), 1);
    assert_eq!(depth_budget(4), 3);
    assert_eq!(depth_budget(11), 4);
    assert_eq!(depth_budget(64), 9);
    assert_eq!(depth_budget(100), 9);
    assert_eq!(depth_budget(1 << 20), 30);
    assert_eq!(depth_budget(usize::MAX), (3 * (usize::BITS - 1)) / 2);
}

#[test]
fn threshold_scales_with_the_element_size() {
    assert_eq!(threshold::<u8>(), 42);
    assert_eq!(threshold::<u64>(), 42);
    assert_eq!(threshold::<[u8; 11]>(), 40);
    assert_eq!(threshold::<[u8; 16]>(), 28);
    assert_eq!(threshold::<[u8; 45]>(), 10);
    assert_eq!(threshold::<[u8; 64]>(), 10);
    assert_eq!(threshold::<()>(), 42);
}

#[test]
fn maybe_insertion_sort_sorts_up_to_the_threshold() {
    let mut short: Vec<u32> = (0..42).rev().collect();
    assert!(maybe_insertion_sort(&mut short[..], &cmp));
    assert_eq!(short, (0..42).collect::<Vec<u32>>());
    let mut long: Vec<u32> = (0..43).rev().collect();
    assert!(!maybe_insertion_sort(&mut long[..], &cmp));
    assert_eq!(long, (0..43).rev().collect::<Vec<u32>>());
    let mut wide: Vec<[u32; 16]> = (0..11u32).rev().map(|i| [i; 16]).collect();
    assert!(!maybe_insertion_sort(&mut wide[..], &|a: &[u32; 16], b: &[u32; 16]| a[0].cmp(&b[0])));
    let mut one = [7u32];
    assert!(maybe_insertion_sort(&mut one[..], &cmp));
    assert_eq!(one, [7]);
}

#[test]
fn capped_insertion_sort_stops_after_the_cap() {
    let mut sorted: Vec<u32> = (0..100).collect();
    assert!(capped_insertion_sort(&mut sorted[..], &cmp));
    assert_eq!(sorted, (0..100).collect::<Vec<u32>>());

    let mut eight = vec![2u32, 3, 4, 5, 6, 7, 8, 9, 1, 10, 11];
    assert!(capped_insertion_sort(&mut eight[..], &cmp));
    assert_eq!(eight, vec![1, 2, 3, 4, 5, 6, 7, 8, 9, 10, 11]);

    let mut nine = vec![2u32, 3, 4, 5, 6, 7, 8, 9, 10, 1, 11];
    assert!(!capped_insertion_sort(&mut nine[..], &cmp));
    assert_eq!(nine, vec![2, 1, 3, 4, 5, 6, 7, 8, 9, 10, 11]);

    let mut spread = vec![1u32, 0, 3, 2, 5, 4, 7, 6, 9, 8, 11, 10, 13, 12, 15, 14, 17, 16];
    assert!(!capped_insertion_sort(&mut spread[..], &cmp));
    assert_eq!(sorted_copy(&spread), (0..18).collect::<Vec<u32>>());
}

#[test]
fn compare_idxs_compares_the_elements() {
    let v = [5u32, 1, 5];
    assert_eq!(compare_idxs(&v[..], 0, 1, &cmp), Ordering::Greater);
    assert_eq!(compare_idxs(&v[..], 1, 2, &cmp), Ordering::Less);
    assert_eq!(compare_idxs(&v[..], 0, 2, &cmp), Ordering::Equal);
}

#[test]
fn swap_many_exchanges_two_stretches() {
    let mut v = vec![0u32, 1, 2, 3, 4, 5, 6, 7];
    swap_many(&mut v[..], 1, 5, 3);
    assert_eq!(v, vec![0, 5, 6, 7, 4, 1, 2, 3]);
    swap_many(&mut v[..], 0, 4, 0);
    assert_eq!(v, vec![0, 5, 6, 7, 4, 1, 2, 3]);
}

#[test]
fn write_pivots_puts_the_ends_in_place() {
    let mut v = vec![10u32, 1, 2, 3, 4, 20];
    write_pivots(&mut v[..], 2, 4);
    assert_eq!(v, vec![2, 1, 10, 3, 20, 4]);
}

#[test]
fn fat_partition_counts_less_and_greater() {
    let mut v = vec![3u32, 1, 4, 1, 5, 9, 2, 6, 5, 3, 5];
    let (l, r) = fat_partition(&mut v[..], 4, &cmp);
    assert_eq!((l, r), (6, 2));
    assert!(v[..6].iter().all(|x| *x < 5));
    assert!(v[6..9].iter().all(|x| *x == 5));
    assert!(v[9..].iter().all(|x| *x > 5));
    assert_eq!(sorted_copy(&v), vec![1, 1, 2, 3, 3, 4, 5, 5, 5, 6, 9]);

    let mut same = vec![7u32; 50];
    assert_eq!(fat_partition(&mut same[..], 25, &cmp), (0, 0));
    assert_eq!(same, vec![7u32; 50]);

    for _ in 0..200 {
        let before = random(60, 10);
        let mut v = before.clone();
        let pivot = before[30];
        let (l, r) = fat_partition(&mut v[..], 30, &cmp);
        assert_eq!(l, before.iter().filter(|x| **x < pivot).count());
        assert_eq!(r, before.iter().filter(|x| **x > pivot).count());
        assert!(v[..l].iter().all(|x| *x < pivot));
        assert!(v[l..60 - r].iter().all(|x| *x == pivot));
        assert!(v[60 - r..].iter().all(|x| *x > pivot));
        assert_eq!(sorted_copy(&v), sorted_copy(&before));
    }
}

#[test]
fn dual_pivot_partition_makes_three_blocks() {
    for _ in 0..200 {
        let before = random(80, 30);
        let mut v = before.clone();
        let (lp, rp) = dual_pivot_partition(&mut v[..], 20, 60, &cmp);
        assert!(lp < rp && rp < 80);
        assert!(v[lp] <= v[rp]);
        assert!(v[..lp].iter().all(|x| *x <= v[lp]));
        assert!(v[lp + 1..rp].iter().all(|x| v[lp] <= *x && *x <= v[rp]));
        assert!(v[rp + 1..].iter().all(|x| v[rp] <= *x));
        assert_eq!(sorted_copy(&v), sorted_copy(&before));
    }
    let mut v = vec![5u32, 9, 1, 7, 3, 8, 2, 6, 4, 0, 5];
    let (lp, rp) = dual_pivot_partition(&mut v[..], 3, 6, &cmp);
    assert_eq!((v[lp], v[rp]), (2, 7));
    assert_eq!((lp, rp), (2, 8));
}

#[test]
fn partitions_with_a_lying_comparator_are_permutations() {
    let mut rng = thread_rng();
    for _ in 0..500 {
        let answers: Vec<u8> = (0..997).map(|_| rng.gen::<u8>() % 3).collect();
        let pos = std::cell::Cell::new(0usize);
        let lying = |_: &u32, _: &u32| {
            pos.set((pos.get() + 1) % answers.len());
            match answers[pos.get()] {
                0 => Ordering::Less,
                1 => Ordering::Equal,
                _ => Ordering::Greater,
            }
        };
        let mut v: Vec<u32> = (0..40).collect();
        let (l, r) = fat_partition(&mut v[..], 17, &lying);
        assert!(l <= 40 && r <= 40);
        assert_eq!(sorted_copy(&v), (0..40).collect::<Vec<u32>>());
        let (lp, rp) = dual_pivot_partition(&mut v[..], 9, 31, &lying);
        assert!(lp < rp && rp < 40);
        assert_eq!(sorted_copy(&v), (0..40).collect::<Vec<u32>>());
        let _ = capped_insertion_sort(&mut v[..], &lying);
        assert_eq!(sorted_copy(&v), (0..40).collect::<Vec<u32>>());
    }
}

#[test]
fn maybe_swap_orders_two_positions() {
    let v = [4u32, 9, 2];
    let (mut a, mut b, mut swapped) = (0usize, 1usize, false);
    maybe_swap(&v[..], &mut a, &mut b, &cmp, &mut swapped);
    assert_eq!((a, b, swapped), (0, 1, false));
    maybe_swap(&v[..], &mut b, &mut a, &cmp, &mut swapped);
    assert_eq!((a, b, swapped), (1, 0, true));
    let (mut c, mut d) = (1usize, 2usize);
    maybe_swap(&v[..], &mut c, &mut d, &cmp, &mut swapped);
    assert_eq!((c, d, swapped), (2, 1, true));
}

#[test]
fn pivot_candidates_are_ordered_by_their_elements() {
    let up: Vec<u32> = (0..11).collect();
    assert_eq!(pivot_candidates(&up[..], &cmp), ((3, 4, 5, 6, 7), false));
    let down: Vec<u32> = (0..11).rev().collect();
    assert_eq!(pivot_candidates(&down[..], &cmp), ((7, 6, 5, 4, 3), true));
    let longer: Vec<u32> = (0..21).collect();
    assert_eq!(pivot_candidates(&longer[..], &cmp), ((4, 7, 10, 13, 16), false));
    let level = vec![1u32; 30];
    assert_eq!(pivot_candidates(&level[..], &cmp), ((7, 11, 15, 19, 23), false));
    for _ in 0..200 {
        let v = random(100, 50);
        let ((e1, e2, e3, e4, e5), swapped) = pivot_candidates(&v[..], &cmp);
        let mut places = vec![e1, e2, e3, e4, e5];
        assert!(v[e1] <= v[e2] && v[e2] <= v[e3] && v[e3] <= v[e4] && v[e4] <= v[e5]);
        places.sort();
        assert_eq!(places, vec![22, 36, 50, 64, 78]);
        let stood = v[22] <= v[36] && v[36] <= v[50] && v[50] <= v[64] && v[64] <= v[78];
        assert_eq!(swapped, !stood);
    }
}

#[test]
fn heapify_arranges_a_heap() {
    for len in 0..200 {
        let before = random(len, 60);
        let mut v = before.clone();
        heapify(&mut v[..], &cmp);
        assert!(is_heap(&v, len));
        assert_eq!(sorted_copy(&v), sorted_copy(&before));
    }
}

#[test]
fn siftdown_restores_the_heap() {
    let mut v = vec![0u32, 9, 8, 7, 6, 5, 4, 3, 2, 1];
    // a heap below the root
    assert!((5..10).all(|i| v[(i - 1) / 4] >= v[i]));
    siftdown(&mut v[..], 0, &cmp);
    assert!(is_heap(&v, 10));
    assert_eq!(v[0], 9);
    assert_eq!(sorted_copy(&v), (0..10).collect::<Vec<u32>>());

    let mut w = vec![1u32, 9, 8, 7, 6, 100, 200];
    siftdown_range(&mut w[..], 0, 5, &cmp);
    assert!(is_heap(&w, 5));
    assert_eq!(w[0], 9);
    assert_eq!(&w[5..], &[100, 200]);
}

#[test]
fn siftup_moves_a_large_element_up() {
    let mut v = vec![9u32, 8, 7, 6, 5, 4, 3, 2, 1, 100];
    siftup(&mut v[..], 0, 9, &cmp);
    assert!(is_heap(&v, 10));
    assert_eq!(v, vec![100, 8, 9, 6, 5, 4, 3, 2, 1, 7]);
    let mut w = vec![9u32, 8, 7, 6, 5, 4, 3, 2, 1, 100];
    siftup(&mut w[..], 2, 9, &cmp);
    assert_eq!(w, vec![9, 8, 100, 6, 5, 4, 3, 2, 1, 7]);
    let mut u = vec![9u32, 8, 7];
    siftup(&mut u[..], 0, 2, &cmp);
    assert_eq!(u, vec![9, 8, 7]);
}

#[test]
fn quicksorts_sort() {
    for _ in 0..100 {
        let before = random(300, 1000);
        let mut v = before.clone();
        dual_pivot_sort(&mut v[..], (100, 200), &cmp, 0, 12);
        assert_eq!(v, sorted_copy(&before));
        let mut v = before.clone();
        single_pivot_sort(&mut v[..], 150, &cmp, 0, 12);
        assert_eq!(v, sorted_copy(&before));
        let mut v = before.clone();
        introsort(&mut v[..], &cmp, 0, 12);
        assert_eq!(v, sorted_copy(&before));
        let mut v = before.clone();
        do_introsort(&mut v[..], &cmp, 0, 0);
        assert_eq!(v, sorted_copy(&before));
        let mut v = before.clone();
        do_introsort(&mut v[..], &cmp, 1, 0);
        assert_eq!(v, sorted_copy(&before));
    }
}

#[test]
fn bits_are_classified() {
    assert!(is_nan(f64::NAN.to_bits()));
    assert!(is_nan((-f64::NAN).to_bits()));
    assert!(is_nan(INFINITY + 1));
    assert!(!is_nan(INFINITY));
    assert!(!is_nan(f64::NEG_INFINITY.to_bits()));
    assert!(!is_nan(1.5f64.to_bits()));
    assert!(is_negative(NEG_ZERO));
    assert!(is_negative((-1.0f64).to_bits()));
    assert!(!is_negative(0));
    assert!(is_zero(0) && is_zero(NEG_ZERO));
    assert!(!is_zero(f64::MIN_POSITIVE.to_bits()));
    assert!(is_below_zero((-1.0f64).to_bits()));
    assert!(is_below_zero(f64::NEG_INFINITY.to_bits()));
    assert!(!is_below_zero(NEG_ZERO));
    assert!(!is_below_zero(0));
    assert!(!is_below_zero((-f64::NAN).to_bits()));
    assert_eq!(INFINITY, f64::INFINITY.to_bits());
    assert_eq!(NEG_ZERO, (-0.0f64).to_bits());
}

#[test]
fn numbers_compare_as_floats_do() {
    let mut rng = thread_rng();
    let special = [0.0f64, -0.0, 1.0, -1.0, f64::INFINITY, f64::NEG_INFINITY, f64::MAX, f64::MIN];
    for _ in 0..10_000 {
        let a = if rng.gen::<bool>() { special[rng.gen::<usize>() % 8] } else { f64::from_bits(rng.gen()) };
        let b = if rng.gen::<bool>() { special[rng.gen::<usize>() % 8] } else { f64::from_bits(rng.gen()) };
        if let Some(expected) = a.partial_cmp(&b) {
            assert_eq!(compare_numbers(&a.to_bits(), &b.to_bits()), expected);
        }
    }
    assert_eq!(compare_numbers(&0, &NEG_ZERO), Ordering::Equal);
    assert_eq!(rank_of(NEG_ZERO), 0);
    assert_eq!(rank_of(3), 3);
    assert_eq!(rank_of(NEG_ZERO + 3), -3);
}

#[test]
fn find_first_zero_finds_the_end_of_the_negatives() {
    let bits = |v: &[f64]| v.iter().map(|x| x.to_bits()).collect::<Vec<u64>>();
    assert_eq!(find_first_zero(&bits(&[])[..]), 0);
    assert_eq!(find_first_zero(&bits(&[-2.0, -1.0, -0.0, 0.0, 1.0])[..]), 2);
    assert_eq!(find_first_zero(&bits(&[-2.0, -1.0])[..]), 2);
    assert_eq!(find_first_zero(&bits(&[-2.0])[..]), 1);
    assert_eq!(find_first_zero(&bits(&[1.0, 2.0])[..]), 0);
    assert_eq!(find_first_zero(&bits(&[-3.0, -2.0, -1.0, 4.0])[..]), 3);
    assert_eq!(find_first_zero(&bits(&[f64::NAN])[..]), 0);
    for negatives in 0..40 {
        for others in 0..40 {
            let mut v = vec![-1.0f64; negatives];
            v.extend(vec![2.0f64; others]);
            assert_eq!(find_first_zero(&bits(&v)[..]), negatives);
        }
    }
}

#[test]
fn nans_last_moves_the_nans_to_the_end() {
    let nan = f64::NAN.to_bits();
    let mut v = vec![nan, 1, 2, nan, 3, nan];
    let rnan = nans_last(&mut v[..]);
    assert_eq!(rnan, 2);
    assert!(v[..3].iter().all(|x| !is_nan(*x)));
    assert!(v[3..].iter().all(|x| is_nan(*x)));
    let mut sorted = v[..3].to_vec();
    sorted.sort();
    assert_eq!(sorted, vec![1, 2, 3]);

    let mut all = vec![nan; 4];
    assert_eq!(nans_last(&mut all[..]), 0);
    let mut none = vec![5u64, 6, 7];
    assert_eq!(nans_last(&mut none[..]), 2);
    assert_eq!(none, vec![5, 6, 7]);
    let mut one = vec![nan];
    assert_eq!(nans_last(&mut one[..]), 0);
}

#[test]
fn order_zeros_puts_negative_zeros_first() {
    let mut v = vec![7u64, 0, NEG_ZERO, 0, NEG_ZERO, NEG_ZERO, 9, 0];
    order_zeros(&mut v[..], 1);
    assert_eq!(v, vec![7, NEG_ZERO, NEG_ZERO, NEG_ZERO, 0, 0, 9, 0]);
    let mut w = vec![7u64, 0, NEG_ZERO];
    order_zeros(&mut w[..], 0);
    assert_eq!(w, vec![7, 0, NEG_ZERO]);
    order_zeros(&mut w[..], 3);
    assert_eq!(w, vec![7, 0, NEG_ZERO]);
    order_zeros(&mut w[..], 1);
    assert_eq!(w, vec![7, NEG_ZERO, 0]);
}

#[test]
fn siftdown_range_makes_a_heap_of_one_subtree() {
    // the children of 1 are 5..=8, those of 5 are 21..=24; the rest is no heap
    let mut v: Vec<u32> = (0..30).collect();
    v[1] = 3;
    v[5] = 90;
    v[6] = 50;
    v[7] = 60;
    v[8] = 70;
    v[21] = 80;
    v[22] = 10;
    v[23] = 20;
    v[24] = 85;
    let before = v.clone();
    siftdown_range(&mut v[..], 1, 30, &cmp);
    let under = [1usize, 5, 6, 7, 8, 21, 22, 23, 24];
    for &i in &under[1..] {
        assert!(v[(i - 1) / 4] >= v[i]);
    }
    assert_eq!(v[1], 90);
    for i in 0..30 {
        if !under.contains(&i) {
            assert_eq!(v[i], before[i]);
        }
    }
    assert_eq!(sorted_copy(&v), sorted_copy(&before));
}

#[test]
fn ten_elements_may_be_quicksorted() {
    let mut v = vec![9u32, 3, 7, 1, 8, 2, 6, 0, 5, 4];
    do_introsort(&mut v[..], &cmp, 0, 4);
    assert_eq!(v, (0..10).collect::<Vec<u32>>());
    let w: Vec<u32> = (0..10).collect();
    assert_eq!(pivot_candidates(&w[..], &cmp), ((3, 4, 5, 6, 7), false));
}

#[test]
fn find_largest_child_compares_the_children() {
    let v = vec![0u32, 5, 9, 7, 8, 1, 4, 3];
    assert_eq!(find_largest_child(&v[..], 0, 8, &cmp), 2);
    assert_eq!(find_largest_child(&v[..], 0, 4, &cmp), 2);
    assert_eq!(find_largest_child(&v[..], 0, 3, &cmp), 2);
    assert_eq!(find_largest_child(&v[..], 1, 8, &cmp), 6);
    let level = vec![1u32; 9];
    assert_eq!(find_largest_child(&level[..], 0, 9, &cmp), 1);
    assert_eq!(find_largest_child(&level[..], 1, 9, &cmp), 5);
}
