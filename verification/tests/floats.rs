use quickersort::sort_floats;
use rand::seq::SliceRandom;
use rand::{thread_rng, Rng};
use std::f64;

fn sort_numbers(v: &mut [f64]) {
    let mut bits: Vec<u64> = v.iter().map(|x| x.to_bits()).collect();
    sort_floats(&mut bits[..]);
    for (x, b) in v.iter_mut().zip(bits.iter()) {
        *x = f64::from_bits(*b);
    }
}

fn assert_float_eq(a: &[f64], b: &[f64]) {
    if a.len() != b.len() {
        panic!("different lengths, {} vs. {}", a.len(), b.len());
    }
    for i in 0..a.len() {
        if !((a[i] == b[i] && a[i].signum() == b[i].signum()) || (a[i].is_nan() && b[i].is_nan())) {
            panic!("\n{:?} !=\n{:?}\n{} != {}", a, b, a[i], b[i]);
        }
    }
}

fn assert_floats_sorted(v: &[f64]) {
    let (not_nans, nans) = match v.iter().position(|x| x.is_nan()) {
        Some(i) => v.split_at(i),
        None => (v, &[][..]),
    };
    assert!(not_nans.windows(2).all(|w| {
        let (a, b) = (w[0], w[1]);
        println!("{:?}, {:?}\t{}, {}", a, b, a.signum(), b.signum());
        a < b || (a == b && !(b.is_sign_negative() && a.is_sign_positive()))
    }));
    assert!(nans.iter().all(|x| x.is_nan()));
}

#[test]
fn test_sort_floats() {
    let sorted_negs: Vec<_> = (0..10u32).map(|i| -1.0f64 * f64::from(11 - i)).collect();
    let sorted_pos: Vec<_> = (0..10u32).map(|i| f64::from(i + 1)).collect();
    let mut sorted = vec![f64::NEG_INFINITY];
    sorted.extend(sorted_negs);
    sorted.push(-0.0);
    sorted.push(0.0);
    sorted.extend(sorted_pos);
    sorted.push(f64::INFINITY);
    for _ in 0..10 {
        sorted.push(f64::NAN);
    }

    let mut rng = thread_rng();
    for _ in 0..1000 {
        let mut w = sorted.clone();
        w[..].shuffle(&mut rng);
        sort_numbers(&mut w[..]);
        assert_float_eq(&w[..], &sorted[..]);
    }

    let mut xs = [0.0f64, -0.0];
    sort_numbers(&mut xs[..1]);
    sort_numbers(&mut xs[..2]);
    sort_numbers(&mut xs[..]);
}

#[test]
fn test_sort_random_floats() {
    let mut rng = thread_rng();
    for _ in 0..1000 {
        let mut v = (0..20).map(|_| 100.0 * (rng.gen::<f64>() - 0.5)).collect::<Vec<_>>();
        v.push(f64::NAN);
        v.push(0.0);
        v.push(-0.0);
        v[..].shuffle(&mut rng);
        sort_numbers(&mut v[..]);
        assert_floats_sorted(&v[..]);
    }
}

#[test]
fn test_sort_zeros() {
    let mut rng = thread_rng();
    let mut v = (0..50)
        .map(|_| if rng.gen::<f64>() > 0.5 { 0.0 } else { -0.0 })
        .collect::<Vec<_>>();
    sort_numbers(&mut v[..]);
    assert_floats_sorted(&v[..]);
}

#[test]
fn test_sort_few_zeros() {
    let mut v = [0.0, -0.0];
    sort_numbers(&mut v[..]);
    assert_floats_sorted(&v[..]);
}

#[test]
fn sort_floats_total_order_scenario() {
    let mut v = [
        f64::NAN,
        5.0,
        -0.0,
        0.0,
        -3.0,
        f64::INFINITY,
        f64::NEG_INFINITY,
        f64::NAN,
    ];
    sort_numbers(&mut v[..]);
    let expected = [
        f64::NEG_INFINITY,
        -3.0,
        -0.0,
        0.0,
        5.0,
        f64::INFINITY,
        f64::NAN,
        f64::NAN,
    ];
    assert_float_eq(&v[..], &expected[..]);
    assert_eq!(v[2].to_bits(), 0x8000_0000_0000_0000);
    assert_eq!(v[3].to_bits(), 0);
}

#[test]
fn sort_floats_keeps_the_bits() {
    let quiet = 0x7ff8_0000_0000_0001u64;
    let signed = 0xfff0_0000_0000_0007u64;
    let mut bits = vec![quiet, 1.5f64.to_bits(), signed, (-2.5f64).to_bits(), 0, 0x8000_0000_0000_0000];
    sort_floats(&mut bits[..]);
    assert_eq!(bits[0], (-2.5f64).to_bits());
    assert_eq!(bits[1], 0x8000_0000_0000_0000);
    assert_eq!(bits[2], 0);
    assert_eq!(bits[3], 1.5f64.to_bits());
    let mut tail = vec![bits[4], bits[5]];
    tail.sort();
    assert_eq!(tail, vec![quiet, signed]);
}

#[test]
fn sort_floats_boundary_sizes() {
    let mut none: [u64; 0] = [];
    sort_floats(&mut none[..]);
    let mut one = [f64::NAN.to_bits()];
    sort_floats(&mut one[..]);
    assert_eq!(one, [f64::NAN.to_bits()]);
    let mut nans = [f64::NAN.to_bits(); 5];
    sort_floats(&mut nans[..]);
    assert_eq!(nans, [f64::NAN.to_bits(); 5]);
}

#[test]
fn sort_floats_many_random() {
    let mut rng = thread_rng();
    for _ in 0..50 {
        let mut v: Vec<f64> = (0..2000)
            .map(|_| match rng.gen::<u8>() % 8 {
                0 => 0.0,
                1 => -0.0,
                2 => f64::NAN,
                3 => f64::INFINITY,
                4 => f64::NEG_INFINITY,
                _ => f64::from_bits(rng.gen::<u64>()),
            })
            .collect();
        sort_numbers(&mut v[..]);
        assert_floats_sorted(&v[..]);
    }
}
