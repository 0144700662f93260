//! The introspective sort: insertion sort for short slices, quicksort on
//! two pivots or on one, and heapsort once the recursion has gone deeper
//! than its budget.

use vstd::prelude::*;
use vstd::relations::*;
use vstd::laws_cmp::*;
use vstd::laws_eq::*;
use vstd::arithmetic::power2::{pow2, lemma_pow2_unfold, lemma2_to64};
use vstd::std_specs::cmp::{OrdSpec, PartialOrdSpec, PartialEqSpec};
use std::cmp::Ordering;
use crate::order::{
    respects, orders, lemma_orders, lemma_sorted_by_orders, three_way, in_order, callable_on, compare_idxs, lemma_callable_permutes,
    lemma_callable_part, lemma_keeps_orders, lemma_keeps_orders_part, lemma_respects_orders,
};
use crate::seqs::{
    at, stretch, permutes, joined, is_total_preorder, lemma_permutes_all, lemma_permutes_len,
    lemma_permutes_short, lemma_permutes_concat, lemma_stretch_part_of, lemma_joined,
    lemma_joined_permutes, lemma_joined_sorted, lemma_total_preorder_reflexive,
};
use crate::insertion::{maybe_insertion_sort, capped_insertion_sort, MIN_QUICKSORT_ELEMS};
use crate::heap::heapsort;
use crate::partition::{
    fat_partition, dual_pivot_partition, fat_partitioned, dual_partitioned, level,
};
use crate::pivots::{pivot_candidates, lemma_candidates, lemma_in_order_candidates};

verus! {

/// Sorts `v` by `compare`.
///
/// A short slice is insertion sorted. A longer one is quicksorted, with
/// `depth_budget(n)` levels of recursion for its `n` elements; what lies
/// deeper is heapsorted.
///
/// The result is a permutation of the input whatever `compare` answers. It
/// is sorted by every order by which `compare` orders the elements of the
/// slice, and if the input already stands in such an order, nothing is
/// changed. A slice of at most one element is left as it is, and
/// `compare` need not be callable on it.
pub fn sort_by<T, C: Fn(&T, &T) -> Ordering>(v: &mut [T], compare: &C)
    requires
        old(v)@.len() > 1 ==> callable_on(compare, old(v)@),
    ensures
        permutes(old(v)@, final(v)@),
        final(v)@.len() == old(v)@.len(),
        forall|le: spec_fn(T, T) -> bool| #[trigger] orders(compare, le, old(v)@) ==> sorted_by(final(v)@, le),
        in_order(compare, old(v)@) ==> final(v)@ == old(v)@,
        old(v)@.len() <= 1 ==> final(v)@ == old(v)@,
{
    if maybe_insertion_sort(v, compare) {
        proof {
            if v@.len() <= 1 {
                lemma_permutes_short(old(v)@, v@);
            }
        }
        return ;
    }
    let heapsort_depth = depth_budget(v.len());
    do_introsort(v, compare, 0, heapsort_depth);
}

/// The order of a type that has one: `a` is at most `b` when `a.cmp(b)` is
/// not `Greater`.
pub open spec fn ord_le<T: Ord>() -> spec_fn(T, T) -> bool {
    |a: T, b: T| a.cmp_spec(&b) != Ordering::Greater
}

/// Where `cmp` obeys the laws of `Ord`, the order of the type is a total
/// preorder, and `cmp` tells how two elements stand in it.
pub proof fn lemma_ord_le<T: Ord>()
    requires
        obeys_cmp::<T>(),
    ensures
        is_total_preorder(ord_le::<T>()),
        forall|a: T, b: T| #[trigger] a.cmp_spec(&b) == three_way(ord_le::<T>(), a, b),
{
    reveal(obeys_eq_spec_properties);
    reveal(obeys_partial_cmp_spec_properties);
    reveal(obeys_cmp_partial_ord);
    reveal(obeys_cmp_ord);
    let le = ord_le::<T>();
    assert forall|a: T, b: T| #[trigger] a.cmp_spec(&b) == three_way(le, a, b) by {
        assert(a.partial_cmp_spec(&b) == Some(a.cmp_spec(&b)));
        assert(b.partial_cmp_spec(&a) == Some(b.cmp_spec(&a)));
    }
    assert forall|a: T, b: T| #[trigger] le(a, b) || #[trigger] le(b, a) by {
        assert(a.cmp_spec(&b) == three_way(le, a, b));
    }
    assert forall|a: T, b: T, c: T| #[trigger] le(a, b) && #[trigger] le(b, c) implies le(a, c) by {
        assert(a.partial_cmp_spec(&b) == Some(a.cmp_spec(&b)));
        assert(b.partial_cmp_spec(&c) == Some(b.cmp_spec(&c)));
        assert(a.partial_cmp_spec(&c) == Some(a.cmp_spec(&c)));
        assert(c.partial_cmp_spec(&a) == Some(c.cmp_spec(&a)));
        assert(c.partial_cmp_spec(&b) == Some(c.cmp_spec(&b)));
        assert(b.partial_cmp_spec(&a) == Some(b.cmp_spec(&a)));
        if a.cmp_spec(&c) == Ordering::Greater {
            assert(c.cmp_spec(&a) == Ordering::Less);
            if a.cmp_spec(&b) == Ordering::Less {
                assert(c.cmp_spec(&b) == Ordering::Less);
                assert(b.cmp_spec(&c) == Ordering::Greater);
            } else {
                assert(a.eq_spec(&b));
                assert(b.eq_spec(&a));
                if b.cmp_spec(&c) == Ordering::Less {
                    assert(b.cmp_spec(&a) == Ordering::Less);
                } else {
                    assert(b.eq_spec(&c));
                    assert(a.eq_spec(&c));
                }
            }
        }
    }
}

/// Sorts `v` by the order of its element type.
///
/// The result is a permutation of the input. Where `cmp` obeys the laws of
/// `Ord` it is sorted, and an input that is sorted already is not changed.
pub fn sort<T: Ord>(v: &mut [T])
    ensures
        permutes(old(v)@, final(v)@),
        final(v)@.len() == old(v)@.len(),
        obeys_cmp::<T>() ==> sorted_by(final(v)@, ord_le::<T>()),
        obeys_cmp::<T>() && sorted_by(old(v)@, ord_le::<T>()) ==> final(v)@ == old(v)@,
        old(v)@.len() <= 1 ==> final(v)@ == old(v)@,
{
    let compare = |a: &T, b: &T| -> (o: Ordering)
        ensures
            T::obeys_cmp_spec() ==> o == a.cmp_spec(b),
        { a.cmp(b) };
    proof {
        if obeys_cmp::<T>() {
            lemma_ord_le::<T>();
            reveal(obeys_cmp_ord);
            assert(respects(&compare, ord_le::<T>(), old(v)@));
            lemma_orders(&compare, ord_le::<T>(), old(v)@);
        }
    }
    sort_by(v, &compare);
}

/// The order that a key gives to what it is taken from: `a` is at most `b`
/// when the key of `a` is at most the key of `b`.
pub open spec fn key_le<T, K: Ord>(key: spec_fn(T) -> K) -> spec_fn(T, T) -> bool {
    |a: T, b: T| ord_le::<K>()(key(a), key(b))
}

/// `key` computes `of`: whatever it returns for an element is what `of`
/// gives for it.
pub open spec fn computes<T, K, F: Fn(&T) -> K>(key: &F, of: spec_fn(T) -> K) -> bool {
    forall|a: T, k: K| #[trigger] key.ensures((&a,), k) ==> k == of(a)
}

/// Sorts `v` by the keys that `key` takes from its elements. The key is
/// taken anew for every comparison.
///
/// The result is a permutation of the input. Where `cmp` of the keys obeys
/// the laws of `Ord` and `key` computes a function of the element, the
/// result is sorted by its keys, and an input that is sorted by them
/// already is not changed.
pub fn sort_by_key<T, K: Ord, F: Fn(&T) -> K>(v: &mut [T], key: F)
    requires
        old(v)@.len() > 1 ==> forall|i: int|
            0 <= i < old(v)@.len() ==> key.requires((&#[trigger] old(v)@[i],)),
    ensures
        permutes(old(v)@, final(v)@),
        final(v)@.len() == old(v)@.len(),
        forall|of: spec_fn(T) -> K| #[trigger]
            computes(&key, of) && obeys_cmp::<K>() ==> sorted_by(final(v)@, key_le(of)),
        forall|of: spec_fn(T) -> K| #[trigger]
            computes(&key, of) && obeys_cmp::<K>() && sorted_by(old(v)@, key_le(of)) ==> final(v)@
                == old(v)@,
        old(v)@.len() <= 1 ==> final(v)@ == old(v)@,
{
    let key = &key;
    let compare = |a: &T, b: &T| -> (o: Ordering)
        requires
            key.requires((a,)),
            key.requires((b,)),
        ensures
            exists|ka: K, kb: K| #[trigger]
                key.ensures((a,), ka) && #[trigger] key.ensures((b,), kb) && (K::obeys_cmp_spec()
                    ==> o == ka.cmp_spec(&kb)),
        { key(a).cmp(&key(b)) };
    proof {
        assert forall|of: spec_fn(T) -> K| #[trigger]
            computes(key, of) && obeys_cmp::<K>() implies orders(&compare, key_le(of), old(v)@) by {
            lemma_ord_le::<K>();
            reveal(obeys_cmp_ord);
            let le = key_le(of);
            assert forall|a: T, b: T, o: Ordering| #[trigger]
                compare.ensures((&a, &b), o) implies o == three_way(le, a, b) by {
                assert(of(a).cmp_spec(&of(b)) == three_way(ord_le::<K>(), of(a), of(b)));
            }
            assert forall|a: T, b: T| #[trigger] le(a, b) || #[trigger] le(b, a) by {
                assert(ord_le::<K>()(of(a), of(b)) || ord_le::<K>()(of(b), of(a)));
            }
            assert forall|a: T, b: T, c: T| #[trigger] le(a, b) && #[trigger] le(b, c) implies le(
                a,
                c,
            ) by {
                assert(ord_le::<K>()(of(a), of(b)) && ord_le::<K>()(of(b), of(c)));
            }
            assert(respects(&compare, le, old(v)@));
            lemma_orders(&compare, le, old(v)@);
        }
    }
    sort_by(v, &compare);
}

/// The logarithm of `x` to the base 2, rounded down, and 0 for 0.
pub open spec fn floor_log2(x: nat) -> nat
    decreases x,
{
    if x <= 1 {
        0
    } else {
        1 + floor_log2(x / 2)
    }
}

/// `x` lies between the power of 2 that its logarithm gives and the next.
pub proof fn lemma_floor_log2(x: nat)
    requires
        x >= 1,
    ensures
        pow2(floor_log2(x)) <= x < pow2(floor_log2(x) + 1),
    decreases x,
{
    if x <= 1 {
        lemma2_to64();
    } else {
        lemma_floor_log2(x / 2);
        lemma_pow2_unfold(floor_log2(x));
        lemma_pow2_unfold(floor_log2(x) + 1);
    }
}

proof fn lemma_leading_zeros(x: u64)
    requires
        x >= 1,
    ensures
        floor_log2(x as nat) == 63 - vstd::std_specs::bits::u64_leading_zeros(x),
    decreases x,
{
    reveal(vstd::std_specs::bits::u64_leading_zeros);
    reveal_with_fuel(vstd::std_specs::bits::u64_leading_zeros, 3);
    if x > 1 {
        lemma_leading_zeros(x / 2);
    }
}

/// The logarithm of `x` to the base 2, rounded down; 0 for 0.
pub fn log2(x: usize) -> (r: u32)
    ensures
        r == floor_log2(x as nat),
        x <= 1 ==> r == 0,
        x >= 1 ==> pow2(r as nat) <= x < pow2((r + 1) as nat),
        r <= 63,
{
    if x <= 1 {
        proof {
            lemma2_to64();
        }
        return 0;
    }
    let n = (x as u64).leading_zeros();
    proof {
        lemma_leading_zeros(x as u64);
        lemma_floor_log2(x as nat);
        vstd::std_specs::bits::axiom_u64_leading_zeros(x as u64);
    }
    63 - n
}

/// The depth of recursion that the quicksort of `n` elements is allowed:
/// one and a half times the logarithm of `n` to the base 2, rounded down.
pub open spec fn budget(n: nat) -> nat {
    3 * floor_log2(n) / 2
}

/// The depth of recursion that the quicksort of `n` elements is allowed,
/// beyond which heapsort takes over.
pub fn depth_budget(n: usize) -> (depth: u32)
    ensures
        depth == budget(n as nat),
        depth <= 94,
{
    (3 * log2(n)) / 2
}

/// Sorts `v`, a part of a slice that is being quicksorted: by insertion
/// sort if it is short, else as `do_introsort` does. `rec` is the depth of
/// the recursion so far and `heapsort_depth` the budget beyond which
/// heapsort takes over.
///
/// The result is a permutation of the input whatever `compare` answers,
/// and it is sorted by every order by which `compare` orders the elements
/// of the slice.
pub fn introsort<T, C: Fn(&T, &T) -> Ordering>(v: &mut [T], compare: &C, rec: u32, heapsort_depth: u32)
    requires
        callable_on(compare, old(v)@),
        rec <= heapsort_depth + 1,
        heapsort_depth < u32::MAX,
    ensures
        permutes(old(v)@, final(v)@),
        final(v)@.len() == old(v)@.len(),
        forall|le: spec_fn(T, T) -> bool| #[trigger] orders(compare, le, old(v)@) ==> sorted_by(final(v)@, le),
    decreases heapsort_depth + 1 - rec, 2nat,
{
    if maybe_insertion_sort(v, compare) {
        return ;
    }
    do_introsort(v, compare, rec, heapsort_depth);
}

/// Sorts a slice that is too long for insertion sort: by heapsort if the
/// depth `rec` of the recursion is beyond the budget `heapsort_depth`.
/// Else five pivot candidates are put in order. If this exchanged nothing
/// and a capped insertion sort runs to the end, the slice is sorted. If
/// not, it is quicksorted: around the second and the fourth candidate if
/// no two neighbours among the five compare as equal, else around the
/// third.
///
/// The result is a permutation of the input whatever `compare` answers,
/// and it is sorted by every order by which `compare` orders the elements
/// of the slice.
/// Within the budget, an input that stands in such an order already is
/// not changed.
#[verifier::rlimit(40)]
pub fn do_introsort<T, C: Fn(&T, &T) -> Ordering>(v: &mut [T], compare: &C, rec: u32, heapsort_depth: u32)
    requires
        old(v)@.len() >= MIN_QUICKSORT_ELEMS,
        callable_on(compare, old(v)@),
        rec <= heapsort_depth + 1,
        heapsort_depth < u32::MAX,
    ensures
        permutes(old(v)@, final(v)@),
        final(v)@.len() == old(v)@.len(),
        forall|le: spec_fn(T, T) -> bool| #[trigger] orders(compare, le, old(v)@) ==> sorted_by(final(v)@, le),
        rec <= heapsort_depth && in_order(compare, old(v)@) ==> final(v)@ == old(v)@,
    decreases heapsort_depth + 1 - rec, 1nat,
{
    if rec > heapsort_depth {
        heapsort(v, compare);
        return ;
    }
    proof {
        if in_order(compare, v@) {
            lemma_in_order_candidates(compare, v@);
        }
    }
    let ((e1, e2, e3, e4, e5), swapped) = pivot_candidates(v, compare);
    if !swapped && capped_insertion_sort(v, compare) {
        return ;
    }
    proof {
        lemma_candidates(v@.len());
        lemma_callable_permutes(compare, old(v)@, v@);
        lemma_keeps_orders(compare, old(v)@, v@);
        lemma_respects_orders(compare, v@);
        assert(!in_order(compare, old(v)@));
    }
    if !matches!(compare_idxs(v, e1, e2, compare), Ordering::Equal) && !matches!(
        compare_idxs(v, e2, e3, compare),
        Ordering::Equal
    ) && !matches!(compare_idxs(v, e3, e4, compare), Ordering::Equal) && !matches!(
        compare_idxs(v, e4, e5, compare),
        Ordering::Equal
    ) {
        dual_pivot_sort(v, (e2, e4), compare, rec, heapsort_depth);
    } else {
        single_pivot_sort(v, e3, compare, rec, heapsort_depth);
    }
    proof {
        lemma_sorted_by_orders(compare, old(v)@, v@);
    }
}

/// Sorts `v` by quicksort on the two pivots at `pivots`: partitions, then
/// sorts what stands before the pivots, between them and after them, one
/// level deeper.
///
/// The result is a permutation of the input whatever `compare` answers,
/// and it is sorted by every order by which `compare` orders the elements
/// of the slice.
#[verifier::rlimit(40)]
pub fn dual_pivot_sort<T, C: Fn(&T, &T) -> Ordering>(
    v: &mut [T],
    pivots: (usize, usize),
    compare: &C,
    rec: u32,
    heapsort_depth: u32,
)
    requires
        0 < pivots.0 < old(v)@.len() - 1,
        0 < pivots.1 < old(v)@.len() - 1,
        pivots.0 != pivots.1,
        callable_on(compare, old(v)@),
        rec <= heapsort_depth < u32::MAX,
    ensures
        permutes(old(v)@, final(v)@),
        final(v)@.len() == old(v)@.len(),
        forall|le: spec_fn(T, T) -> bool| #[trigger] orders(compare, le, old(v)@) ==> sorted_by(final(v)@, le),
    decreases heapsort_depth + 1 - rec, 0nat,
{
    let (left_pivot, right_pivot) = dual_pivot_partition(v, pivots.0, pivots.1, compare);
    let ghost parted = v@;
    proof {
        lemma_respects_orders(compare, old(v)@);
    }
    let ghost (first, second) = (at(parted, left_pivot), at(parted, right_pivot));
    let n = v.len();
    let (after_left, after_right) = (left_pivot + 1, right_pivot + 1);
    let (left, rest) = v.split_at_mut(left_pivot);
    let (middle, right) = rest.split_at_mut(right_pivot - left_pivot);
    let (_, middle) = middle.split_at_mut(1);
    let (_, right) = right.split_at_mut(1);
    let ghost (l0, m0, r0) = (left@, middle@, right@);
    proof {
        lemma_callable_permutes(compare, old(v)@, parted);
        assert(l0 =~= stretch(parted, 0, left_pivot));
        assert(m0 =~= stretch(parted, after_left, right_pivot));
        assert(r0 =~= stretch(parted, after_right, n));
        lemma_stretch_part_of(parted, 0, left_pivot);
        lemma_stretch_part_of(parted, after_left, right_pivot);
        lemma_stretch_part_of(parted, after_right, n);
        lemma_callable_part(compare, parted, l0);
        lemma_callable_part(compare, parted, m0);
        lemma_callable_part(compare, parted, r0);
        lemma_keeps_orders(compare, old(v)@, parted);
        lemma_keeps_orders_part(compare, parted, l0);
        lemma_keeps_orders_part(compare, parted, m0);
        lemma_keeps_orders_part(compare, parted, r0);
        lemma_respects_orders(compare, l0);
        lemma_respects_orders(compare, m0);
        lemma_respects_orders(compare, r0);
    }
    introsort(left, compare, rec + 1, heapsort_depth);
    introsort(middle, compare, rec + 1, heapsort_depth);
    introsort(right, compare, rec + 1, heapsort_depth);
    let ghost (l1, m1, r1) = (left@, middle@, right@);
    proof {
        assert(v@ =~= joined(l1, first, m1, second, r1));
        lemma_joined(parted, left_pivot, right_pivot);
        lemma_joined_permutes(l0, m0, r0, first, second, l1, m1, r1);
        assert forall|le: spec_fn(T, T) -> bool| #[trigger] respects(compare, le, old(v)@) implies sorted_by(
            v@,
            le,
        ) by {
            lemma_dual_sorted(parted, left_pivot, right_pivot, l1, m1, r1, le);
        }
        lemma_sorted_by_orders(compare, old(v)@, v@);
    }
}

/// Three sorted parts around the two pivots of a partitioned slice, each a
/// permutation of the part that stood there, are sorted in a row.
pub proof fn lemma_dual_sorted<T>(
    parted: Seq<T>,
    lp: usize,
    rp: usize,
    left: Seq<T>,
    middle: Seq<T>,
    right: Seq<T>,
    le: spec_fn(T, T) -> bool,
)
    requires
        is_total_preorder(le),
        dual_partitioned(parted, lp, rp, le),
        permutes(parted.subrange(0, lp as int), left),
        permutes(parted.subrange(lp + 1, rp as int), middle),
        permutes(parted.subrange(rp + 1, parted.len() as int), right),
        sorted_by(left, le),
        sorted_by(middle, le),
        sorted_by(right, le),
    ensures
        sorted_by(joined(left, parted[lp as int], middle, parted[rp as int], right), le),
{
    lemma_total_preorder_reflexive(le);
    let (first, second) = (parted[lp as int], parted[rp as int]);
    let (l0, m0, r0) = (
        parted.subrange(0, lp as int),
        parted.subrange(lp + 1, rp as int),
        parted.subrange(rp + 1, parted.len() as int),
    );
    assert forall|i: int| 0 <= i < l0.len() implies #[trigger] le(l0[i], first) by {
        assert(le(parted[i], first));
    }
    let below = |x: T| le(x, first);
    assert forall|i: int| 0 <= i < l0.len() implies #[trigger] below(l0[i]) by {}
    lemma_permutes_all(l0, left, below);
    assert forall|i: int| 0 <= i < left.len() implies #[trigger] le(left[i], first) by {
        assert(below(left[i]));
    }
    assert forall|i: int| 0 <= i < m0.len() implies #[trigger] le(first, m0[i]) && le(m0[i], second) by {
        assert(le(first, parted[lp + 1 + i]));
        assert(le(parted[lp + 1 + i], second));
    }
    let between = |x: T| le(first, x) && le(x, second);
    assert forall|i: int| 0 <= i < m0.len() implies #[trigger] between(m0[i]) by {}
    lemma_permutes_all(m0, middle, between);
    assert forall|i: int| 0 <= i < middle.len() implies #[trigger] le(first, middle[i]) by {
        assert(between(middle[i]));
    }
    assert forall|i: int| 0 <= i < middle.len() implies #[trigger] le(middle[i], second) by {
        assert(between(middle[i]));
    }
    assert forall|i: int| 0 <= i < r0.len() implies #[trigger] le(second, r0[i]) by {
        assert(le(second, parted[rp + 1 + i]));
    }
    let above = |x: T| le(second, x);
    assert forall|i: int| 0 <= i < r0.len() implies #[trigger] above(r0[i]) by {}
    lemma_permutes_all(r0, right, above);
    assert forall|i: int| 0 <= i < right.len() implies #[trigger] le(second, right[i]) by {
        assert(above(right[i]));
    }
    lemma_joined_sorted(left, first, middle, second, right, le);
}

/// Sorts `v` by quicksort on the pivot at `pivot`: partitions, then sorts
/// the elements less than the pivot and those greater than it, one level
/// deeper. The elements level with the pivot stand where they belong.
///
/// The result is a permutation of the input whatever `compare` answers,
/// and it is sorted by every order by which `compare` orders the elements
/// of the slice.
#[verifier::rlimit(40)]
pub fn single_pivot_sort<T, C: Fn(&T, &T) -> Ordering>(
    v: &mut [T],
    pivot: usize,
    compare: &C,
    rec: u32,
    heapsort_depth: u32,
)
    requires
        pivot < old(v)@.len(),
        callable_on(compare, old(v)@),
        rec <= heapsort_depth < u32::MAX,
    ensures
        permutes(old(v)@, final(v)@),
        final(v)@.len() == old(v)@.len(),
        forall|le: spec_fn(T, T) -> bool| #[trigger] orders(compare, le, old(v)@) ==> sorted_by(final(v)@, le),
    decreases heapsort_depth + 1 - rec, 0nat,
{
    let ghost p = at(v@, pivot);
    let (l, r) = fat_partition(v, pivot, compare);
    let n = v.len();
    let from = n - r;
    let ghost parted = v@;
    proof {
        lemma_callable_permutes(compare, old(v)@, parted);
        lemma_keeps_orders(compare, old(v)@, parted);
        lemma_respects_orders(compare, old(v)@);
    }
    if l > 1 {
        let (left, _) = v.split_at_mut(l);
        proof {
            lemma_stretch_part_of(parted, 0, l);
            lemma_callable_part(compare, parted, left@);
            lemma_keeps_orders_part(compare, parted, left@);
            lemma_respects_orders(compare, left@);
        }
        introsort(left, compare, rec + 1, heapsort_depth);
        proof {
            lemma_permutes_concat(
                stretch(parted, 0, l),
                stretch(parted, l, n),
                left@,
                stretch(parted, l, n),
            );
            assert(parted =~= stretch(parted, 0, l) + stretch(parted, l, n));
            assert(left@ =~= stretch(v@, 0, l));
        }
    }
    let ghost half = v@;
    proof {
        assert(half =~= stretch(half, 0, l) + stretch(parted, l, n));
        assert(permutes(stretch(parted, 0, l), stretch(half, 0, l)));
        assert(forall|le: spec_fn(T, T) -> bool| #[trigger]
            respects(compare, le, old(v)@) ==> sorted_by(stretch(half, 0, l), le));
        lemma_callable_permutes(compare, parted, half);
        lemma_keeps_orders(compare, parted, half);
    }
    if r > 1 {
        let (_, right) = v.split_at_mut(from);
        proof {
            lemma_stretch_part_of(half, from, n);
            lemma_callable_part(compare, half, right@);
            lemma_keeps_orders_part(compare, half, right@);
            lemma_respects_orders(compare, right@);
        }
        introsort(right, compare, rec + 1, heapsort_depth);
        proof {
            lemma_permutes_concat(
                stretch(half, 0, from),
                stretch(half, from, n),
                stretch(half, 0, from),
                right@,
            );
            assert(half =~= stretch(half, 0, from) + stretch(half, from, n));
            assert(right@ =~= stretch(v@, from, n));
            assert(stretch(half, 0, from) =~= stretch(v@, 0, from));
        }
    }
    proof {
        assert forall|le: spec_fn(T, T) -> bool| #[trigger] respects(compare, le, old(v)@) implies sorted_by(
            v@,
            le,
        ) by {
            let (low, high) = (stretch(v@, 0, l), stretch(v@, from, n));
            assert(low =~= stretch(half, 0, l));
            assert(stretch(half, from, n) =~= stretch(parted, from, n));
            assert(permutes(stretch(parted, from, n), high));
            assert(sorted_by(high, le));
            lemma_fat_sorted(parted, l, from, n, p, low, high, le);
            assert(v@ =~= low + stretch(parted, l, from) + high);
        }
        lemma_sorted_by_orders(compare, old(v)@, v@);
    }
}

/// A sorted part at most `p`, a part level with `p` and a sorted part at
/// least `p` are sorted in a row.
pub proof fn lemma_fat_sorted<T>(
    parted: Seq<T>,
    l: usize,
    from: usize,
    n: usize,
    p: T,
    left: Seq<T>,
    right: Seq<T>,
    le: spec_fn(T, T) -> bool,
)
    requires
        is_total_preorder(le),
        n == parted.len(),
        from <= n,
        fat_partitioned(parted, l, (n - from) as usize, p, le),
        permutes(stretch(parted, 0, l), left),
        permutes(stretch(parted, from, n), right),
        sorted_by(left, le),
        sorted_by(right, le),
    ensures
        sorted_by(left + stretch(parted, l, from) + right, le),
{
    lemma_total_preorder_reflexive(le);
    let (l0, m0, r0) = (stretch(parted, 0, l), stretch(parted, l, from), stretch(parted, from, n));
    lemma_permutes_len(l0, left);
    lemma_permutes_len(r0, right);
    let below = |x: T| le(x, p);
    assert forall|i: int| 0 <= i < l0.len() implies #[trigger] below(l0[i]) by {
        assert(le(parted[i], p));
    }
    lemma_permutes_all(l0, left, below);
    let above = |x: T| le(p, x);
    assert forall|i: int| 0 <= i < r0.len() implies #[trigger] above(r0[i]) by {
        assert(le(p, parted[from + i]));
    }
    lemma_permutes_all(r0, right, above);
    let s = left + m0 + right;
    assert forall|i: int, j: int| 0 <= i < j < s.len() implies #[trigger] le(s[i], s[j]) by {
        if i < l {
            assert(s[i] == left[i] && below(left[i]));
        } else if i < from {
            assert(s[i] == parted[i] && level(le, parted[i], p));
        } else {
            assert(s[i] == right[i - from]);
        }
        if j < l {
            assert(s[j] == left[j]);
        } else if j < from {
            assert(s[j] == parted[j] && level(le, parted[j], p));
        } else {
            assert(s[j] == right[j - from] && above(right[j - from]));
        }
    }
}

} // verus!
