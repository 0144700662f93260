//! Sorting IEEE-754 double precision numbers in their total order:
//! negative numbers, negative zero, positive zero, positive numbers, and
//! the NaNs last.
//!
//! A number is held as its 64 bits in a `u64`: the sign in the highest bit,
//! then eleven bits of exponent and the fraction. The bit patterns above
//! that of infinity, whatever their sign, are the NaNs.

use vstd::prelude::*;
use vstd::relations::*;
use vstd::seq_lib::*;
use std::cmp::Ordering;
use crate::order::{respects, three_way, lemma_orders};
use crate::seqs::{at, stretch, permutes, lemma_swap_permutes, lemma_permutes_concat};
use crate::sort::sort_by;

verus! {

/// The sign bit: as a number, negative zero.
pub const NEG_ZERO: u64 = 0x8000_0000_0000_0000;

/// Positive infinity: the exponent all ones, the fraction zero.
pub const INFINITY: u64 = 0x7ff0_0000_0000_0000;

/// Whether the sign bit of `x` is set.
pub open spec fn negative(x: u64) -> bool {
    x >= NEG_ZERO
}

/// `x` without its sign bit.
pub open spec fn magnitude(x: u64) -> u64 {
    if x >= NEG_ZERO {
        (x - NEG_ZERO) as u64
    } else {
        x
    }
}

/// Whether `x` is not a number.
pub open spec fn nan(x: u64) -> bool {
    magnitude(x) > INFINITY
}

/// Whether `x` is one of the two zeros.
pub open spec fn zero(x: u64) -> bool {
    magnitude(x) == 0
}

/// Where `x` stands among the numbers as `<` compares them: the two zeros
/// stand level. It says nothing of a NaN.
pub open spec fn rank(x: u64) -> int {
    if negative(x) {
        -(magnitude(x) as int)
    } else {
        magnitude(x) as int
    }
}

/// Where `x` stands in the total order: as in `rank`, but negative zero
/// before positive zero, and every NaN after infinity.
pub open spec fn total_rank(x: u64) -> int {
    if nan(x) {
        INFINITY + 1
    } else if negative(x) {
        -(magnitude(x) as int) - 1
    } else {
        magnitude(x) as int
    }
}

/// Whether `x` is a number less than zero.
pub open spec fn below_zero(x: u64) -> bool {
    !nan(x) && rank(x) < 0
}

/// Whether the sign bit of `x` is set.
pub fn is_negative(x: u64) -> (r: bool)
    ensures
        r == negative(x),
{
    x >= NEG_ZERO
}

/// Whether `x` is not a number.
pub fn is_nan(x: u64) -> (r: bool)
    ensures
        r == nan(x),
{
    let m = if x >= NEG_ZERO { x - NEG_ZERO } else { x };
    m > INFINITY
}

/// Whether `x` is one of the two zeros.
pub fn is_zero(x: u64) -> (r: bool)
    ensures
        r == zero(x),
{
    x == 0 || x == NEG_ZERO
}

/// Whether `x` is a number less than zero.
pub fn is_below_zero(x: u64) -> (r: bool)
    ensures
        r == below_zero(x),
{
    x > NEG_ZERO && x - NEG_ZERO <= INFINITY
}

/// Finds where the numbers less than zero end: the position of the first
/// element that is not less than zero, or the length if there is none.
///
/// The element before the position returned is less than zero and the
/// element at it is not. Where the numbers less than zero all stand before
/// the others, as in a sorted slice, every element before the position is
/// less than zero and none from it on.
pub fn find_first_zero(v: &[u64]) -> (left: usize)
    ensures
        left <= v@.len(),
        left > 0 ==> below_zero(v@[left - 1]),
        left < v@.len() ==> !below_zero(v@[left as int]),
        (forall|i: int, j: int| 0 <= i < j < v@.len() && below_zero(v@[j]) ==> below_zero(v@[i]))
            ==> (forall|i: int| 0 <= i < v@.len() ==> (below_zero(#[trigger] v@[i]) <==> i < left)),
{
    if v.len() == 0 {
        return 0;
    }
    let ghost sorted = forall|i: int, j: int|
        0 <= i < j < v@.len() && below_zero(v@[j]) ==> below_zero(v@[i]);
    let mut hi = v.len() - 1;
    let mut left: usize = 0;
    while left < hi
        invariant
            left <= hi < v@.len(),
            left > 0 ==> below_zero(v@[left - 1]),
            hi < v@.len() - 1 ==> !below_zero(v@[hi as int]),
        decreases hi - left,
    {
        let mid = ((hi - left) / 2) + left;
        if is_below_zero(v[mid]) {
            left = mid + 1;
        } else {
            hi = mid;
        }
    }
    while left < v.len() && is_below_zero(v[left])
        invariant
            left <= v@.len(),
            left > 0 ==> below_zero(v@[left - 1]),
        decreases v@.len() - left,
    {
        left += 1;
    }
    proof {
        if sorted {
            assert forall|i: int| 0 <= i < v@.len() implies (below_zero(#[trigger] v@[i]) <==> i
                < left) by {
                if i < left {
                    assert(below_zero(v@[left - 1]));
                } else if i > left {
                    assert(!below_zero(v@[left as int]));
                }
            }
        }
    }
    left
}

/// The order of the numbers as `<` compares them.
pub open spec fn rank_le() -> spec_fn(u64, u64) -> bool {
    |a: u64, b: u64| rank(a) <= rank(b)
}

/// The total order.
pub open spec fn total_le() -> spec_fn(u64, u64) -> bool {
    |a: u64, b: u64| total_rank(a) <= total_rank(b)
}

/// Where `x` stands among the numbers as `<` compares them.
pub fn rank_of(x: u64) -> (r: i64)
    ensures
        r == rank(x),
{
    if x >= NEG_ZERO {
        -((x - NEG_ZERO) as i64)
    } else {
        x as i64
    }
}

/// Compares two numbers as `<` does: the two zeros are equal.
pub fn compare_numbers(x: &u64, y: &u64) -> (o: Ordering)
    ensures
        o == three_way(rank_le(), *x, *y),
{
    let (a, b) = (rank_of(*x), rank_of(*y));
    if a < b {
        Ordering::Less
    } else if a > b {
        Ordering::Greater
    } else {
        Ordering::Equal
    }
}

/// Moves the NaNs to the end, and returns the position of the last element
/// before them, or 0 if there is nothing but NaNs.
pub fn nans_last(v: &mut [u64]) -> (rnan: usize)
    requires
        old(v)@.len() >= 1,
    ensures
        permutes(old(v)@, final(v)@),
        final(v)@.len() == old(v)@.len(),
        rnan < old(v)@.len(),
        forall|i: int| rnan < i < final(v)@.len() ==> nan(#[trigger] final(v)@[i]),
        rnan == 0 || forall|i: int| 0 <= i <= rnan ==> !nan(#[trigger] final(v)@[i]),
{
    let n = v.len();
    let mut rnan = n - 1;
    while rnan > 0 && is_nan(v[rnan])
        invariant
            n == v@.len(),
            v@ == old(v)@,
            rnan < n,
            forall|i: int| rnan < i < n ==> nan(#[trigger] v@[i]),
        decreases rnan,
    {
        rnan -= 1;
    }
    let mut p = rnan;
    while p > 0
        invariant
            n == v@.len() == old(v)@.len(),
            p <= rnan < n,
            permutes(old(v)@, v@),
            forall|i: int| rnan < i < n ==> nan(#[trigger] v@[i]),
            rnan == 0 || forall|i: int| p <= i <= rnan ==> !nan(#[trigger] v@[i]),
        decreases p,
    {
        p -= 1;
        if is_nan(v[p]) {
            proof {
                lemma_swap_permutes(v@, p, rnan);
            }
            v.swap(p, rnan);
            rnan -= 1;
        }
    }
    rnan
}

/// How many elements of `s` are negative zero.
pub open spec fn count_neg_zero(s: Seq<u64>) -> nat
    decreases s.len(),
{
    if s.len() == 0 {
        0
    } else {
        count_neg_zero(s.drop_last()) + if s.last() == NEG_ZERO {
            1nat
        } else {
            0nat
        }
    }
}

/// `neg` negative zeros followed by `pos` positive zeros.
pub open spec fn zeros_in_order(neg: nat, pos: nat) -> Seq<u64> {
    Seq::new(neg + pos, |i: int| if i < neg { NEG_ZERO } else { 0u64 })
}

/// A run of zeros holds as many negative and as many positive zeros as the
/// run that has the negative ones first.
pub proof fn lemma_zero_run(s: Seq<u64>)
    requires
        forall|i: int| 0 <= i < s.len() ==> zero(#[trigger] s[i]),
    ensures
        count_neg_zero(s) <= s.len(),
        permutes(s, zeros_in_order(count_neg_zero(s), (s.len() - count_neg_zero(s)) as nat)),
    decreases s.len(),
{
    broadcast use vstd::multiset::group_multiset_axioms;
    if s.len() == 0 {
        assert(s =~= zeros_in_order(0, 0));
    } else {
        let front = s.drop_last();
        lemma_zero_run(front);
        let neg = count_neg_zero(front);
        let pos = (front.len() - neg) as nat;
        let run = zeros_in_order(neg, pos);
        assert(s =~= front.push(s.last()));
        to_multiset_build(front, s.last());
        assert(zero(s[s.len() - 1]));
        if s.last() == NEG_ZERO {
            assert(zeros_in_order(neg + 1, pos) =~= run.insert(neg as int, NEG_ZERO));
            to_multiset_insert(run, neg as int, NEG_ZERO);
        } else {
            assert(zeros_in_order(neg, pos + 1) =~= run.push(0u64));
            to_multiset_build(run, 0u64);
        }
    }
}

/// Puts the zeros that stand in a row from `left` on in order: the
/// negative zeros first.
#[verifier::rlimit(40)]
pub fn order_zeros(v: &mut [u64], left: usize)
    requires
        left <= old(v)@.len(),
    ensures
        permutes(old(v)@, final(v)@),
        final(v)@.len() == old(v)@.len(),
        ({
            let run = zero_run(old(v)@, left as int);
            &&& forall|i: int|
                0 <= i < left || left + run <= i < old(v)@.len() ==> final(v)@[i] == old(v)@[i]
            &&& count_neg_zero(old(v)@.subrange(left as int, left + run)) <= run
            &&& final(v)@.subrange(left as int, left + run) == zeros_in_order(
                count_neg_zero(old(v)@.subrange(left as int, left + run)),
                (run - count_neg_zero(old(v)@.subrange(left as int, left + run))) as nat,
            )
        }),
{
    let n = v.len();
    let mut neg_zeros: usize = 0;
    let mut zeros: usize = 0;
    let mut i = left;
    proof {
        reveal_with_fuel(count_neg_zero, 1);
        assert(v@.subrange(left as int, left as int) =~= Seq::<u64>::empty());
    }
    while i < n && is_zero(v[i])
        invariant
            n == v@.len(),
            v@ == old(v)@,
            left <= i <= n,
            forall|k: int| left <= k < i ==> zero(#[trigger] v@[k]),
            neg_zeros == count_neg_zero(v@.subrange(left as int, i as int)),
            neg_zeros + zeros == i - left,
        decreases n - i,
    {
        proof {
            assert(v@.subrange(left as int, i + 1).drop_last() =~= v@.subrange(left as int, i as int));
        }
        if is_negative(v[i]) {
            neg_zeros += 1;
        } else {
            zeros += 1;
        }
        i += 1;
    }
    let ghost run = (i - left) as nat;
    let ghost neg = neg_zeros as nat;
    proof {
        lemma_zero_run_length(v@, left as int, i as int);
        lemma_zero_run(v@.subrange(left as int, i as int));
    }
    let mut j = left;
    while j < n && (neg_zeros > 0 || zeros > 0)
        invariant
            n == v@.len() == old(v)@.len(),
            left <= j <= i <= n,
            neg <= run,
            run == i - left,
            neg_zeros + zeros == i - j,
            neg_zeros == (if j - left < neg { neg - (j - left) } else { 0 }),
            forall|k: int| 0 <= k < left || j <= k < n ==> v@[k] == old(v)@[k],
            forall|k: int| left <= k < j ==> v@[k] == zeros_in_order(neg, (run - neg) as nat)[k - left],
        decreases n - j,
    {
        if neg_zeros > 0 {
            v[j] = NEG_ZERO;
            neg_zeros -= 1;
        } else {
            v[j] = 0;
            zeros -= 1;
        }
        j += 1;
    }
    proof {
        let (before, after) = (old(v)@, v@);
        let (a, b) = (left as int, i as int);
        assert(after.subrange(a, b) =~= zeros_in_order(neg, (run - neg) as nat));
        assert(before =~= before.subrange(0, a) + before.subrange(a, b) + before.subrange(b, n as int));
        assert(after =~= before.subrange(0, a) + after.subrange(a, b) + before.subrange(b, n as int));
        lemma_permutes_concat(
            before.subrange(0, a),
            before.subrange(a, b),
            before.subrange(0, a),
            after.subrange(a, b),
        );
        lemma_permutes_concat(
            before.subrange(0, a) + before.subrange(a, b),
            before.subrange(b, n as int),
            before.subrange(0, a) + after.subrange(a, b),
            before.subrange(b, n as int),
        );
    }
}

/// The number of zeros that stand in a row in `s` from `left` on.
pub open spec fn zero_run(s: Seq<u64>, left: int) -> nat
    decreases s.len() - left,
{
    if 0 <= left < s.len() && zero(s[left]) {
        1 + zero_run(s, left + 1)
    } else {
        0
    }
}

/// A row of zeros that ends at an element that is not zero, or at the end,
/// is the whole run.
pub proof fn lemma_zero_run_length(s: Seq<u64>, left: int, end: int)
    requires
        0 <= left <= end <= s.len(),
        forall|k: int| left <= k < end ==> zero(#[trigger] s[k]),
        end < s.len() ==> !zero(s[end]),
    ensures
        zero_run(s, left) == end - left,
    decreases end - left,
{
    if left < end {
        lemma_zero_run_length(s, left + 1, end);
    }
}

/// The run of zeros from `left` on holds zeros only, and ends at the end of
/// the sequence or at an element that is not zero.
pub proof fn lemma_zero_run_ends(s: Seq<u64>, left: int)
    requires
        0 <= left <= s.len(),
    ensures
        left + zero_run(s, left) <= s.len(),
        forall|k: int| left <= k < left + zero_run(s, left) ==> zero(#[trigger] s[k]),
        left + zero_run(s, left) < s.len() ==> !zero(s[left + zero_run(s, left)]),
    decreases s.len() - left,
{
    if left < s.len() && zero(s[left]) {
        lemma_zero_run_ends(s, left + 1);
    }
}

/// A slice with its NaNs at the end and its numbers sorted as `<` orders
/// them is in the total order once its zeros are.
#[verifier::rlimit(40)]
pub proof fn lemma_total_order(sorted: Seq<u64>, fixed: Seq<u64>, m: usize, left: usize)
    requires
        left <= m <= sorted.len() == fixed.len(),
        forall|i: int| m <= i < sorted.len() ==> nan(#[trigger] sorted[i]),
        (forall|i: int| 0 <= i < m ==> !nan(#[trigger] sorted[i])) || (forall|i: int|
            0 <= i < sorted.len() ==> nan(#[trigger] sorted[i])),
        sorted_by(sorted.subrange(0, m as int), rank_le()),
        forall|i: int| 0 <= i < m ==> (below_zero(#[trigger] sorted[i]) <==> i < left),
        forall|i: int|
            0 <= i < left || left + zero_run(sorted, left as int) <= i < sorted.len() ==> fixed[i]
                == sorted[i],
        exists|neg: nat, pos: nat|
            neg + pos == zero_run(sorted, left as int) && fixed.subrange(
                left as int,
                left + zero_run(sorted, left as int),
            ) == #[trigger] zeros_in_order(neg, pos),
    ensures
        sorted_by(fixed, total_le()),
{
    let run = zero_run(sorted, left as int);
    let end = left + run;
    lemma_zero_run_ends(sorted, left as int);
    let (neg, pos) = choose|neg: nat, pos: nat|
        neg + pos == run && fixed.subrange(left as int, end) == #[trigger] zeros_in_order(neg, pos);
    let run_now = zeros_in_order(neg, pos);
    let le = total_le();
    if forall|i: int| 0 <= i < sorted.len() ==> nan(#[trigger] sorted[i]) {
        assert(run == 0) by {
            if left < sorted.len() {
                assert(nan(sorted[left as int]));
            }
        }
        assert forall|i: int, j: int| 0 <= i < j < fixed.len() implies #[trigger] le(
            fixed[i],
            fixed[j],
        ) by {
            assert(nan(sorted[i]) && nan(sorted[j]));
        }
    } else {
        assert(end <= m) by {
            if m < end {
                assert(zero(sorted[m as int]) && nan(sorted[m as int]));
            }
        }
        let numbers = sorted.subrange(0, m as int);
        assert forall|i: int| end <= i < m implies rank(#[trigger] sorted[i]) > 0 by {
            assert(!below_zero(sorted[end]));
            assert(!zero(sorted[end]));
            if end < i {
                assert(rank_le()(numbers[end], numbers[i]));
            }
        }
        assert forall|i: int, j: int| 0 <= i < j < fixed.len() implies #[trigger] le(
            fixed[i],
            fixed[j],
        ) by {
            if j >= m {
                assert(nan(sorted[j]));
            } else {
                assert(!nan(sorted[i]) && !nan(sorted[j]));
                assert(rank_le()(numbers[i], numbers[j]));
                if left <= i < end {
                    assert(fixed[i] == run_now[i - left]);
                } else {
                    assert(below_zero(sorted[i]) || rank(sorted[i]) > 0);
                }
                if left <= j < end {
                    assert(fixed[j] == run_now[j - left]);
                } else {
                    assert(below_zero(sorted[j]) || rank(sorted[j]) > 0);
                }
            }
        }
    }
}

/// Permuting numbers leaves numbers, and sorting them as `<` orders them
/// puts those less than zero first.
pub proof fn lemma_numbers_stay(mixed: Seq<u64>, ranked: Seq<u64>)
    requires
        permutes(mixed, ranked),
        sorted_by(ranked, rank_le()),
    ensures
        (forall|i: int| 0 <= i < mixed.len() ==> !nan(#[trigger] mixed[i])) ==> {
            &&& forall|i: int| 0 <= i < ranked.len() ==> !nan(#[trigger] ranked[i])
            &&& forall|i: int, j: int|
                0 <= i < j < ranked.len() && below_zero(ranked[j]) ==> below_zero(ranked[i])
        },
{
    if forall|i: int| 0 <= i < mixed.len() ==> !nan(#[trigger] mixed[i]) {
        let number = |x: u64| !nan(x);
        assert forall|i: int| 0 <= i < mixed.len() implies #[trigger] number(mixed[i]) by {}
        crate::seqs::lemma_permutes_all(mixed, ranked, number);
        assert forall|i: int| 0 <= i < ranked.len() implies !nan(#[trigger] ranked[i]) by {
            assert(number(ranked[i]));
        }
        assert forall|i: int, j: int|
            0 <= i < j < ranked.len() && below_zero(ranked[j]) implies below_zero(ranked[i]) by {
            assert(rank_le()(ranked[i], ranked[j]));
            assert(number(ranked[i]));
        }
    }
}

/// The order of the numbers as `<` compares them is a total preorder, and
/// `compare_numbers` answers by it.
pub proof fn lemma_compare_numbers(s: Seq<u64>)
    ensures
        respects(&compare_numbers, rank_le(), s),
{
    let le = rank_le();
    assert forall|a: u64, b: u64| #[trigger] le(a, b) || #[trigger] le(b, a) by {}
    assert forall|a: u64, b: u64, c: u64| #[trigger] le(a, b) && #[trigger] le(b, c) implies le(
        a,
        c,
    ) by {}
}

/// Sorts numbers, held as their bits, in the total order: negative numbers
/// from negative infinity up, negative zero, positive zero, positive
/// numbers up to infinity, and the NaNs last.
///
/// The NaNs are first moved to the end; the numbers before them are sorted
/// as `<` compares them, which takes the two zeros for equal; then the
/// zeros are put in order.
///
/// The result is a permutation of the input, bit for bit, and it stands in
/// the total order.
#[verifier::rlimit(40)]
pub fn sort_floats(v: &mut [u64])
    ensures
        permutes(old(v)@, final(v)@),
        final(v)@.len() == old(v)@.len(),
        sorted_by(final(v)@, total_le()),
        old(v)@.len() <= 1 ==> final(v)@ == old(v)@,
{
    if v.len() <= 1 {
        return ;
    }
    let n = v.len();
    let rnan = nans_last(v);
    let m = rnan + 1;
    let ghost parted = v@;
    let (numbers, _) = v.split_at_mut(m);
    let ghost mixed = numbers@;
    proof {
        lemma_compare_numbers(mixed);
        lemma_orders(&compare_numbers, rank_le(), mixed);
    }
    sort_by(numbers, &compare_numbers);
    let ghost ranked = numbers@;
    let ghost sorted = v@;
    proof {
        assert(mixed =~= stretch(parted, 0, m));
        assert(ranked =~= stretch(sorted, 0, m));
        assert(sorted =~= ranked + stretch(parted, m, n));
        assert(parted =~= mixed + stretch(parted, m, n));
        lemma_permutes_concat(mixed, stretch(parted, m, n), ranked, stretch(parted, m, n));
        lemma_numbers_stay(mixed, ranked);
    }
    let left = find_first_zero(&v[0..m]);
    order_zeros(v, left);
    proof {
        lemma_total_order(sorted, v@, m, left);
    }
}

} // verus!
