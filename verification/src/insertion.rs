//! Insertion sort, and the rule that picks it for short slices.

use vstd::prelude::*;
use vstd::relations::*;
use std::cmp::Ordering;
use crate::order::{
    respects, orders, within, agree_on, three_way, in_order, callable_on, compare_idxs,
    lemma_in_order, lemma_orders, lemma_sorted_by_orders, lemma_within_agrees,
};
use crate::seqs::{at, permutes, is_total_preorder, lemma_swap_permutes, lemma_permutes_short};

verus! {

/// The smallest number of elements that may be quicksorted.
pub const MIN_QUICKSORT_ELEMS: usize = 10;

/// The largest number of elements that are insertion sorted.
pub const MAX_INSERTION_SORT_ELEMS: usize = 42;

/// Divided by the size of an element, the number of elements up to which
/// insertion sort is used, within the two bounds above.
pub const INSERTION_SORT_FACTOR: usize = 450;

/// The number of moves after which the capped insertion sort gives up.
pub const INSERTION_SORTED_CAP: usize = 8;

/// The first `i` elements of `s` are sorted, but for the element at `j`,
/// of which nothing is said about the elements before it.
pub open spec fn sorted_but<T>(s: Seq<T>, i: usize, j: usize, le: spec_fn(T, T) -> bool) -> bool {
    forall|p: int, q: int| 0 <= p < q < i && q < s.len() && q != j ==> #[trigger] le(s[p], s[q])
}

/// Moving the element at `j` in front of a greater neighbour leaves the
/// first `i` elements sorted but for that element, one place further
/// left.
pub proof fn lemma_insert_step<T>(s: Seq<T>, i: usize, j: usize, le: spec_fn(T, T) -> bool)
    requires
        0 < j < i <= s.len(),
        sorted_but(s, i, j, le),
        le(s[j as int], s[j - 1]),
    ensures
        sorted_but(crate::seqs::swapped(s, j as int, j - 1), i, (j - 1) as usize, le),
{
    let t = crate::seqs::swapped(s, j as int, j - 1);
    assert forall|p: int, q: int| 0 <= p < q < i && q != j - 1 implies #[trigger] le(t[p], t[q]) by {
        if q == j {
            if p < j - 1 {
                assert(le(s[p], s[j - 1]));
            }
        } else if p == j {
            assert(le(s[j - 1], s[q]));
        } else if p == j - 1 {
            assert(le(s[j as int], s[q]));
        } else {
            assert(le(s[p], s[q]));
        }
    }
}

/// Once the element at `j` is not less than its left neighbour, the first
/// `i` elements are sorted.
pub proof fn lemma_insert_done<T>(s: Seq<T>, i: usize, j: usize, le: spec_fn(T, T) -> bool)
    requires
        is_total_preorder(le),
        j < i <= s.len(),
        sorted_but(s, i, j, le),
        j > 0 ==> le(s[j - 1], s[j as int]),
    ensures
        sorted_but(s, i, i, le),
{
    assert forall|p: int, q: int| 0 <= p < q < i implies #[trigger] le(s[p], s[q]) by {
        if q == j && p < j - 1 {
            assert(le(s[p], s[j - 1]));
        }
    }
}

/// Sorts `v` by moving each element left past every greater neighbour.
///
/// The result is a permutation of the input whatever `compare` answers. It
/// is sorted by every order by which `compare` orders the elements of the
/// slice, and if the input already stands in such an order, nothing is
/// changed.
#[verifier::rlimit(40)]
pub fn insertion_sort<T, C: Fn(&T, &T) -> Ordering>(v: &mut [T], compare: &C)
    requires
        old(v)@.len() > 1 ==> callable_on(compare, old(v)@),
    ensures
        permutes(old(v)@, final(v)@),
        final(v)@.len() == old(v)@.len(),
        forall|le: spec_fn(T, T) -> bool| #[trigger] orders(compare, le, old(v)@) ==> sorted_by(final(v)@, le),
        in_order(compare, old(v)@) ==> final(v)@ == old(v)@,
        old(v)@.len() <= 1 ==> final(v)@ == old(v)@,
{
    let n = v.len();
    let mut i: usize = 1;
    while i < n
        invariant
            n == v@.len(),
            1 <= i,
            permutes(old(v)@, v@),
            n > 1 ==> callable_on(compare, v@),
            forall|le: spec_fn(T, T) -> bool| #[trigger]
                respects(compare, le, old(v)@) ==> respects(compare, le, v@) && sorted_but(v@, i, i, le),
            in_order(compare, old(v)@) ==> v@ == old(v)@,
        decreases n - i,
    {
        let mut j: usize = i;
        let next = i + 1;
        while j > 0 && matches!(compare_idxs(v, j - 1, j, compare), Ordering::Greater)
            invariant
                n == v@.len(),
                j <= i < n,
                next == i + 1,
                permutes(old(v)@, v@),
                callable_on(compare, v@),
                forall|le: spec_fn(T, T) -> bool| #[trigger]
                    respects(compare, le, old(v)@) ==> respects(compare, le, v@) && sorted_but(v@, next, j, le),
                in_order(compare, old(v)@) ==> v@ == old(v)@,
            decreases j,
        {
            let k = j - 1;
            let ghost before = v@;
            proof {
                lemma_swap_permutes(v@, j, k);
                assert(compare.ensures((&at(v@, k), &at(v@, j)), Ordering::Greater));
                if in_order(compare, old(v)@) {
                    lemma_in_order(compare, old(v)@, k, j);
                }
            }
            v.swap(j, k);
            proof {
                assert forall|le: spec_fn(T, T) -> bool| #[trigger]
                    respects(compare, le, old(v)@) implies sorted_but(v@, next, k, le) by {
                    assert(three_way(le, at(before, k), at(before, j)) == Ordering::Greater);
                    lemma_insert_step(before, next, j, le);
                }
            }
            j = k;
        }
        proof {
            assert forall|le: spec_fn(T, T) -> bool| #[trigger]
                respects(compare, le, old(v)@) implies sorted_but(v@, next, next, le) by {
                if j > 0 {
                    assert(three_way(le, v@[j - 1], at(v@, j)) != Ordering::Greater);
                }
                lemma_insert_done(v@, next, j, le);
            }
        }
        i = next;
    }
    proof {
        assert(forall|le: spec_fn(T, T) -> bool| #[trigger]
            respects(compare, le, old(v)@) ==> sorted_by(v@, le));
        lemma_sorted_by_orders(compare, old(v)@, v@);
        if n <= 1 {
            lemma_permutes_short(old(v)@, v@);
        }
    }
}

/// How many of the first `k` elements of `s` are greater than the element
/// at `j`, that is, not at most it.
pub open spec fn greater_before<T>(s: Seq<T>, j: int, k: int, le: spec_fn(T, T) -> bool) -> nat
    decreases k,
{
    if k <= 0 {
        0
    } else {
        greater_before(s, j, k - 1, le) + if le(s[k - 1], s[j]) {
            0nat
        } else {
            1nat
        }
    }
}

/// How many pairs of elements stand out of order, the later one among the
/// first `m` elements: the number of moves that insertion sort needs for
/// them.
pub open spec fn inversions_up_to<T>(s: Seq<T>, m: int, le: spec_fn(T, T) -> bool) -> nat
    decreases m,
{
    if m <= 0 {
        0
    } else {
        inversions_up_to(s, m - 1, le) + greater_before(s, m - 1, m - 1, le)
    }
}

/// How many pairs of elements of `s` stand out of order.
pub open spec fn inversions<T>(s: Seq<T>, le: spec_fn(T, T) -> bool) -> nat {
    inversions_up_to(s, s.len() as int, le)
}

/// The count for the element at `j` looks only at the elements counted and
/// at the element itself.
proof fn lemma_greater_before_same<T>(s: Seq<T>, t: Seq<T>, j: int, k: int, le: spec_fn(T, T) -> bool)
    requires
        0 <= k <= j < s.len() == t.len(),
        s[j] == t[j],
        forall|i: int| 0 <= i < k ==> s[i] == t[i],
    ensures
        greater_before(s, j, k, le) == greater_before(t, j, k, le),
    decreases k,
{
    if k > 0 {
        lemma_greater_before_same(s, t, j, k - 1, le);
    }
}

/// Exchanging two neighbours among the elements counted leaves the count
/// for a later element as it was.
proof fn lemma_greater_before_swapped<T>(s: Seq<T>, p: int, j: int, k: int, le: spec_fn(T, T) -> bool)
    requires
        0 <= p,
        p + 1 < k <= j < s.len(),
    ensures
        greater_before(crate::seqs::swapped(s, p, p + 1), j, k, le) == greater_before(s, j, k, le),
    decreases k,
{
    let t = crate::seqs::swapped(s, p, p + 1);
    if k == p + 2 {
        lemma_greater_before_same(s, t, j, p, le);
        reveal_with_fuel(greater_before, 3);
    } else {
        lemma_greater_before_swapped(s, p, j, k - 1, le);
    }
}

/// Exchanging two neighbours leaves the pairs before them as they were.
proof fn lemma_inversions_before<T>(s: Seq<T>, p: int, m: int, le: spec_fn(T, T) -> bool)
    requires
        0 <= m <= p,
        p + 1 < s.len(),
    ensures
        inversions_up_to(crate::seqs::swapped(s, p, p + 1), m, le) == inversions_up_to(s, m, le),
    decreases m,
{
    if m > 0 {
        lemma_inversions_before(s, p, m - 1, le);
        lemma_greater_before_same(s, crate::seqs::swapped(s, p, p + 1), m - 1, m - 1, le);
    }
}

/// Exchanging two neighbours of which the first is greater leaves one pair
/// less out of order.
pub proof fn lemma_move_counts<T>(s: Seq<T>, p: int, m: int, le: spec_fn(T, T) -> bool)
    requires
        0 <= p,
        p + 2 <= m <= s.len(),
        !le(s[p], s[p + 1]),
        le(s[p + 1], s[p]),
    ensures
        inversions_up_to(crate::seqs::swapped(s, p, p + 1), m, le) + 1 == inversions_up_to(s, m, le),
    decreases m,
{
    let t = crate::seqs::swapped(s, p, p + 1);
    if m == p + 2 {
        lemma_inversions_before(s, p, p, le);
        lemma_row_pair(s, p, le);
        reveal_with_fuel(inversions_up_to, 3);
    } else {
        lemma_move_counts(s, p, m - 1, le);
        lemma_greater_before_swapped(s, p, m - 1, m - 1, le);
    }
}

/// The count for an element does not depend on where it stands.
proof fn lemma_greater_before_pick<T>(
    s: Seq<T>,
    t: Seq<T>,
    a: int,
    b: int,
    k: int,
    le: spec_fn(T, T) -> bool,
)
    requires
        0 <= k <= s.len() == t.len(),
        0 <= a < s.len(),
        0 <= b < s.len(),
        s[a] == t[b],
        forall|i: int| 0 <= i < k ==> s[i] == t[i],
    ensures
        greater_before(s, a, k, le) == greater_before(t, b, k, le),
    decreases k,
{
    if k > 0 {
        lemma_greater_before_pick(s, t, a, b, k - 1, le);
    }
}

/// The two rows that an exchange of neighbours touches, taken together,
/// count one pair less after it.
proof fn lemma_row_pair<T>(s: Seq<T>, p: int, le: spec_fn(T, T) -> bool)
    requires
        0 <= p,
        p + 1 < s.len(),
        !le(s[p], s[p + 1]),
        le(s[p + 1], s[p]),
    ensures
        greater_before(crate::seqs::swapped(s, p, p + 1), p, p, le) + greater_before(
            crate::seqs::swapped(s, p, p + 1),
            p + 1,
            p + 1,
            le,
        ) + 1 == greater_before(s, p, p, le) + greater_before(s, p + 1, p + 1, le),
{
    let t = crate::seqs::swapped(s, p, p + 1);
    lemma_greater_before_pick(s, t, p + 1, p, p, le);
    lemma_greater_before_pick(s, t, p, p + 1, p, le);
    assert(greater_before(t, p + 1, p + 1, le) == greater_before(t, p + 1, p, le));
    assert(greater_before(s, p + 1, p + 1, le) == greater_before(s, p + 1, p, le) + 1);
}

/// In a sorted sequence no pair stands out of order.
pub proof fn lemma_sorted_inversions<T>(s: Seq<T>, le: spec_fn(T, T) -> bool)
    requires
        sorted_by(s, le),
    ensures
        inversions(s, le) == 0,
{
    lemma_sorted_no_inversions(s, s.len() as int, le);
}

proof fn lemma_sorted_no_inversions<T>(s: Seq<T>, m: int, le: spec_fn(T, T) -> bool)
    requires
        sorted_by(s, le),
        0 <= m <= s.len(),
    ensures
        inversions_up_to(s, m, le) == 0,
    decreases m,
{
    if m > 0 {
        lemma_sorted_no_inversions(s, m - 1, le);
        lemma_sorted_row(s, m - 1, m - 1, le);
    }
}

proof fn lemma_sorted_row<T>(s: Seq<T>, j: int, k: int, le: spec_fn(T, T) -> bool)
    requires
        sorted_by(s, le),
        0 <= k <= j < s.len(),
    ensures
        greater_before(s, j, k, le) == 0,
    decreases k,
{
    if k > 0 {
        lemma_sorted_row(s, j, k - 1, le);
        assert(le(s[k - 1], s[j]));
    }
}

proof fn lemma_greater_before_agree<T>(
    s: Seq<T>,
    j: int,
    k: int,
    g: spec_fn(T, T) -> bool,
    le: spec_fn(T, T) -> bool,
)
    requires
        agree_on(g, le, s),
        0 <= k <= j < s.len(),
    ensures
        greater_before(s, j, k, g) == greater_before(s, j, k, le),
    decreases k,
{
    if k > 0 {
        lemma_greater_before_agree(s, j, k - 1, g, le);
        assert(g(s[k - 1], s[j]) == le(s[k - 1], s[j]));
    }
}

proof fn lemma_inversions_up_to_agree<T>(
    s: Seq<T>,
    m: int,
    g: spec_fn(T, T) -> bool,
    le: spec_fn(T, T) -> bool,
)
    requires
        agree_on(g, le, s),
        0 <= m <= s.len(),
    ensures
        inversions_up_to(s, m, g) == inversions_up_to(s, m, le),
    decreases m,
{
    if m > 0 {
        lemma_inversions_up_to_agree(s, m - 1, g, le);
        lemma_greater_before_agree(s, m - 1, m - 1, g, le);
    }
}

/// Two relations that say the same of the elements of `s` count the same
/// pairs out of order.
pub proof fn lemma_inversions_agree<T>(s: Seq<T>, g: spec_fn(T, T) -> bool, le: spec_fn(T, T) -> bool)
    requires
        agree_on(g, le, s),
    ensures
        inversions(s, g) == inversions(s, le),
{
    lemma_inversions_up_to_agree(s, s.len() as int, g, le);
}

/// What the capped sort promises for every total preorder by which the
/// comparator answers on the elements, it promises for every order of the
/// elements alone.
pub proof fn lemma_capped_orders<T, C: Fn(&T, &T) -> Ordering>(
    c: &C,
    s: Seq<T>,
    t: Seq<T>,
    done: bool,
)
    requires
        permutes(s, t),
        forall|g: spec_fn(T, T) -> bool| #[trigger]
            respects(c, g, s) ==> (done <==> inversions(s, g) <= INSERTION_SORTED_CAP),
        done ==> forall|g: spec_fn(T, T) -> bool| #[trigger] respects(c, g, s) ==> sorted_by(t, g),
    ensures
        forall|le: spec_fn(T, T) -> bool| #[trigger]
            orders(c, le, s) ==> (done <==> inversions(s, le) <= INSERTION_SORTED_CAP),
        done ==> forall|le: spec_fn(T, T) -> bool| #[trigger] orders(c, le, s) ==> sorted_by(t, le),
{
    assert forall|le: spec_fn(T, T) -> bool| #[trigger] orders(c, le, s) implies (done <==> inversions(
        s,
        le,
    ) <= INSERTION_SORTED_CAP) by {
        lemma_orders(c, le, s);
        lemma_within_agrees(le, s, s);
        lemma_inversions_agree(s, within(le, s), le);
    }
    if done {
        lemma_sorted_by_orders(c, s, t);
    }
}

/// Moving an element one place to the left, past a greater neighbour,
/// leaves one pair less out of order.
pub proof fn lemma_move<T>(s: Seq<T>, j: usize, le: spec_fn(T, T) -> bool)
    requires
        0 < j < s.len(),
        !le(s[j - 1], s[j as int]),
        le(s[j as int], s[j - 1]),
    ensures
        inversions(crate::seqs::swapped(s, j as int, j - 1), le) + 1 == inversions(s, le),
{
    assert(crate::seqs::swapped(s, j as int, j - 1) =~= crate::seqs::swapped(s, j - 1, j as int));
    lemma_move_counts(s, j - 1, s.len() as int, le);
}

/// Insertion sort that makes at most `INSERTION_SORTED_CAP` moves: it gives
/// up, and returns `false`, when it would need one more.
///
/// The result is a permutation of the input whatever `compare` answers.
/// In every order by which `compare` orders the elements of the slice, the
/// sort runs to the end exactly if no more than `INSERTION_SORTED_CAP`
/// pairs of elements stand out of order, and the result is then sorted. On
/// a slice whose elements already stand in order it returns `true` and
/// changes nothing.
#[verifier::rlimit(40)]
pub fn capped_insertion_sort<T, C: Fn(&T, &T) -> Ordering>(v: &mut [T], compare: &C) -> (done: bool)
    requires
        callable_on(compare, old(v)@),
    ensures
        permutes(old(v)@, final(v)@),
        final(v)@.len() == old(v)@.len(),
        forall|le: spec_fn(T, T) -> bool| #[trigger]
            orders(compare, le, old(v)@) ==> (done <==> inversions(old(v)@, le) <= INSERTION_SORTED_CAP),
        done ==> forall|le: spec_fn(T, T) -> bool| #[trigger]
            orders(compare, le, old(v)@) ==> sorted_by(final(v)@, le),
        in_order(compare, old(v)@) ==> done && final(v)@ == old(v)@,
{
    let n = v.len();
    let mut cap: usize = INSERTION_SORTED_CAP;
    let mut i: usize = 1;
    while i < n
        invariant
            n == v@.len() == old(v)@.len(),
            1 <= i,
            cap <= INSERTION_SORTED_CAP,
            permutes(old(v)@, v@),
            callable_on(compare, v@),
            forall|le: spec_fn(T, T) -> bool| #[trigger]
                respects(compare, le, old(v)@) ==> respects(compare, le, v@) && sorted_but(v@, i, i, le) && inversions(v@, le) + (
                INSERTION_SORTED_CAP - cap) == inversions(old(v)@, le),
            in_order(compare, old(v)@) ==> v@ == old(v)@,
        decreases n - i,
    {
        let mut j: usize = i;
        let next = i + 1;
        while j > 0 && matches!(compare_idxs(v, j - 1, j, compare), Ordering::Greater)
            invariant
                n == v@.len() == old(v)@.len(),
                j <= i < n,
                next == i + 1,
                cap <= INSERTION_SORTED_CAP,
                permutes(old(v)@, v@),
                callable_on(compare, v@),
                forall|le: spec_fn(T, T) -> bool| #[trigger]
                    respects(compare, le, old(v)@) ==> respects(compare, le, v@) && sorted_but(v@, next, j, le) && inversions(v@, le) + (
                    INSERTION_SORTED_CAP - cap) == inversions(old(v)@, le),
                in_order(compare, old(v)@) ==> v@ == old(v)@,
            decreases j,
        {
            let k = j - 1;
            let ghost before = v@;
            proof {
                lemma_swap_permutes(v@, j, k);
                assert(compare.ensures((&at(v@, k), &at(v@, j)), Ordering::Greater));
                if in_order(compare, old(v)@) {
                    lemma_in_order(compare, old(v)@, k, j);
                }
                assert forall|le: spec_fn(T, T) -> bool| #[trigger]
                    respects(compare, le, old(v)@) implies inversions(before, le) >= 1 by {
                    assert(three_way(le, at(before, k), at(before, j)) == Ordering::Greater);
                    lemma_move(before, j, le);
                }
            }
            if cap == 0 {
                proof {
                    assert(forall|g: spec_fn(T, T) -> bool| #[trigger]
                        respects(compare, g, old(v)@) ==> inversions(old(v)@, g)
                            > INSERTION_SORTED_CAP);
                    lemma_capped_orders(compare, old(v)@, v@, false);
                }
                return false;
            }
            v.swap(j, k);
            proof {
                assert forall|le: spec_fn(T, T) -> bool| #[trigger]
                    respects(compare, le, old(v)@) implies sorted_but(v@, next, k, le) && inversions(v@, le)
                    + 1 == inversions(before, le) by {
                    assert(three_way(le, at(before, k), at(before, j)) == Ordering::Greater);
                    lemma_insert_step(before, next, j, le);
                    lemma_move(before, j, le);
                }
            }
            cap -= 1;
            j = k;
        }
        proof {
            assert forall|le: spec_fn(T, T) -> bool| #[trigger]
                respects(compare, le, old(v)@) implies sorted_but(v@, next, next, le) by {
                if j > 0 {
                    assert(three_way(le, v@[j - 1], at(v@, j)) != Ordering::Greater);
                }
                lemma_insert_done(v@, next, j, le);
            }
        }
        i = next;
    }
    proof {
        assert forall|le: spec_fn(T, T) -> bool| #[trigger] respects(compare, le, old(v)@) implies inversions(
            v@,
            le,
        ) == 0 by {
            lemma_sorted_inversions(v@, le);
        }
        assert(forall|g: spec_fn(T, T) -> bool| #[trigger]
            respects(compare, g, old(v)@) ==> inversions(old(v)@, g) <= INSERTION_SORTED_CAP
                && sorted_by(v@, g));
        lemma_capped_orders(compare, old(v)@, v@, true);
    }
    true
}

/// The number of elements up to which a slice of elements of `size` bytes
/// is insertion sorted: `INSERTION_SORT_FACTOR / size`, but at least
/// `MIN_QUICKSORT_ELEMS` and at most `MAX_INSERTION_SORT_ELEMS`.
pub open spec fn insertion_threshold(size: nat) -> nat {
    let scaled = INSERTION_SORT_FACTOR as nat / size;
    if size == 0 || scaled >= MAX_INSERTION_SORT_ELEMS {
        MAX_INSERTION_SORT_ELEMS as nat
    } else if scaled <= MIN_QUICKSORT_ELEMS {
        MIN_QUICKSORT_ELEMS as nat
    } else {
        scaled
    }
}

/// The threshold for elements of type `T`.
pub fn threshold<T>() -> (t: usize)
    ensures
        t == insertion_threshold(vstd::layout::size_of::<T>()),
        MIN_QUICKSORT_ELEMS <= t <= MAX_INSERTION_SORT_ELEMS,
{
    let size = core::mem::size_of::<T>();
    if size == 0 {
        return MAX_INSERTION_SORT_ELEMS;
    }
    let scaled = INSERTION_SORT_FACTOR / size;
    if scaled >= MAX_INSERTION_SORT_ELEMS {
        MAX_INSERTION_SORT_ELEMS
    } else if scaled <= MIN_QUICKSORT_ELEMS {
        MIN_QUICKSORT_ELEMS
    } else {
        scaled
    }
}

/// Insertion sorts `v` if it is short, and returns whether it did: slices
/// of at most one element, and slices up to the threshold for their
/// element type.
pub fn maybe_insertion_sort<T, C: Fn(&T, &T) -> Ordering>(v: &mut [T], compare: &C) -> (done: bool)
    requires
        old(v)@.len() > 1 ==> callable_on(compare, old(v)@),
    ensures
        done <==> old(v)@.len() <= insertion_threshold(vstd::layout::size_of::<T>()),
        permutes(old(v)@, final(v)@),
        final(v)@.len() == old(v)@.len(),
        !done ==> final(v)@ == old(v)@,
        done ==> forall|le: spec_fn(T, T) -> bool| #[trigger]
            orders(compare, le, old(v)@) ==> sorted_by(final(v)@, le),
        in_order(compare, old(v)@) ==> final(v)@ == old(v)@,
{
    let n = v.len();
    if n <= 1 {
        proof {
            lemma_permutes_short(old(v)@, v@);
        }
        return true;
    }
    if n <= threshold::<T>() {
        insertion_sort(v, compare);
        return true;
    }
    false
}

} // verus!
