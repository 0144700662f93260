//! The choice of pivots: five candidates, spread over the slice, whose
//! positions a network of nine comparisons puts in the order of their
//! elements.

use vstd::prelude::*;
use vstd::relations::*;
use std::cmp::Ordering;
use crate::order::{
    orders, in_order, callable_on, compare_idxs,
};
use crate::seqs::at;
use crate::insertion::MIN_QUICKSORT_ELEMS;

verus! {

/// The position of the `k`-th of the five pivot candidates of a slice of
/// `n` elements, counted from 0: they stand a seventh of the length apart,
/// the third in the middle.
pub open spec fn candidate(n: nat, k: int) -> int {
    n / 2 + (k - 2) * (n / 7)
}

/// `e` is the position of one of the five candidates.
pub open spec fn is_candidate(n: nat, e: usize) -> bool {
    e == candidate(n, 0) || e == candidate(n, 1) || e == candidate(n, 2) || e == candidate(n, 3)
        || e == candidate(n, 4)
}

/// The five positions are the five candidate positions, in some order.
pub open spec fn arranged(n: nat, e: (usize, usize, usize, usize, usize)) -> bool {
    &&& is_candidate(n, e.0) && is_candidate(n, e.1) && is_candidate(n, e.2) && is_candidate(n, e.3)
        && is_candidate(n, e.4)
    &&& e.0 != e.1 && e.0 != e.2 && e.0 != e.3 && e.0 != e.4
    &&& e.1 != e.2 && e.1 != e.3 && e.1 != e.4
    &&& e.2 != e.3 && e.2 != e.4
    &&& e.3 != e.4
}

/// The candidates of a slice that is long enough to be quicksorted are
/// five positions, none of them the first or the last.
pub proof fn lemma_candidates(n: nat)
    requires
        n >= MIN_QUICKSORT_ELEMS,
    ensures
        0 < candidate(n, 0) < candidate(n, 1) < candidate(n, 2) < candidate(n, 3) < candidate(n, 4)
            < n - 1,
{
}

/// What `maybe_swap` does to two positions and to the mark `swapped`: it
/// leaves them, or it exchanges the positions and sets the mark, the
/// comparator having answered that the element at the first is greater.
/// In every order by which the comparator orders the elements, the elements at
/// the two positions stand in order afterwards.
#[verifier::opaque]
pub open spec fn exchanged<T, C: Fn(&T, &T) -> Ordering>(
    c: &C,
    s: Seq<T>,
    before: (usize, usize, bool),
    after: (usize, usize, bool),
) -> bool {
    &&& after == before || (after.0 == before.1 && after.1 == before.0 && after.2 && c.ensures(
        (&at(s, before.0), &at(s, before.1)),
        Ordering::Greater,
    ))
    &&& forall|le: spec_fn(T, T) -> bool| #[trigger]
        orders(c, le, s) ==> le(at(s, after.0), at(s, after.1))
}

/// Puts the positions `a` and `b` in the order of their elements: they are
/// exchanged, and `swapped` is set, if the element at `a` is greater than
/// the element at `b`.
pub fn maybe_swap<T, C: Fn(&T, &T) -> Ordering>(
    v: &[T],
    a: &mut usize,
    b: &mut usize,
    compare: &C,
    swapped: &mut bool,
)
    requires
        *old(a) < v@.len(),
        *old(b) < v@.len(),
        callable_on(compare, v@),
    ensures
        exchanged(
            compare,
            v@,
            (*old(a), *old(b), *old(swapped)),
            (*final(a), *final(b), *final(swapped)),
        ),
{
    proof {
        reveal(exchanged);
    }
    let ghost (x, y) = (*a, *b);
    let o = compare_idxs(v, *a, *b, compare);
    proof {
        assert forall|le: spec_fn(T, T) -> bool| #[trigger] orders(compare, le, v@) implies (if o
            == Ordering::Greater {
            le(at(v@, y), at(v@, x))
        } else {
            le(at(v@, x), at(v@, y))
        }) by {
            assert(o == crate::order::three_way(le, at(v@, x), at(v@, y)));
            assert(le(at(v@, x), at(v@, y)) || le(at(v@, y), at(v@, x)));
        }
    }
    if matches!(o, Ordering::Greater) {
        core::mem::swap(a, b);
        *swapped = true;
    }
}

/// The five candidates of `s` stand in the order `le`, each at most the
/// next.
pub open spec fn candidates_ascend<T>(s: Seq<T>, le: spec_fn(T, T) -> bool) -> bool {
    let n = s.len();
    &&& le(s[candidate(n, 0)], s[candidate(n, 1)])
    &&& le(s[candidate(n, 1)], s[candidate(n, 2)])
    &&& le(s[candidate(n, 2)], s[candidate(n, 3)])
    &&& le(s[candidate(n, 3)], s[candidate(n, 4)])
}

/// The five candidates of `s` stand in an order that the comparator answers
/// by.
pub open spec fn candidates_in_order<T, C: Fn(&T, &T) -> Ordering>(c: &C, s: Seq<T>) -> bool {
    exists|le: spec_fn(T, T) -> bool| #[trigger] orders(c, le, s) && candidates_ascend(s, le)
}

/// Of two candidates that stand in order, the comparator never says that
/// the one before is greater.
pub proof fn lemma_candidates_in_order<T, C: Fn(&T, &T) -> Ordering>(
    c: &C,
    s: Seq<T>,
    a: usize,
    b: usize,
)
    requires
        MIN_QUICKSORT_ELEMS <= s.len(),
        candidates_in_order(c, s),
        is_candidate(s.len(), a),
        is_candidate(s.len(), b),
        a < b,
    ensures
        !c.ensures((&at(s, a), &at(s, b)), Ordering::Greater),
{
    let le = choose|le: spec_fn(T, T) -> bool| #[trigger] orders(c, le, s) && candidates_ascend(s, le);
    let n = s.len();
    lemma_candidates(n);
    assert(le(s[candidate(n, 0)], s[candidate(n, 2)]));
    assert(le(s[candidate(n, 0)], s[candidate(n, 3)]));
    assert(le(s[candidate(n, 0)], s[candidate(n, 4)]));
    assert(le(s[candidate(n, 1)], s[candidate(n, 3)]));
    assert(le(s[candidate(n, 1)], s[candidate(n, 4)]));
    assert(le(s[candidate(n, 2)], s[candidate(n, 4)]));
    assert(le(at(s, a), at(s, b)));
}

/// Where the whole of `s` stands in order, its candidates do.
pub proof fn lemma_in_order_candidates<T, C: Fn(&T, &T) -> Ordering>(c: &C, s: Seq<T>)
    requires
        MIN_QUICKSORT_ELEMS <= s.len(),
        in_order(c, s),
    ensures
        candidates_in_order(c, s),
{
    let le = choose|le: spec_fn(T, T) -> bool| #[trigger] orders(c, le, s) && sorted_by(s, le);
    lemma_candidates(s.len());
    assert(candidates_ascend(s, le));
}

/// The elements of `s` at the five positions `e` stand in the order `le`,
/// each at most the next.
pub open spec fn ascend_at<T>(
    s: Seq<T>,
    e: (usize, usize, usize, usize, usize),
    le: spec_fn(T, T) -> bool,
) -> bool {
    &&& le(at(s, e.0), at(s, e.1))
    &&& le(at(s, e.1), at(s, e.2))
    &&& le(at(s, e.2), at(s, e.3))
    &&& le(at(s, e.3), at(s, e.4))
}

/// What is known of the order of the elements at the five positions `e`
/// after `k` steps of the network: after the ninth, that they stand in
/// order.
pub open spec fn network_known<T>(
    k: int,
    s: Seq<T>,
    e: (usize, usize, usize, usize, usize),
    le: spec_fn(T, T) -> bool,
) -> bool {
    let up = |a: usize, b: usize| le(at(s, a), at(s, b));
    if k == 1 {
        up(e.0, e.1)
    } else if k == 2 {
        up(e.0, e.1) && up(e.3, e.4)
    } else if k == 3 {
        up(e.0, e.1) && up(e.3, e.4) && up(e.2, e.4)
    } else if k == 4 {
        up(e.0, e.1) && up(e.2, e.3) && up(e.3, e.4)
    } else if k == 5 {
        up(e.2, e.3) && up(e.3, e.4) && up(e.1, e.4) && up(e.0, e.4) && (up(e.0, e.1) || up(e.3, e.1))
    } else if k == 6 {
        up(e.0, e.1) && up(e.0, e.3) && up(e.2, e.3) && up(e.3, e.4) && up(e.1, e.4)
    } else if k == 7 {
        up(e.0, e.1) && up(e.0, e.2) && up(e.2, e.3) && up(e.3, e.4) && up(e.1, e.4)
    } else if k == 8 {
        up(e.0, e.1) && up(e.0, e.2) && up(e.1, e.3) && up(e.2, e.3) && up(e.3, e.4)
    } else if k == 9 {
        ascend_at(s, e, le)
    } else {
        true
    }
}

/// The state of the network after `k` steps: the positions are the five
/// candidates in some order, in their first order as long as nothing was
/// exchanged; nothing is exchanged where the candidates stand in order;
/// and in every order by which the comparator orders the elements, the
/// elements stand as `network_known` says.
#[verifier::opaque]
pub open spec fn network_state<T, C: Fn(&T, &T) -> Ordering>(
    k: int,
    c: &C,
    s: Seq<T>,
    e: (usize, usize, usize, usize, usize),
    swapped: bool,
) -> bool {
    &&& arranged(s.len(), e)
    &&& !swapped ==> e.0 < e.1 < e.2 < e.3 < e.4
    &&& candidates_in_order(c, s) ==> !swapped
    &&& forall|le: spec_fn(T, T) -> bool| #[trigger]
        orders(c, le, s) ==> network_known(k, s, e, le)
}

/// The step of the network after `k` steps: which two of the five positions
/// are put in order.
pub open spec fn network_step<T, C: Fn(&T, &T) -> Ordering>(
    k: int,
    c: &C,
    s: Seq<T>,
    e: (usize, usize, usize, usize, usize),
    swapped: bool,
    f: (usize, usize, usize, usize, usize),
    swapped_then: bool,
) -> bool {
    if k == 0 {
        exchanged(c, s, (e.0, e.1, swapped), (f.0, f.1, swapped_then)) && f.2 == e.2 && f.3 == e.3
            && f.4 == e.4
    } else if k == 1 {
        exchanged(c, s, (e.3, e.4, swapped), (f.3, f.4, swapped_then)) && f.0 == e.0 && f.1 == e.1
            && f.2 == e.2
    } else if k == 2 {
        exchanged(c, s, (e.2, e.4, swapped), (f.2, f.4, swapped_then)) && f.0 == e.0 && f.1 == e.1
            && f.3 == e.3
    } else if k == 3 {
        exchanged(c, s, (e.2, e.3, swapped), (f.2, f.3, swapped_then)) && f.0 == e.0 && f.1 == e.1
            && f.4 == e.4
    } else if k == 4 {
        exchanged(c, s, (e.1, e.4, swapped), (f.1, f.4, swapped_then)) && f.0 == e.0 && f.2 == e.2
            && f.3 == e.3
    } else if k == 5 {
        exchanged(c, s, (e.0, e.3, swapped), (f.0, f.3, swapped_then)) && f.1 == e.1 && f.2 == e.2
            && f.4 == e.4
    } else if k == 6 {
        exchanged(c, s, (e.0, e.2, swapped), (f.0, f.2, swapped_then)) && f.1 == e.1 && f.3 == e.3
            && f.4 == e.4
    } else if k == 7 {
        exchanged(c, s, (e.1, e.3, swapped), (f.1, f.3, swapped_then)) && f.0 == e.0 && f.2 == e.2
            && f.4 == e.4
    } else {
        exchanged(c, s, (e.1, e.2, swapped), (f.1, f.2, swapped_then)) && f.0 == e.0 && f.3 == e.3
            && f.4 == e.4
    }
}

/// Each step of the network leads from one state to the next.
#[verifier::rlimit(40)]
pub proof fn lemma_network_step<T, C: Fn(&T, &T) -> Ordering>(
    k: int,
    c: &C,
    s: Seq<T>,
    e: (usize, usize, usize, usize, usize),
    swapped: bool,
    f: (usize, usize, usize, usize, usize),
    swapped_then: bool,
)
    requires
        0 <= k < 9,
        MIN_QUICKSORT_ELEMS <= s.len(),
        network_state(k, c, s, e, swapped),
        network_step(k, c, s, e, swapped, f, swapped_then),
    ensures
        network_state(k + 1, c, s, f, swapped_then),
{
    reveal(network_state);
    reveal(exchanged);
    lemma_candidates(s.len());
    assert forall|le: spec_fn(T, T) -> bool| #[trigger] orders(c, le, s) implies network_known(
        k + 1,
        s,
        f,
        le,
    ) by {
        assert(network_known(k, s, e, le));
    }
    if candidates_in_order(c, s) {
        if k == 0 {
            lemma_candidates_in_order(c, s, e.0, e.1);
        } else if k == 1 {
            lemma_candidates_in_order(c, s, e.3, e.4);
        } else if k == 2 {
            lemma_candidates_in_order(c, s, e.2, e.4);
        } else if k == 3 {
            lemma_candidates_in_order(c, s, e.2, e.3);
        } else if k == 4 {
            lemma_candidates_in_order(c, s, e.1, e.4);
        } else if k == 5 {
            lemma_candidates_in_order(c, s, e.0, e.3);
        } else if k == 6 {
            lemma_candidates_in_order(c, s, e.0, e.2);
        } else if k == 7 {
            lemma_candidates_in_order(c, s, e.1, e.3);
        } else {
            lemma_candidates_in_order(c, s, e.1, e.2);
        }
    }
}

/// Picks the five pivot candidates and orders their positions by their
/// elements with a network of nine comparisons. Returns the positions, and
/// whether any two had to be exchanged.
///
/// The positions returned are the five candidate positions in some order.
/// In every order by which `compare` orders the elements of the slice,
/// their elements stand in order, each at most the next. Nothing is
/// exchanged if the candidates stand in such an order where they are; and
/// if nothing is exchanged, they stand in order in each.
#[verifier::rlimit(40)]
pub fn pivot_candidates<T, C: Fn(&T, &T) -> Ordering>(v: &[T], compare: &C) -> (picked: (
    (usize, usize, usize, usize, usize),
    bool,
))
    requires
        v@.len() >= MIN_QUICKSORT_ELEMS,
        callable_on(compare, v@),
    ensures
        arranged(v@.len(), picked.0),
        !picked.1 ==> picked.0.0 < picked.0.1 < picked.0.2 < picked.0.3 < picked.0.4,
        candidates_in_order(compare, v@) ==> !picked.1,
        !picked.1 ==> forall|le: spec_fn(T, T) -> bool| #[trigger]
            orders(compare, le, v@) ==> candidates_ascend(v@, le),
        forall|le: spec_fn(T, T) -> bool| #[trigger]
            orders(compare, le, v@) ==> ascend_at(v@, picked.0, le),
{
    let n = v.len();
    let seventh = n / 7;
    let mut e3 = n / 2;
    let mut e2 = e3 - seventh;
    let mut e1 = e3 - 2 * seventh;
    let mut e4 = e3 + seventh;
    let mut e5 = e3 + 2 * seventh;
    let mut swapped = false;
    let ghost mut e = (e1, e2, e3, e4, e5);
    let ghost mut mark = swapped;
    proof {
        lemma_candidates(v@.len());
        reveal(network_state);
    }
    assert(network_state(0, compare, v@, e, mark));
    maybe_swap(v, &mut e1, &mut e2, compare, &mut swapped);
    proof {
        lemma_network_step(0, compare, v@, e, mark, (e1, e2, e3, e4, e5), swapped);
        e = (e1, e2, e3, e4, e5);
        mark = swapped;
    }
    maybe_swap(v, &mut e4, &mut e5, compare, &mut swapped);
    proof {
        lemma_network_step(1, compare, v@, e, mark, (e1, e2, e3, e4, e5), swapped);
        e = (e1, e2, e3, e4, e5);
        mark = swapped;
    }
    maybe_swap(v, &mut e3, &mut e5, compare, &mut swapped);
    proof {
        lemma_network_step(2, compare, v@, e, mark, (e1, e2, e3, e4, e5), swapped);
        e = (e1, e2, e3, e4, e5);
        mark = swapped;
    }
    maybe_swap(v, &mut e3, &mut e4, compare, &mut swapped);
    proof {
        lemma_network_step(3, compare, v@, e, mark, (e1, e2, e3, e4, e5), swapped);
        e = (e1, e2, e3, e4, e5);
        mark = swapped;
    }
    maybe_swap(v, &mut e2, &mut e5, compare, &mut swapped);
    proof {
        lemma_network_step(4, compare, v@, e, mark, (e1, e2, e3, e4, e5), swapped);
        e = (e1, e2, e3, e4, e5);
        mark = swapped;
    }
    maybe_swap(v, &mut e1, &mut e4, compare, &mut swapped);
    proof {
        lemma_network_step(5, compare, v@, e, mark, (e1, e2, e3, e4, e5), swapped);
        e = (e1, e2, e3, e4, e5);
        mark = swapped;
    }
    maybe_swap(v, &mut e1, &mut e3, compare, &mut swapped);
    proof {
        lemma_network_step(6, compare, v@, e, mark, (e1, e2, e3, e4, e5), swapped);
        e = (e1, e2, e3, e4, e5);
        mark = swapped;
    }
    maybe_swap(v, &mut e2, &mut e4, compare, &mut swapped);
    proof {
        lemma_network_step(7, compare, v@, e, mark, (e1, e2, e3, e4, e5), swapped);
        e = (e1, e2, e3, e4, e5);
        mark = swapped;
    }
    maybe_swap(v, &mut e2, &mut e3, compare, &mut swapped);
    proof {
        lemma_network_step(8, compare, v@, e, mark, (e1, e2, e3, e4, e5), swapped);
        lemma_network_done(compare, v@, (e1, e2, e3, e4, e5), swapped);
    }
    ((e1, e2, e3, e4, e5), swapped)
}

/// What the last state of the network says of the positions.
pub proof fn lemma_network_done<T, C: Fn(&T, &T) -> Ordering>(
    c: &C,
    s: Seq<T>,
    e: (usize, usize, usize, usize, usize),
    swapped: bool,
)
    requires
        MIN_QUICKSORT_ELEMS <= s.len(),
        network_state(9, c, s, e, swapped),
    ensures
        arranged(s.len(), e),
        !swapped ==> e.0 < e.1 < e.2 < e.3 < e.4,
        candidates_in_order(c, s) ==> !swapped,
        !swapped ==> forall|le: spec_fn(T, T) -> bool| #[trigger]
            orders(c, le, s) ==> candidates_ascend(s, le),
        forall|le: spec_fn(T, T) -> bool| #[trigger] orders(c, le, s) ==> ascend_at(s, e, le),
{
    reveal(network_state);
    lemma_candidates(s.len());
    if !swapped {
        assert forall|le: spec_fn(T, T) -> bool| #[trigger] orders(c, le, s) implies candidates_ascend(
            s,
            le,
        ) by {
            assert(network_known(9, s, e, le));
        }
    }
}

} // verus!
