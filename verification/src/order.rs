//! What a comparator says, read as an order on the elements.
//!
//! A comparator is any `Fn(&T, &T) -> Ordering`. Nothing is assumed of it:
//! it may answer differently on the same pair from one call to the next, or
//! answer against every order. The contracts speak of the orders by which
//! it orders the elements of the slice at hand, if there are any: what a
//! sorting function promises of the order of its result, it promises for
//! each of them.
//!
//! `orders` is what the contracts ask: a total preorder on the elements of
//! the slice that the answers on them follow. The proofs work with
//! `respects`, which takes a total preorder on all values; `lemma_orders`
//! leads from the one to the other, by way of `within`.

use vstd::prelude::*;
use vstd::relations::*;
use std::cmp::Ordering;
use crate::seqs::{at, permutes, part_of, is_total_preorder, lemma_permutes_member};

verus! {

/// How `a` stands to `b` in the total preorder `le`.
pub open spec fn three_way<T>(le: spec_fn(T, T) -> bool, a: T, b: T) -> Ordering {
    if !le(b, a) {
        Ordering::Less
    } else if !le(a, b) {
        Ordering::Greater
    } else {
        Ordering::Equal
    }
}

/// In a total preorder two elements stand in exactly one of three ways:
/// the first is less, they are level, or the first is greater.
pub proof fn lemma_three_way<T>(le: spec_fn(T, T) -> bool, a: T, b: T)
    requires
        is_total_preorder(le),
    ensures
        match three_way(le, a, b) {
            Ordering::Less => le(a, b) && !le(b, a),
            Ordering::Equal => le(a, b) && le(b, a),
            Ordering::Greater => le(b, a) && !le(a, b),
        },
{
    assert(le(a, b) || le(b, a));
}

/// Whatever the comparator answers on two elements of `s` is how the two
/// stand in `le`.
pub open spec fn answers_by<T, C: Fn(&T, &T) -> Ordering>(
    c: &C,
    le: spec_fn(T, T) -> bool,
    s: Seq<T>,
) -> bool {
    forall|i: int, j: int, o: Ordering|
        0 <= i < s.len() && 0 <= j < s.len() && #[trigger] c.ensures((&s[i], &s[j]), o) ==> o
            == three_way(le, s[i], s[j])
}

/// The comparator answers by `le` on the elements of `s`: `le` is a total
/// preorder, and whatever the comparator answers on two elements of `s` is
/// how the two stand in `le`. Of other values nothing is asked.
pub open spec fn respects<T, C: Fn(&T, &T) -> Ordering>(
    c: &C,
    le: spec_fn(T, T) -> bool,
    s: Seq<T>,
) -> bool {
    &&& is_total_preorder(le)
    &&& answers_by(c, le, s)
}

/// `le` is a total preorder on the elements of `s`: of any two of them one
/// is at most the other, and among them `le` is transitive.
pub open spec fn total_preorder_on<T>(le: spec_fn(T, T) -> bool, s: Seq<T>) -> bool {
    &&& forall|i: int, j: int|
        0 <= i < s.len() && 0 <= j < s.len() ==> le(#[trigger] s[i], #[trigger] s[j]) || le(s[j], s[i])
    &&& forall|i: int, j: int, k: int|
        0 <= i < s.len() && 0 <= j < s.len() && 0 <= k < s.len() && #[trigger] le(s[i], s[j])
            && #[trigger] le(s[j], s[k]) ==> le(s[i], s[k])
}

/// The comparator orders the elements of `s` by `le`: `le` is a total
/// preorder on them, and whatever the comparator answers on two of them is
/// how the two stand in `le`. Of other values nothing is asked, neither of
/// `le` nor of the comparator.
pub open spec fn orders<T, C: Fn(&T, &T) -> Ordering>(
    c: &C,
    le: spec_fn(T, T) -> bool,
    s: Seq<T>,
) -> bool {
    &&& total_preorder_on(le, s)
    &&& answers_by(c, le, s)
}

/// `le` on the elements of `s`, made a relation on all values: a value that
/// does not occur in `s` is at most every value.
pub open spec fn within<T>(le: spec_fn(T, T) -> bool, s: Seq<T>) -> spec_fn(T, T) -> bool {
    |a: T, b: T| !s.contains(a) || (s.contains(b) && le(a, b))
}

/// A total preorder on the elements of `s` is, within `s`, a total
/// preorder on all values, and the same on the elements of `s`.
pub proof fn lemma_within<T>(le: spec_fn(T, T) -> bool, s: Seq<T>)
    requires
        total_preorder_on(le, s),
    ensures
        is_total_preorder(within(le, s)),
        forall|a: T, b: T| s.contains(a) && s.contains(b) ==> #[trigger] within(le, s)(a, b) == le(a, b),
{
    let g = within(le, s);
    assert forall|a: T, b: T| #[trigger] g(a, b) || #[trigger] g(b, a) by {
        if s.contains(a) && s.contains(b) {
            let i = choose|i: int| 0 <= i < s.len() && s[i] == a;
            let j = choose|j: int| 0 <= j < s.len() && s[j] == b;
            assert(le(s[i], s[j]) || le(s[j], s[i]));
        }
    }
    assert forall|a: T, b: T, x: T| #[trigger] g(a, b) && #[trigger] g(b, x) implies g(a, x) by {
        if s.contains(a) {
            let i = choose|i: int| 0 <= i < s.len() && s[i] == a;
            let j = choose|j: int| 0 <= j < s.len() && s[j] == b;
            let k = choose|k: int| 0 <= k < s.len() && s[k] == x;
            assert(le(s[i], s[j]) && le(s[j], s[k]));
        }
    }
}

/// `g` and `le` say the same of any two elements of `s`.
pub open spec fn agree_on<T>(g: spec_fn(T, T) -> bool, le: spec_fn(T, T) -> bool, s: Seq<T>) -> bool {
    forall|i: int, j: int|
        #![trigger g(s[i], s[j])]
        #![trigger le(s[i], s[j])]
        0 <= i < s.len() && 0 <= j < s.len() ==> g(s[i], s[j]) == le(s[i], s[j])
}

/// `le` within `s` says of the elements of a permutation of `s` what `le`
/// says.
pub proof fn lemma_within_agrees<T>(le: spec_fn(T, T) -> bool, s: Seq<T>, t: Seq<T>)
    requires
        total_preorder_on(le, s),
        permutes(s, t),
    ensures
        is_total_preorder(within(le, s)),
        agree_on(within(le, s), le, t),
{
    lemma_within(le, s);
    let g = within(le, s);
    assert forall|i: int, j: int| 0 <= i < t.len() && 0 <= j < t.len() implies g(t[i], t[j]) == le(
        t[i],
        t[j],
    ) by {
        let p = lemma_permutes_member(s, t, i);
        let q = lemma_permutes_member(s, t, j);
    }
}

/// A comparator that orders the elements of `s` by `le` answers on them by
/// `le` within `s`; and a comparator that answers by a total preorder
/// orders the elements by it.
pub proof fn lemma_orders<T, C: Fn(&T, &T) -> Ordering>(c: &C, le: spec_fn(T, T) -> bool, s: Seq<T>)
    ensures
        orders(c, le, s) ==> respects(c, within(le, s), s),
        respects(c, le, s) ==> orders(c, le, s),
{
    if orders(c, le, s) {
        lemma_within(le, s);
        let g = within(le, s);
        assert forall|i: int, j: int, o: Ordering|
            0 <= i < s.len() && 0 <= j < s.len() && #[trigger] c.ensures(
                (&s[i], &s[j]),
                o,
            ) implies o == three_way(g, s[i], s[j]) by {
            assert(s.contains(s[i]) && s.contains(s[j]));
            assert(g(s[i], s[j]) == le(s[i], s[j]));
            assert(g(s[j], s[i]) == le(s[j], s[i]));
        }
    }
    if respects(c, le, s) {
        assert forall|i: int, j: int|
            0 <= i < s.len() && 0 <= j < s.len() implies le(#[trigger] s[i], #[trigger] s[j]) || le(
            s[j],
            s[i],
        ) by {
            assert(le(s[i], s[j]) || le(s[j], s[i]));
        }
    }
}

/// Every total preorder by which the comparator answers on the elements of
/// `s` is an order by which it orders them.
pub proof fn lemma_respects_orders<T, C: Fn(&T, &T) -> Ordering>(c: &C, s: Seq<T>)
    ensures
        forall|le: spec_fn(T, T) -> bool| #[trigger] respects(c, le, s) ==> orders(c, le, s),
{
    assert forall|le: spec_fn(T, T) -> bool| #[trigger] respects(c, le, s) implies orders(c, le, s) by {
        lemma_orders(c, le, s);
    }
}

/// What is a permutation of `s` and sorted by `le` within `s` is sorted by
/// `le`.
pub proof fn lemma_sorted_within<T>(le: spec_fn(T, T) -> bool, s: Seq<T>, t: Seq<T>)
    requires
        permutes(s, t),
        sorted_by(t, within(le, s)),
    ensures
        sorted_by(t, le),
{
    assert forall|i: int, j: int| 0 <= i < j < t.len() implies #[trigger] le(t[i], t[j]) by {
        let p = lemma_permutes_member(s, t, i);
        let q = lemma_permutes_member(s, t, j);
        assert(within(le, s)(t[i], t[j]));
    }
}

/// What a sort that sorts by every total preorder promises, it promises
/// for every order of the elements alone: a permutation of `s` that is
/// sorted by every total preorder by which the comparator answers on the
/// elements of `s` is sorted by every order by which the comparator orders
/// them.
pub proof fn lemma_sorted_by_orders<T, C: Fn(&T, &T) -> Ordering>(c: &C, s: Seq<T>, t: Seq<T>)
    requires
        permutes(s, t),
        forall|le: spec_fn(T, T) -> bool| #[trigger] respects(c, le, s) ==> sorted_by(t, le),
    ensures
        forall|le: spec_fn(T, T) -> bool| #[trigger] orders(c, le, s) ==> sorted_by(t, le),
{
    assert forall|le: spec_fn(T, T) -> bool| #[trigger] orders(c, le, s) implies sorted_by(t, le) by {
        lemma_orders(c, le, s);
        assert(respects(c, within(le, s), s));
        lemma_sorted_within(le, s, t);
    }
}

/// The comparator is a total preorder on the elements of `s`: there is a
/// total preorder by which it answers on them.
pub open spec fn total_preorder<T, C: Fn(&T, &T) -> Ordering>(c: &C, s: Seq<T>) -> bool {
    exists|le: spec_fn(T, T) -> bool| #[trigger] respects(c, le, s)
}

/// The elements of `s` stand in an order by which the comparator orders
/// them.
pub open spec fn in_order<T, C: Fn(&T, &T) -> Ordering>(c: &C, s: Seq<T>) -> bool {
    exists|le: spec_fn(T, T) -> bool| #[trigger] orders(c, le, s) && sorted_by(s, le)
}

/// Of two elements that stand in order, the comparator never says that the
/// first is greater.
pub proof fn lemma_in_order<T, C: Fn(&T, &T) -> Ordering>(c: &C, s: Seq<T>, a: usize, b: usize)
    requires
        in_order(c, s),
        a < b < s.len(),
    ensures
        !c.ensures((&at(s, a), &at(s, b)), Ordering::Greater),
{
    let le = choose|le: spec_fn(T, T) -> bool| #[trigger] orders(c, le, s) && sorted_by(s, le);
    assert(le(at(s, a), at(s, b)));
}

/// A comparator that answers by an order on the elements of a sequence
/// answers by it on those of any part of it.
pub proof fn lemma_respects_part<T, C: Fn(&T, &T) -> Ordering>(
    c: &C,
    le: spec_fn(T, T) -> bool,
    s: Seq<T>,
    t: Seq<T>,
)
    requires
        respects(c, le, s),
        part_of(t, s),
    ensures
        respects(c, le, t),
{
    assert forall|i: int, j: int, o: Ordering|
        0 <= i < t.len() && 0 <= j < t.len() && #[trigger] c.ensures(
            (&t[i], &t[j]),
            o,
        ) implies o == three_way(le, t[i], t[j]) by {
        assert(s.contains(t[i]) && s.contains(t[j]));
        let p = choose|p: int| 0 <= p < s.len() && s[p] == t[i];
        let q = choose|q: int| 0 <= q < s.len() && s[q] == t[j];
        assert(c.ensures((&s[p], &s[q]), o));
    }
}

/// A comparator that answers by an order on the elements of a sequence
/// answers by it on those of any permutation of it.
pub proof fn lemma_respects_permutes<T, C: Fn(&T, &T) -> Ordering>(
    c: &C,
    le: spec_fn(T, T) -> bool,
    s: Seq<T>,
    t: Seq<T>,
)
    requires
        respects(c, le, s),
        permutes(s, t),
    ensures
        respects(c, le, t),
{
    assert forall|i: int| 0 <= i < t.len() implies s.contains(#[trigger] t[i]) by {
        let p = lemma_permutes_member(s, t, i);
    }
    lemma_respects_part(c, le, s, t);
}

/// The comparator answers on the elements of `t` by every order by which
/// it answers on the elements of `s`.
pub open spec fn keeps_orders<T, C: Fn(&T, &T) -> Ordering>(c: &C, s: Seq<T>, t: Seq<T>) -> bool {
    forall|le: spec_fn(T, T) -> bool| #[trigger] respects(c, le, s) ==> respects(c, le, t)
}

/// The orders by which a comparator answers on the elements of a sequence
/// are those by which it answers on the elements of a permutation of it.
pub proof fn lemma_keeps_orders<T, C: Fn(&T, &T) -> Ordering>(c: &C, s: Seq<T>, t: Seq<T>)
    requires
        permutes(s, t),
    ensures
        keeps_orders(c, s, t),
        keeps_orders(c, t, s),
{
    assert forall|le: spec_fn(T, T) -> bool| #[trigger] respects(c, le, s) implies respects(
        c,
        le,
        t,
    ) by {
        lemma_respects_permutes(c, le, s, t);
    }
    assert forall|le: spec_fn(T, T) -> bool| #[trigger] respects(c, le, t) implies respects(
        c,
        le,
        s,
    ) by {
        lemma_respects_permutes(c, le, t, s);
    }
}

/// The orders by which a comparator answers on the elements of a sequence
/// are orders by which it answers on the elements of a part of it.
pub proof fn lemma_keeps_orders_part<T, C: Fn(&T, &T) -> Ordering>(c: &C, s: Seq<T>, t: Seq<T>)
    requires
        part_of(t, s),
    ensures
        keeps_orders(c, s, t),
{
    assert forall|le: spec_fn(T, T) -> bool| #[trigger] respects(c, le, s) implies respects(
        c,
        le,
        t,
    ) by {
        lemma_respects_part(c, le, s, t);
    }
}

/// The comparator may be called on any two elements of `s`.
pub open spec fn callable_on<T, C: Fn(&T, &T) -> Ordering>(c: &C, s: Seq<T>) -> bool {
    forall|i: int, j: int|
        0 <= i < s.len() && 0 <= j < s.len() ==> c.requires((&#[trigger] s[i], &#[trigger] s[j]))
}

/// A comparator that may be called on the elements of a sequence may be
/// called on those of any permutation of it.
pub proof fn lemma_callable_permutes<T, C: Fn(&T, &T) -> Ordering>(c: &C, s: Seq<T>, t: Seq<T>)
    requires
        callable_on(c, s),
        permutes(s, t),
    ensures
        callable_on(c, t),
{
    assert forall|i: int, j: int| 0 <= i < t.len() && 0 <= j < t.len() implies c.requires(
        (&#[trigger] t[i], &#[trigger] t[j]),
    ) by {
        let p = lemma_permutes_member(s, t, i);
        let q = lemma_permutes_member(s, t, j);
        assert(c.requires((&s[p], &s[q])));
    }
}

/// A comparator that may be called on the elements of a sequence may be
/// called on those of any part of it.
pub proof fn lemma_callable_part<T, C: Fn(&T, &T) -> Ordering>(c: &C, s: Seq<T>, t: Seq<T>)
    requires
        callable_on(c, s),
        crate::seqs::part_of(t, s),
    ensures
        callable_on(c, t),
{
    assert forall|i: int, j: int| 0 <= i < t.len() && 0 <= j < t.len() implies c.requires(
        (&#[trigger] t[i], &#[trigger] t[j]),
    ) by {
        assert(s.contains(t[i]) && s.contains(t[j]));
        let p = choose|p: int| 0 <= p < s.len() && s[p] == t[i];
        let q = choose|q: int| 0 <= q < s.len() && s[q] == t[j];
        assert(c.requires((&s[p], &s[q])));
    }
}

/// Compares the elements at `a` and `b`: the answer is one that `compare`
/// gives on them.
pub fn compare_idxs<T, C: Fn(&T, &T) -> Ordering>(v: &[T], a: usize, b: usize, compare: &C) -> (o:
    Ordering)
    requires
        a < v@.len(),
        b < v@.len(),
        compare.requires((&at(v@, a), &at(v@, b))),
    ensures
        compare.ensures((&at(v@, a), &at(v@, b)), o),
{
    compare(&v[a], &v[b])
}

} // verus!
