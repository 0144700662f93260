//! What follows from the contracts of the sorting functions, for any
//! function that meets them.

use vstd::prelude::*;
use vstd::relations::*;
use vstd::seq_lib::*;
use std::cmp::Ordering;
use crate::order::{orders, three_way};
use crate::seqs::{permutes, lemma_permutes_len, lemma_permutes_member, lemma_permutes_all};

verus! {

/// No two different elements of `s` are level with one another in `le`.
pub open spec fn distinguishes<T>(le: spec_fn(T, T) -> bool, s: Seq<T>) -> bool {
    forall|i: int, j: int|
        0 <= i < s.len() && 0 <= j < s.len() && #[trigger] le(s[i], s[j]) && le(s[j], s[i]) ==> s[i]
            == s[j]
}

/// On the elements of `s`, `flipped` answers on `(a, b)` what `c` answers
/// on `(b, a)`.
pub open spec fn flips<T, C: Fn(&T, &T) -> Ordering, D: Fn(&T, &T) -> Ordering>(
    flipped: &D,
    c: &C,
    s: Seq<T>,
) -> bool {
    forall|i: int, j: int, o: Ordering|
        0 <= i < s.len() && 0 <= j < s.len() && #[trigger] flipped.ensures((&s[i], &s[j]), o)
            ==> c.ensures((&s[j], &s[i]), o)
}

/// The relation `le` turned round.
pub open spec fn converse<T>(le: spec_fn(T, T) -> bool) -> spec_fn(T, T) -> bool {
    |a: T, b: T| le(b, a)
}

/// After a sort by a comparator that orders the elements of the input,
/// comparing an element of the result with a later one never answers
/// `Greater`.
pub proof fn lemma_sorted_never_greater<T, C: Fn(&T, &T) -> Ordering>(
    c: &C,
    le: spec_fn(T, T) -> bool,
    input: Seq<T>,
    output: Seq<T>,
    i: int,
    j: int,
)
    requires
        orders(c, le, input),
        permutes(input, output),
        forall|r: spec_fn(T, T) -> bool| #[trigger] orders(c, r, input) ==> sorted_by(output, r),
        0 <= i < j < output.len(),
    ensures
        !c.ensures((&output[i], &output[j]), Ordering::Greater),
{
    assert(sorted_by(output, le));
    assert(le(output[i], output[j]));
    let p = lemma_permutes_member(input, output, i);
    let q = lemma_permutes_member(input, output, j);
    if c.ensures((&output[i], &output[j]), Ordering::Greater) {
        assert(c.ensures((&input[p], &input[q]), Ordering::Greater));
    }
}

/// The answer that is given when the two elements change places.
pub open spec fn turned(o: Ordering) -> Ordering {
    match o {
        Ordering::Less => Ordering::Greater,
        Ordering::Equal => Ordering::Equal,
        Ordering::Greater => Ordering::Less,
    }
}

/// A comparator that computes `f` on the elements of `s`, where `f` turns
/// round when its arguments change places and "not greater" is transitive,
/// orders the elements of `s`: by the order in which `a` is at most `b`
/// when `f(a, b)` is not `Greater`.
pub proof fn lemma_function_orders<T, C: Fn(&T, &T) -> Ordering>(
    c: &C,
    f: spec_fn(T, T) -> Ordering,
    s: Seq<T>,
)
    requires
        forall|i: int, j: int, o: Ordering|
            0 <= i < s.len() && 0 <= j < s.len() && #[trigger] c.ensures((&s[i], &s[j]), o) ==> o
                == f(s[i], s[j]),
        forall|i: int, j: int|
            0 <= i < s.len() && 0 <= j < s.len() ==> #[trigger] f(s[j], s[i]) == turned(
                f(s[i], s[j]),
            ),
        forall|i: int, j: int, k: int|
            0 <= i < s.len() && 0 <= j < s.len() && 0 <= k < s.len() && #[trigger] f(s[i], s[j])
                != Ordering::Greater && #[trigger] f(s[j], s[k]) != Ordering::Greater ==> f(
                s[i],
                s[k],
            ) != Ordering::Greater,
    ensures
        orders(c, |a: T, b: T| f(a, b) != Ordering::Greater, s),
{
    let le = |a: T, b: T| f(a, b) != Ordering::Greater;
    assert forall|i: int, j: int| 0 <= i < s.len() && 0 <= j < s.len() implies le(
        #[trigger] s[i],
        #[trigger] s[j],
    ) || le(s[j], s[i]) by {
        assert(f(s[j], s[i]) == turned(f(s[i], s[j])));
    }
    assert forall|i: int, j: int, k: int|
        0 <= i < s.len() && 0 <= j < s.len() && 0 <= k < s.len() && #[trigger] le(s[i], s[j])
            && #[trigger] le(s[j], s[k]) implies le(s[i], s[k]) by {
        assert(f(s[i], s[j]) != Ordering::Greater && f(s[j], s[k]) != Ordering::Greater);
    }
    assert forall|i: int, j: int, o: Ordering|
        0 <= i < s.len() && 0 <= j < s.len() && #[trigger] c.ensures(
            (&s[i], &s[j]),
            o,
        ) implies o == three_way(le, s[i], s[j]) by {
        assert(f(s[j], s[i]) == turned(f(s[i], s[j])));
    }
}

/// After a sort by a comparator that computes `f` on the elements of the
/// input, where `f` turns round when its arguments change places and "not
/// greater" is transitive, `f` of an element of the result and a later one
/// is never `Greater`.
pub proof fn lemma_sorted_by_function<T, C: Fn(&T, &T) -> Ordering>(
    c: &C,
    f: spec_fn(T, T) -> Ordering,
    input: Seq<T>,
    output: Seq<T>,
)
    requires
        forall|i: int, j: int, o: Ordering|
            0 <= i < input.len() && 0 <= j < input.len() && #[trigger] c.ensures(
                (&input[i], &input[j]),
                o,
            ) ==> o == f(input[i], input[j]),
        forall|i: int, j: int|
            0 <= i < input.len() && 0 <= j < input.len() ==> #[trigger] f(input[j], input[i])
                == turned(f(input[i], input[j])),
        forall|i: int, j: int, k: int|
            0 <= i < input.len() && 0 <= j < input.len() && 0 <= k < input.len() && #[trigger] f(
                input[i],
                input[j],
            ) != Ordering::Greater && #[trigger] f(input[j], input[k]) != Ordering::Greater ==> f(
                input[i],
                input[k],
            ) != Ordering::Greater,
        permutes(input, output),
        forall|r: spec_fn(T, T) -> bool| #[trigger] orders(c, r, input) ==> sorted_by(output, r),
    ensures
        forall|i: int, j: int|
            0 <= i < j < output.len() ==> #[trigger] f(output[i], output[j]) != Ordering::Greater,
{
    lemma_function_orders(c, f, input);
    let le = |a: T, b: T| f(a, b) != Ordering::Greater;
    assert(sorted_by(output, le));
    assert forall|i: int, j: int| 0 <= i < j < output.len() implies #[trigger] f(
        output[i],
        output[j],
    ) != Ordering::Greater by {
        assert(le(output[i], output[j]));
    }
}

/// Two sorted sequences with the same elements are the same sequence,
/// where the order tells any two different elements apart.
pub proof fn lemma_sorted_is_unique<T>(s: Seq<T>, t: Seq<T>, le: spec_fn(T, T) -> bool)
    requires
        permutes(s, t),
        sorted_by(s, le),
        sorted_by(t, le),
        distinguishes(le, s),
    ensures
        s == t,
    decreases s.len(),
{
    lemma_permutes_len(s, t);
    if s.len() > 0 {
        let n = s.len() - 1;
        // each last element occurs in the other sequence, at the end or before it
        let i = lemma_permutes_member(s, t, n);
        let j = lemma_permutes_member(t, s, n);
        if i < n && j < n {
            assert(le(s[i], s[n]));
            assert(le(t[j], t[n]));
        }
        assert(s[n] == t[n]);
        let (front, back) = (s.drop_last(), t.drop_last());
        assert(s =~= front.push(s[n]));
        assert(t =~= back.push(t[n]));
        to_multiset_build(front, s[n]);
        to_multiset_build(back, t[n]);
        assert(front.to_multiset() =~= s.to_multiset().remove(s[n]));
        assert(back.to_multiset() =~= t.to_multiset().remove(t[n]));
        assert(distinguishes(le, front)) by {
            assert forall|a: int, b: int|
                0 <= a < front.len() && 0 <= b < front.len() && #[trigger] le(front[a], front[b])
                    && le(front[b], front[a]) implies front[a] == front[b] by {
                assert(le(s[a], s[b]));
            }
        }
        assert(sorted_by(front, le)) by {
            assert forall|a: int, b: int| 0 <= a < b < front.len() implies #[trigger] le(
                front[a],
                front[b],
            ) by {
                assert(le(s[a], s[b]));
            }
        }
        assert(sorted_by(back, le)) by {
            assert forall|a: int, b: int| 0 <= a < b < back.len() implies #[trigger] le(
                back[a],
                back[b],
            ) by {
                assert(le(t[a], t[b]));
            }
        }
        lemma_sorted_is_unique(front, back, le);
    }
    assert(s =~= t);
}

/// Sorting a sorted sequence again changes nothing: where `input` stands in
/// an order that the comparator answers by, and that tells its different
/// elements apart, every sorted permutation of `input` is `input`.
///
/// Without the last condition a sort that is not stable may exchange two
/// elements that are level.
pub proof fn lemma_sort_idempotent<T, C: Fn(&T, &T) -> Ordering>(
    c: &C,
    le: spec_fn(T, T) -> bool,
    input: Seq<T>,
    output: Seq<T>,
)
    requires
        orders(c, le, input),
        sorted_by(input, le),
        distinguishes(le, input),
        permutes(input, output),
        forall|r: spec_fn(T, T) -> bool| #[trigger] orders(c, r, input) ==> sorted_by(output, r),
    ensures
        output == input,
{
    lemma_sorted_is_unique(input, output, le);
}

/// Sorting with the comparator turned round gives the reverse of sorting
/// with the comparator itself, where the order tells the different
/// elements of the input apart.
///
/// Without that condition the two results may hold elements that are level
/// in different places.
pub proof fn lemma_flipped_sort_reverses<T, C: Fn(&T, &T) -> Ordering, D: Fn(&T, &T) -> Ordering>(
    c: &C,
    flipped: &D,
    le: spec_fn(T, T) -> bool,
    input: Seq<T>,
    sorted: Seq<T>,
    sorted_flipped: Seq<T>,
)
    requires
        orders(c, le, input),
        flips(flipped, c, input),
        distinguishes(le, input),
        permutes(input, sorted),
        forall|r: spec_fn(T, T) -> bool| #[trigger] orders(c, r, input) ==> sorted_by(sorted, r),
        permutes(input, sorted_flipped),
        forall|r: spec_fn(T, T) -> bool| #[trigger]
            orders(flipped, r, input) ==> sorted_by(sorted_flipped, r),
    ensures
        sorted_flipped == sorted.reverse(),
{
    let back = converse(le);
    assert(orders(flipped, back, input)) by {
        assert forall|i: int, j: int|
            0 <= i < input.len() && 0 <= j < input.len() implies back(
            #[trigger] input[i],
            #[trigger] input[j],
        ) || back(input[j], input[i]) by {
            assert(le(input[j], input[i]) || le(input[i], input[j]));
        }
        assert forall|i: int, j: int, k: int|
            0 <= i < input.len() && 0 <= j < input.len() && 0 <= k < input.len() && #[trigger] back(
                input[i],
                input[j],
            ) && #[trigger] back(input[j], input[k]) implies back(input[i], input[k]) by {
            assert(le(input[k], input[j]) && le(input[j], input[i]));
        }
        assert forall|i: int, j: int, o: Ordering|
            0 <= i < input.len() && 0 <= j < input.len() && #[trigger] flipped.ensures(
                (&input[i], &input[j]),
                o,
            ) implies o == three_way(back, input[i], input[j]) by {
            assert(c.ensures((&input[j], &input[i]), o));
        }
    }
    assert(sorted_by(sorted_flipped, back));
    let rev = sorted_flipped.reverse();
    assert(sorted_by(rev, le)) by {
        assert forall|i: int, j: int| 0 <= i < j < rev.len() implies #[trigger] le(
            rev[i],
            rev[j],
        ) by {
            assert(back(
                sorted_flipped[sorted_flipped.len() - 1 - j],
                sorted_flipped[sorted_flipped.len() - 1 - i],
            ));
        }
    }
    sorted_flipped.lemma_reverse_to_multiset();
    assert(distinguishes(le, sorted)) by {
        assert forall|i: int, j: int|
            0 <= i < sorted.len() && 0 <= j < sorted.len() && #[trigger] le(sorted[i], sorted[j])
                && le(sorted[j], sorted[i]) implies sorted[i] == sorted[j] by {
            let a = lemma_permutes_member(input, sorted, i);
            let b = lemma_permutes_member(input, sorted, j);
            assert(le(input[a], input[b]));
        }
    }
    lemma_sorted_is_unique(sorted, rev, le);
    assert(sorted_flipped =~= sorted.reverse());
}

/// A sequence that holds one value over and over is not changed by
/// permuting it.
pub proof fn lemma_permutes_constant<T>(s: Seq<T>, t: Seq<T>, x: T)
    requires
        permutes(s, t),
        forall|i: int| 0 <= i < s.len() ==> s[i] == x,
    ensures
        t == s,
{
    lemma_permutes_len(s, t);
    let same = |y: T| y == x;
    assert forall|i: int| 0 <= i < s.len() implies #[trigger] same(s[i]) by {}
    lemma_permutes_all(s, t, same);
    assert forall|i: int| 0 <= i < t.len() implies t[i] == s[i] by {
        assert(same(t[i]));
    }
    assert(t =~= s);
}

} // verus!
