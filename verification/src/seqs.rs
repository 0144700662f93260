//! Sequences under exchanges: permutations, stretches of a sequence, and
//! parts put in a row. The sorting proofs share these facts.

use vstd::prelude::*;
use vstd::relations::*;
use vstd::seq_lib::*;
use vstd::multiset::*;

verus! {

/// std's `<[T]>::swap` exchanges the elements at `a` and `b` and leaves
/// the rest alone. It panics when an index is out of bounds, so both must
/// be in bounds. With `a == b` nothing changes.
pub assume_specification<E>[ <[E]>::swap ](slice: &mut [E], a: usize, b: usize)
    requires
        a < old(slice)@.len(),
        b < old(slice)@.len(),
    ensures
        final(slice)@ == old(slice)@.update(a as int, old(slice)@[b as int]).update(
            b as int,
            old(slice)@[a as int],
        ),
;

/// The element of `s` at the position `i`.
#[verifier::inline]
pub open spec fn at<T>(s: Seq<T>, i: usize) -> T {
    s[i as int]
}

/// The stretch of `s` from `a` up to `b`.
#[verifier::inline]
pub open spec fn stretch<T>(s: Seq<T>, a: usize, b: usize) -> Seq<T> {
    s.subrange(a as int, b as int)
}

/// `s` with the elements at `a` and `b` exchanged.
pub open spec fn swapped<T>(s: Seq<T>, a: int, b: int) -> Seq<T> {
    s.update(a, s[b]).update(b, s[a])
}

/// `t` holds the same elements as `s`, each as often.
pub open spec fn permutes<T>(s: Seq<T>, t: Seq<T>) -> bool {
    s.to_multiset() == t.to_multiset()
}

/// Every element of `t` occurs in `s`.
pub open spec fn part_of<T>(t: Seq<T>, s: Seq<T>) -> bool {
    forall|i: int| 0 <= i < t.len() ==> s.contains(#[trigger] t[i])
}

/// A total preorder: of any two elements one is at most the other, and the
/// relation is transitive. Different elements may be level with one
/// another.
pub open spec fn is_total_preorder<T>(le: spec_fn(T, T) -> bool) -> bool {
    &&& strongly_connected(le)
    &&& transitive(le)
}

/// Five parts in a row: a left part, a pivot, a middle part, a second pivot
/// and a right part.
pub open spec fn joined<T>(left: Seq<T>, first: T, middle: Seq<T>, second: T, right: Seq<T>) -> Seq<T> {
    left + seq![first] + middle + seq![second] + right
}

/// A total preorder is reflexive.
pub proof fn lemma_total_preorder_reflexive<T>(le: spec_fn(T, T) -> bool)
    requires
        is_total_preorder(le),
    ensures
        pre_ordering(le),
{
    assert forall|x: T| #[trigger] le(x, x) by {
        assert(le(x, x) || le(x, x));
    }
}

/// Exchanging two elements gives a permutation.
pub proof fn lemma_swap_permutes<T>(s: Seq<T>, a: usize, b: usize)
    requires
        a < s.len(),
        b < s.len(),
    ensures
        permutes(s, swapped(s, a as int, b as int)),
        swapped(s, a as int, b as int).len() == s.len(),
{
    broadcast use group_multiset_axioms;
    let (a, b) = (a as int, b as int);
    let mid = s.update(a, s[b]);
    to_multiset_update(s, a, s[b]);
    to_multiset_update(mid, b, s[a]);
    s.to_multiset_ensures();
    if a == b {
        assert(swapped(s, a, b) =~= s);
    } else {
        assert(mid[b] == s[b]);
        assert(swapped(s, a, b).to_multiset() =~= s.to_multiset());
    }
}

/// A permutation has the length of what it permutes.
pub proof fn lemma_permutes_len<T>(s: Seq<T>, t: Seq<T>)
    requires
        permutes(s, t),
    ensures
        s.len() == t.len(),
{
    s.to_multiset_ensures();
    t.to_multiset_ensures();
}

/// Each element of a permutation occurs in what it permutes.
pub proof fn lemma_permutes_member<T>(s: Seq<T>, t: Seq<T>, i: int) -> (j: int)
    requires
        permutes(s, t),
        0 <= i < t.len(),
    ensures
        0 <= j < s.len(),
        s[j] == t[i],
{
    s.to_multiset_ensures();
    t.to_multiset_ensures();
    assert(t.contains(t[i]));
    assert(t.to_multiset().count(t[i]) > 0);
    assert(s.to_multiset().count(t[i]) > 0);
    assert(s.contains(t[i]));
    choose|j: int| 0 <= j < s.len() && s[j] == t[i]
}

/// What holds of every element holds of every element of a permutation.
pub proof fn lemma_permutes_all<T>(s: Seq<T>, t: Seq<T>, p: spec_fn(T) -> bool)
    requires
        permutes(s, t),
        forall|i: int| 0 <= i < s.len() ==> #[trigger] p(s[i]),
    ensures
        forall|i: int| 0 <= i < t.len() ==> #[trigger] p(t[i]),
{
    assert forall|i: int| 0 <= i < t.len() implies #[trigger] p(t[i]) by {
        let j = lemma_permutes_member(s, t, i);
        assert(p(s[j]));
    }
}

/// A permutation of at most one element is the sequence itself.
pub proof fn lemma_permutes_short<T>(s: Seq<T>, t: Seq<T>)
    requires
        permutes(s, t),
        s.len() <= 1,
    ensures
        s == t,
{
    lemma_permutes_len(s, t);
    if s.len() == 1 {
        let j = lemma_permutes_member(s, t, 0);
    }
    assert(s =~= t);
}

/// Permuting the two halves of a sequence permutes the sequence.
pub proof fn lemma_permutes_concat<T>(a: Seq<T>, b: Seq<T>, c: Seq<T>, d: Seq<T>)
    requires
        permutes(a, c),
        permutes(b, d),
    ensures
        permutes(a + b, c + d),
{
    lemma_multiset_commutative(a, b);
    lemma_multiset_commutative(c, d);
}

/// Where two sequences differ only between `lo` and `hi`, and one permutes
/// the other, the stretch between `lo` and `hi` of one permutes that of the
/// other.
pub proof fn lemma_permutes_within<T>(s: Seq<T>, t: Seq<T>, lo: usize, hi: usize)
    requires
        permutes(s, t),
        lo <= hi <= s.len(),
        forall|i: int| 0 <= i < lo || hi <= i < s.len() ==> s[i] == t[i],
    ensures
        s.len() == t.len(),
        permutes(stretch(s, lo, hi), stretch(t, lo, hi)),
{
    broadcast use group_multiset_axioms;
    lemma_permutes_len(s, t);
    let (lo, hi, n) = (lo as int, hi as int, s.len() as int);
    let (s0, s1, s2) = (s.subrange(0, lo), s.subrange(lo, hi), s.subrange(hi, n));
    let (t0, t1, t2) = (t.subrange(0, lo), t.subrange(lo, hi), t.subrange(hi, n));
    assert(s =~= s0 + s1 + s2);
    assert(t =~= t0 + t1 + t2);
    assert(s0 =~= t0);
    assert(s2 =~= t2);
    lemma_multiset_commutative(s0 + s1, s2);
    lemma_multiset_commutative(s0, s1);
    lemma_multiset_commutative(t0 + t1, t2);
    lemma_multiset_commutative(t0, t1);
    assert forall|x: T| s1.to_multiset().count(x) == t1.to_multiset().count(x) by {
        assert(s.to_multiset().count(x) == s0.to_multiset().count(x) + s1.to_multiset().count(x)
            + s2.to_multiset().count(x));
        assert(t.to_multiset().count(x) == t0.to_multiset().count(x) + t1.to_multiset().count(x)
            + t2.to_multiset().count(x));
    }
    assert(s1.to_multiset() =~= t1.to_multiset());
}

/// Where every element before `mid` is at most every element from `mid`
/// on, this stays so when the elements before `mid` are permuted among
/// themselves.
pub proof fn lemma_stays_below<T>(s: Seq<T>, t: Seq<T>, mid: usize, le: spec_fn(T, T) -> bool)
    requires
        permutes(s, t),
        mid <= s.len(),
        forall|i: int| mid <= i < s.len() ==> s[i] == t[i],
        forall|p: int, q: int| 0 <= p < mid <= q < s.len() ==> #[trigger] le(s[p], s[q]),
    ensures
        forall|p: int, q: int| 0 <= p < mid <= q < t.len() ==> #[trigger] le(t[p], t[q]),
{
    lemma_permutes_within(s, t, 0, mid);
    let (before, after) = (stretch(s, 0, mid), stretch(t, 0, mid));
    assert forall|p: int, q: int| 0 <= p < mid <= q < t.len() implies #[trigger] le(t[p], t[q]) by {
        let j = lemma_permutes_member(before, after, p);
        assert(before[j] == s[j]);
        assert(after[p] == t[p]);
        assert(le(s[j], s[q]));
    }
}

/// A stretch of a sequence is a part of it.
pub proof fn lemma_stretch_part_of<T>(s: Seq<T>, a: usize, b: usize)
    requires
        a <= b <= s.len(),
    ensures
        part_of(stretch(s, a, b), s),
{
    assert forall|i: int| 0 <= i < b - a implies s.contains(#[trigger] stretch(s, a, b)[i]) by {
        assert(s[a + i] == stretch(s, a, b)[i]);
    }
}

/// A sequence is the parts around two of its positions, in a row.
pub proof fn lemma_joined<T>(s: Seq<T>, lp: usize, rp: usize)
    requires
        lp < rp < s.len(),
    ensures
        s == joined(
            s.subrange(0, lp as int),
            s[lp as int],
            s.subrange(lp + 1, rp as int),
            s[rp as int],
            s.subrange(rp + 1, s.len() as int),
        ),
{
    assert(s =~= joined(
        s.subrange(0, lp as int),
        s[lp as int],
        s.subrange(lp + 1, rp as int),
        s[rp as int],
        s.subrange(rp + 1, s.len() as int),
    ));
}

/// Permuting each of the three parts around two pivots permutes the whole.
pub proof fn lemma_joined_permutes<T>(
    left: Seq<T>,
    middle: Seq<T>,
    right: Seq<T>,
    first: T,
    second: T,
    left2: Seq<T>,
    middle2: Seq<T>,
    right2: Seq<T>,
)
    requires
        permutes(left, left2),
        permutes(middle, middle2),
        permutes(right, right2),
    ensures
        permutes(joined(left, first, middle, second, right), joined(left2, first, middle2, second, right2)),
{
    lemma_permutes_concat(left, seq![first], left2, seq![first]);
    lemma_permutes_concat(left + seq![first], middle, left2 + seq![first], middle2);
    lemma_permutes_concat(left + seq![first] + middle, seq![second], left2 + seq![first] + middle2, seq![second]);
    lemma_permutes_concat(
        left + seq![first] + middle + seq![second],
        right,
        left2 + seq![first] + middle2 + seq![second],
        right2,
    );
}

/// Three sorted parts around two pivots are sorted in a row, where the
/// left part is at most the first pivot, the middle part lies between the
/// pivots and the right part is at least the second, the first pivot being
/// at most the second.
pub proof fn lemma_joined_sorted<T>(
    left: Seq<T>,
    first: T,
    middle: Seq<T>,
    second: T,
    right: Seq<T>,
    le: spec_fn(T, T) -> bool,
)
    requires
        pre_ordering(le),
        le(first, second),
        sorted_by(left, le),
        sorted_by(middle, le),
        sorted_by(right, le),
        forall|i: int| 0 <= i < left.len() ==> #[trigger] le(left[i], first),
        forall|i: int| 0 <= i < middle.len() ==> #[trigger] le(first, middle[i]),
        forall|i: int| 0 <= i < middle.len() ==> #[trigger] le(middle[i], second),
        forall|i: int| 0 <= i < right.len() ==> #[trigger] le(second, right[i]),
    ensures
        sorted_by(joined(left, first, middle, second, right), le),
{
    let s = joined(left, first, middle, second, right);
    let a = left.len() as int;
    let b = a + 1 + middle.len();
    assert forall|i: int, j: int| 0 <= i < j < s.len() implies #[trigger] le(s[i], s[j]) by {
        // how the earlier element stands to the pivots
        if i < a {
            assert(s[i] == left[i] && le(s[i], first));
        } else if a < i < b {
            assert(s[i] == middle[i - a - 1] && le(s[i], second));
        } else if b < i {
            assert(s[i] == right[i - b - 1]);
        }
        // how the later element stands to them
        if j < a {
            assert(s[j] == left[j]);
        } else if a < j < b {
            assert(s[j] == middle[j - a - 1] && le(first, s[j]));
        } else if b < j {
            assert(s[j] == right[j - b - 1] && le(second, s[j]));
        }
    }
}

} // verus!
