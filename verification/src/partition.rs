//! The two partition schemes of the quicksort: around one pivot, into the
//! elements less than it, level with it and greater; and around two
//! pivots, into those less than the smaller, between the two and greater
//! than the larger.

use vstd::prelude::*;
use std::cmp::Ordering;
use crate::order::{
    respects, orders, three_way, callable_on, total_preorder, keeps_orders, compare_idxs,
    lemma_orders,
};
use crate::seqs::{at, swapped, permutes, lemma_swap_permutes};

verus! {

/// Both are at most the other.
pub open spec fn level<T>(le: spec_fn(T, T) -> bool, a: T, b: T) -> bool {
    le(a, b) && le(b, a)
}

/// `a` is at most `b`, and `b` is not at most `a`.
pub open spec fn less<T>(le: spec_fn(T, T) -> bool, a: T, b: T) -> bool {
    le(a, b) && !le(b, a)
}

/// `s` after the element at `a` was exchanged with the element at `b`, then
/// the element at `a + 1` with that at `b + 1`, and so on, `n` times.
pub open spec fn swapped_many<T>(s: Seq<T>, a: usize, b: usize, n: nat) -> Seq<T>
    decreases n,
{
    if n == 0 {
        s
    } else {
        swapped(swapped_many(s, a, b, (n - 1) as nat), a + n - 1, b + n - 1)
    }
}

/// `s` with the `n` elements from `a` on exchanged, one for one, with the
/// `n` elements from `b` on.
pub open spec fn blocks_swapped<T>(s: Seq<T>, a: usize, b: usize, n: usize) -> Seq<T> {
    Seq::new(
        s.len(),
        |i: int|
            if a <= i < a + n {
                s[i - a + b]
            } else if b <= i < b + n {
                s[i - b + a]
            } else {
                s[i]
            },
    )
}

/// Exchanges the `n` elements from `a` on with the `n` elements from `b`
/// on, one pair after the other.
///
/// The result is a permutation; where the first stretch ends before the
/// second begins, it is the slice with the two stretches exchanged.
pub fn swap_many<T>(v: &mut [T], a: usize, b: usize, n: usize)
    requires
        a + n <= old(v)@.len(),
        b + n <= old(v)@.len(),
    ensures
        final(v)@ == swapped_many(old(v)@, a, b, n as nat),
        permutes(old(v)@, final(v)@),
        final(v)@.len() == old(v)@.len(),
        a + n <= b ==> final(v)@ == blocks_swapped(old(v)@, a, b, n),
{
    let len = v.len();
    let mut i: usize = 0;
    proof {
        if a + n <= b {
            assert(v@ =~= blocks_swapped(v@, a, b, 0));
        }
    }
    while i < n
        invariant
            i <= n,
            len == v@.len() == old(v)@.len(),
            a + n <= len,
            b + n <= len,
            v@ == swapped_many(old(v)@, a, b, i as nat),
            permutes(old(v)@, v@),
            a + n <= b ==> v@ == blocks_swapped(old(v)@, a, b, i),
        decreases n - i,
    {
        let (x, y) = (a + i, b + i);
        proof {
            lemma_swap_permutes(v@, x, y);
        }
        v.swap(x, y);
        i += 1;
        proof {
            if a + n <= b {
                assert(v@ =~= blocks_swapped(old(v)@, a, b, i));
            }
        }
    }
}

/// The slice in three blocks around `p`: the first `l` elements are less
/// than `p`, the last `r` are greater than `p`, and those between are
/// level with `p`.
pub open spec fn fat_partitioned<T>(s: Seq<T>, l: usize, r: usize, p: T, le: spec_fn(T, T) -> bool) -> bool {
    &&& l + r <= s.len()
    &&& forall|i: int| 0 <= i < l ==> less(le, #[trigger] s[i], p)
    &&& forall|i: int| l <= i < s.len() - r ==> level(le, #[trigger] s[i], p)
    &&& forall|i: int| s.len() - r <= i < s.len() ==> less(le, p, #[trigger] s[i])
}

/// The slice while it is being partitioned around `p`, with an element
/// level with `p` in front: level elements up to `a`, then those less than
/// `p` up to `b`; those greater than `p` from `c` up to `d`, then level
/// elements to the end.
pub open spec fn fat_regions<T>(
    s: Seq<T>,
    a: usize,
    b: usize,
    c: usize,
    d: usize,
    p: T,
    le: spec_fn(T, T) -> bool,
) -> bool {
    &&& level(le, s[0], p)
    &&& forall|i: int| 0 <= i < a ==> level(le, #[trigger] s[i], p)
    &&& forall|i: int| a <= i < b ==> less(le, #[trigger] s[i], p)
    &&& forall|i: int| c <= i < d ==> less(le, p, #[trigger] s[i])
    &&& forall|i: int| d <= i < s.len() ==> level(le, #[trigger] s[i], p)
}

/// Gathering the level elements in the middle, by exchanging the level
/// block at each end with the far end of its neighbour, gives the three
/// blocks.
pub proof fn lemma_fat_compact<T>(
    s: Seq<T>,
    a: usize,
    b: usize,
    d: usize,
    p: T,
    le: spec_fn(T, T) -> bool,
)
    requires
        a <= b <= d <= s.len() <= usize::MAX,
        fat_regions(s, a, b, b, d, p, le),
    ensures
        ({
            let l = if a <= b - a { a } else { (b - a) as usize };
            let r = if d - b <= s.len() - d { (d - b) as usize } else { (s.len() - d) as usize };
            let t = blocks_swapped(s, 0, (b - l) as usize, l);
            let u = blocks_swapped(t, b, (s.len() - r) as usize, r);
            fat_partitioned(u, (b - a) as usize, (d - b) as usize, p, le)
        }),
{
    let l = if a <= b - a { a } else { (b - a) as usize };
    let r = if d - b <= s.len() - d { (d - b) as usize } else { (s.len() - d) as usize };
    let t = blocks_swapped(s, 0, (b - l) as usize, l);
    let u = blocks_swapped(t, b, (s.len() - r) as usize, r);
    assert forall|i: int| 0 <= i < b - a implies less(le, #[trigger] u[i], p) by {
        if i < l {
            assert(less(le, s[i + b - l], p));
        } else {
            assert(less(le, s[i], p));
        }
    }
    assert forall|i: int| b - a <= i < s.len() - (d - b) implies level(le, #[trigger] u[i], p) by {
        if i < b {
            if b - l <= i {
                assert(level(le, s[i - (b - l)], p));
            } else {
                assert(level(le, s[i], p));
            }
        } else {
            if i < b + r {
                assert(level(le, s[i - b + (s.len() - r)], p));
            } else {
                assert(level(le, s[i], p));
            }
        }
    }
    assert forall|i: int| s.len() - (d - b) <= i < s.len() implies less(le, p, #[trigger] u[i]) by {
        if s.len() - r <= i {
            assert(less(le, p, s[i - (s.len() - r) + b]));
        } else {
            assert(less(le, p, s[i]));
        }
    }
}

/// What is partitioned by `le` within `s`, and holds elements of `s` alone,
/// is partitioned by `le`.
pub proof fn lemma_fat_within<T>(
    s: Seq<T>,
    t: Seq<T>,
    l: usize,
    r: usize,
    p: T,
    le: spec_fn(T, T) -> bool,
)
    requires
        permutes(s, t),
        s.contains(p),
        crate::order::total_preorder_on(le, s),
        fat_partitioned(t, l, r, p, crate::order::within(le, s)),
    ensures
        fat_partitioned(t, l, r, p, le),
{
    crate::order::lemma_within(le, s);
    let g = crate::order::within(le, s);
    assert forall|i: int| 0 <= i < t.len() implies g(#[trigger] t[i], p) == le(t[i], p) && g(p, t[i])
        == le(p, t[i]) by {
        let k = crate::seqs::lemma_permutes_member(s, t, i);
    }
}

/// Partitions `v` around the element at `pivot` into the elements less
/// than it, those level with it and those greater, in this order, and
/// returns how many are less and how many are greater.
///
/// The result is a permutation of the input whatever `compare` answers, and
/// neither count exceeds the length. In every order by which `compare`
/// orders the elements of the slice, the first block holds the elements
/// less than the pivot, the last block those greater, and the block
/// between them those level with it.
#[verifier::rlimit(40)]
pub fn fat_partition<T, C: Fn(&T, &T) -> Ordering>(v: &mut [T], pivot: usize, compare: &C) -> (counts:
    (usize, usize))
    requires
        pivot < old(v)@.len(),
        callable_on(compare, old(v)@),
    ensures
        permutes(old(v)@, final(v)@),
        final(v)@.len() == old(v)@.len(),
        counts.0 <= old(v)@.len(),
        counts.1 <= old(v)@.len(),
        forall|le: spec_fn(T, T) -> bool| #[trigger]
            orders(compare, le, old(v)@) ==> fat_partitioned(
                final(v)@,
                counts.0,
                counts.1,
                at(old(v)@, pivot),
                le,
            ),
{
    let ghost wb = total_preorder(compare, old(v)@);
    let ghost p = at(v@, pivot);
    let n = v.len();
    let mut a: usize = 0;
    let mut b: usize = 0;
    let mut c: usize = n;
    let mut d: usize = n;
    proof {
        lemma_swap_permutes(v@, 0, pivot);
    }
    v.swap(0, pivot);
    loop
        invariant
            n == v@.len() == old(v)@.len(),
            n >= 1,
            a <= b <= n,
            c <= d <= n,
            b <= c + 1,
            permutes(old(v)@, v@),
            callable_on(compare, v@),
            keeps_orders(compare, old(v)@, v@),
            wb == total_preorder(compare, old(v)@),
            wb ==> b <= c,
            wb ==> b >= 1 || c == n,
            forall|le: spec_fn(T, T) -> bool| #[trigger]
                respects(compare, le, old(v)@) ==> fat_regions(v@, a, b, c, d, p, le),
        ensures
            b >= c,
        decreases c + 1 - b,
    {
        let ghost (b0, c0) = (b, c);
        while b < c
            invariant
                n == v@.len() == old(v)@.len(),
                n >= 1,
                a <= b <= n,
                c <= d <= n,
                b0 <= b <= c + 1,
                c == c0,
                permutes(old(v)@, v@),
                callable_on(compare, v@),
                keeps_orders(compare, old(v)@, v@),
                wb == total_preorder(compare, old(v)@),
                wb ==> b <= c,
                wb ==> b >= 1 || c == n,
                forall|le: spec_fn(T, T) -> bool| #[trigger]
                    respects(compare, le, old(v)@) ==> fat_regions(v@, a, b, c, d, p, le),
            ensures
                b < c ==> compare.ensures((&at(v@, b), &v@[0]), Ordering::Greater),
                wb ==> b >= 1,
            decreases c - b,
        {
            let r = compare_idxs(v, b, 0, compare);
            match r {
                Ordering::Greater => {
                    break ;
                },
                Ordering::Equal => {
                    proof {
                        lemma_swap_permutes(v@, a, b);
                        assert forall|le: spec_fn(T, T) -> bool| #[trigger]
                            respects(compare, le, old(v)@) implies level(le, at(v@, b), p) by {
                            assert(three_way(le, at(v@, b), v@[0]) == Ordering::Equal);
                            assert(fat_regions(v@, a, b, c, d, p, le));
                        }
                    }
                    v.swap(a, b);
                    a += 1;
                },
                Ordering::Less => {
                    proof {
                        assert forall|le: spec_fn(T, T) -> bool| #[trigger]
                            respects(compare, le, old(v)@) implies less(le, at(v@, b), p) by {
                            assert(three_way(le, at(v@, b), v@[0]) == Ordering::Less);
                            assert(le(at(v@, b), v@[0]));
                            assert(fat_regions(v@, a, b, c, d, p, le));
                        }
                    }
                },
            }
            b += 1;
        }
        let ghost held = v@;
        while c > b
            invariant
                n == v@.len() == old(v)@.len(),
                n >= 1,
                a <= b <= n,
                c <= d <= n,
                b0 <= b <= c + 1,
                c <= c0,
                permutes(old(v)@, v@),
                callable_on(compare, v@),
                keeps_orders(compare, old(v)@, v@),
                wb == total_preorder(compare, old(v)@),
                wb ==> b <= c,
                wb ==> b >= 1,
                forall|le: spec_fn(T, T) -> bool| #[trigger]
                    respects(compare, le, old(v)@) ==> fat_regions(v@, a, b, c, d, p, le),
                held.len() == n,
                forall|i: int| 0 <= i < b ==> v@[i] == held[i],
                b < c ==> at(v@, b) == at(held, b),
            ensures
                b < c ==> compare.ensures((&v@[c - 1], &v@[0]), Ordering::Less),
            decreases c - b,
        {
            let last = c - 1;
            let r = compare_idxs(v, last, 0, compare);
            match r {
                Ordering::Less => {
                    break ;
                },
                Ordering::Equal => {
                    d -= 1;
                    proof {
                        lemma_swap_permutes(v@, last, d);
                    }
                    v.swap(last, d);
                },
                Ordering::Greater => {
                    proof {
                        assert forall|le: spec_fn(T, T) -> bool| #[trigger]
                            respects(compare, le, old(v)@) implies less(le, p, at(v@, last)) by {
                            assert(three_way(le, at(v@, last), v@[0]) == Ordering::Greater);
                            assert(le(v@[0], at(v@, last)));
                            assert(fat_regions(v@, a, b, c, d, p, le));
                        }
                    }
                },
            }
            c = last;
        }
        if b >= c {
            break ;
        }
        let last = c - 1;
        proof {
            lemma_swap_permutes(v@, b, last);
            assert(compare.ensures((&at(v@, b), &v@[0]), Ordering::Greater));
            assert(compare.ensures((&at(v@, last), &v@[0]), Ordering::Less));
            assert forall|le: spec_fn(T, T) -> bool| #[trigger]
                respects(compare, le, old(v)@) implies less(le, p, at(v@, b)) && less(
                le,
                at(v@, last),
                p,
            ) by {
                assert(three_way(le, at(v@, b), v@[0]) == Ordering::Greater);
                assert(three_way(le, at(v@, last), v@[0]) == Ordering::Less);
                assert(le(v@[0], at(v@, b)));
                assert(le(at(v@, last), v@[0]));
                assert(fat_regions(v@, a, b, c, d, p, le));
            }
        }
        v.swap(b, last);
        b += 1;
        c = last;
    }
    let l = if a <= b - a { a } else { b - a };
    let r = if d - c <= n - d { d - c } else { n - d };
    let counts = (b - a, d - c);
    let ghost scanned = v@;
    swap_many(v, 0, b - l, l);
    swap_many(v, b, n - r, r);
    proof {
        assert forall|le: spec_fn(T, T) -> bool| #[trigger] respects(compare, le, old(v)@) implies fat_partitioned(
            v@,
            counts.0,
            counts.1,
            p,
            le,
        ) by {
            lemma_fat_compact(scanned, a, b, d, p, le);
        }
        assert forall|le: spec_fn(T, T) -> bool| #[trigger] orders(compare, le, old(v)@) implies fat_partitioned(
            v@,
            counts.0,
            counts.1,
            p,
            le,
        ) by {
            lemma_orders(compare, le, old(v)@);
            assert(old(v)@.contains(p));
            lemma_fat_within(old(v)@, v@, counts.0, counts.1, p, le);
        }
    }
    counts
}

/// The slice in three blocks around the pivots at `lp` and `rp`: what
/// stands before `lp` is less than the left pivot, what stands after `rp`
/// is greater than the right pivot, and what stands between them lies
/// between the two.
pub open spec fn dual_partitioned<T>(s: Seq<T>, lp: usize, rp: usize, le: spec_fn(T, T) -> bool) -> bool {
    &&& lp < rp < s.len()
    &&& le(s[lp as int], s[rp as int])
    &&& forall|i: int| 0 <= i < lp ==> less(le, #[trigger] s[i], s[lp as int])
    &&& forall|i: int| lp < i < rp ==> le(s[lp as int], #[trigger] s[i]) && le(s[i], s[rp as int])
    &&& forall|i: int| rp < i < s.len() ==> less(le, s[rp as int], #[trigger] s[i])
}

/// The slice while it is being partitioned, with the left pivot at the
/// front and the right pivot at the back: from 1 up to `l` the elements
/// less than the left pivot, from `l` up to `m` those between the pivots,
/// and after `r` those greater than the right pivot.
pub open spec fn dual_regions<T>(
    s: Seq<T>,
    l: usize,
    m: usize,
    r: usize,
    le: spec_fn(T, T) -> bool,
) -> bool {
    &&& le(s[0], s[s.len() - 1])
    &&& forall|i: int| 1 <= i < l ==> less(le, #[trigger] s[i], s[0])
    &&& forall|i: int| l <= i < m ==> le(s[0], #[trigger] s[i]) && le(s[i], s[s.len() - 1])
    &&& forall|i: int| r < i < s.len() - 1 ==> less(le, s[s.len() - 1], #[trigger] s[i])
}

/// Puts the pivots, which stand at the front and at the back, where they
/// belong: the front one at `first` and the back one at `second`.
pub fn write_pivots<T>(v: &mut [T], first: usize, second: usize)
    requires
        first < old(v)@.len(),
        second < old(v)@.len(),
    ensures
        final(v)@ == swapped(swapped(old(v)@, 0, first as int), old(v)@.len() - 1, second as int),
        final(v)@.len() == old(v)@.len(),
        permutes(old(v)@, final(v)@),
{
    let n = v.len();
    proof {
        lemma_swap_permutes(v@, 0, first);
    }
    v.swap(0, first);
    proof {
        lemma_swap_permutes(v@, (n - 1) as usize, second);
    }
    v.swap(n - 1, second);
}

/// With the scan done, putting the pivots in place gives the three blocks.
pub proof fn lemma_dual_finish<T>(
    s: Seq<T>,
    l: usize,
    m: usize,
    r: usize,
    le: spec_fn(T, T) -> bool,
)
    requires
        1 <= l <= r + 1 <= m,
        r + 1 <= s.len() - 1,
        dual_regions(s, l, m, r, le),
    ensures
        dual_partitioned(
            swapped(swapped(s, 0, l - 1), s.len() - 1, r + 1),
            (l - 1) as usize,
            (r + 1) as usize,
            le,
        ),
{
    let t = swapped(swapped(s, 0, l - 1), s.len() - 1, r + 1);
    let (lp, rp) = (l - 1, r + 1);
    assert forall|i: int| 0 <= i < lp implies less(le, #[trigger] t[i], t[lp]) by {
        if i == 0 {
            assert(less(le, s[lp], s[0]));
        } else {
            assert(less(le, s[i], s[0]));
        }
    }
    assert forall|i: int| lp < i < rp implies le(t[lp], #[trigger] t[i]) && le(t[i], t[rp]) by {
        assert(le(s[0], s[i]) && le(s[i], s[s.len() - 1]));
    }
    assert forall|i: int| rp < i < s.len() implies less(le, t[rp], #[trigger] t[i]) by {
        if i == s.len() - 1 {
            assert(less(le, s[s.len() - 1], s[rp]));
        } else {
            assert(less(le, s[s.len() - 1], s[i]));
        }
    }
}

/// What is partitioned around two pivots by `le` within `s`, and holds
/// elements of `s` alone, is partitioned by `le`.
pub proof fn lemma_dual_within<T>(
    s: Seq<T>,
    t: Seq<T>,
    lp: usize,
    rp: usize,
    le: spec_fn(T, T) -> bool,
)
    requires
        permutes(s, t),
        crate::order::total_preorder_on(le, s),
        dual_partitioned(t, lp, rp, crate::order::within(le, s)),
    ensures
        dual_partitioned(t, lp, rp, le),
{
    crate::order::lemma_within(le, s);
    let g = crate::order::within(le, s);
    assert forall|i: int, j: int| 0 <= i < t.len() && 0 <= j < t.len() implies g(
        #[trigger] t[i],
        #[trigger] t[j],
    ) == le(t[i], t[j]) by {
        let k = crate::seqs::lemma_permutes_member(s, t, i);
        let m = crate::seqs::lemma_permutes_member(s, t, j);
    }
}

/// Partitions `v` around two pivots, the elements at `first` and `second`, into
/// the elements less than the smaller pivot, those between the pivots and
/// those greater than the larger pivot, and returns where the two pivots
/// stand in the end.
///
/// The result is a permutation of the input whatever `compare` answers, and
/// the left pivot stands before the right one. In every order by which
/// `compare` orders the elements of the slice, every element before the
/// left pivot is less than it, every element after the right pivot is
/// greater than it, and every element between the pivots lies between
/// them.
#[verifier::rlimit(40)]
pub fn dual_pivot_partition<T, C: Fn(&T, &T) -> Ordering>(
    v: &mut [T],
    first: usize,
    second: usize,
    compare: &C,
) -> (pivots: (usize, usize))
    requires
        0 < first < old(v)@.len() - 1,
        0 < second < old(v)@.len() - 1,
        first != second,
        callable_on(compare, old(v)@),
    ensures
        permutes(old(v)@, final(v)@),
        final(v)@.len() == old(v)@.len(),
        pivots.0 < pivots.1 < old(v)@.len(),
        forall|le: spec_fn(T, T) -> bool| #[trigger]
            orders(compare, le, old(v)@) ==> dual_partitioned(final(v)@, pivots.0, pivots.1, le),
{
    let n = v.len();
    let last = n - 1;
    if matches!(compare_idxs(v, first, second, compare), Ordering::Greater) {
        proof {
            lemma_swap_permutes(v@, first, second);
        }
        v.swap(first, second);
    }
    proof {
        assert(forall|le: spec_fn(T, T) -> bool| #[trigger]
            respects(compare, le, old(v)@) ==> le(at(v@, first), at(v@, second)));
        lemma_swap_permutes(v@, 0, first);
    }
    v.swap(0, first);
    proof {
        lemma_swap_permutes(v@, last, second);
    }
    v.swap(last, second);
    let mut l: usize = 1;
    let mut r: usize = n - 2;
    while l < last && matches!(compare_idxs(v, l, 0, compare), Ordering::Less)
        invariant
            n == v@.len() == old(v)@.len(),
            last == n - 1,
            1 <= l <= last,
            r == n - 2,
            callable_on(compare, v@),
            keeps_orders(compare, old(v)@, v@),
            forall|le: spec_fn(T, T) -> bool| #[trigger]
                respects(compare, le, old(v)@) ==> dual_regions(v@, l, l, r, le),
        decreases last - l,
    {
        l += 1;
    }
    while r > 0 && matches!(compare_idxs(v, r, last, compare), Ordering::Greater)
        invariant
            n == v@.len() == old(v)@.len(),
            last == n - 1,
            1 <= l <= last,
            r <= n - 2,
            callable_on(compare, v@),
            keeps_orders(compare, old(v)@, v@),
            forall|le: spec_fn(T, T) -> bool| #[trigger]
                respects(compare, le, old(v)@) ==> dual_regions(v@, l, l, r, le),
        decreases r,
    {
        r -= 1;
    }
    let mut m: usize = l;
    while m <= r
        invariant
            n == v@.len() == old(v)@.len(),
            last == n - 1,
            1 <= l <= m <= last,
            l <= last,
            r <= n - 2,
            permutes(old(v)@, v@),
            callable_on(compare, v@),
            keeps_orders(compare, old(v)@, v@),
            forall|le: spec_fn(T, T) -> bool| #[trigger]
                respects(compare, le, old(v)@) ==> dual_regions(v@, l, m, r, le) && (m <= r ==> le(
                    at(v@, r),
                    at(v@, last),
                )),
        decreases last - m,
    {
        let next = m + 1;
        if matches!(compare_idxs(v, m, 0, compare), Ordering::Less) {
            proof {
                lemma_swap_permutes(v@, m, l);
            }
            v.swap(m, l);
            l += 1;
        } else if matches!(compare_idxs(v, m, last, compare), Ordering::Greater) {
            if matches!(compare_idxs(v, r, 0, compare), Ordering::Less) {
                proof {
                    lemma_swap_permutes(v@, m, r);
                }
                v.swap(m, r);
                proof {
                    lemma_swap_permutes(v@, m, l);
                }
                v.swap(m, l);
                l += 1;
            } else {
                proof {
                    lemma_swap_permutes(v@, m, r);
                }
                v.swap(m, r);
            }
            r -= 1;
            let ghost bound = r;
            while m <= r && matches!(compare_idxs(v, r, last, compare), Ordering::Greater)
                invariant
                    n == v@.len() == old(v)@.len(),
                    last == n - 1,
                    1 <= m,
                    r <= bound,
                    1 <= l <= m + 1,
                    l <= last,
                    m <= n - 2,
                    r <= n - 2,
                    callable_on(compare, v@),
                    keeps_orders(compare, old(v)@, v@),
                    next == m + 1,
                    forall|le: spec_fn(T, T) -> bool| #[trigger]
                        respects(compare, le, old(v)@) ==> dual_regions(v@, l, next, r, le),
                decreases r,
            {
                r -= 1;
            }
        }
        m = next;
    }
    if l > r + 1 {
        // the scans have crossed, which no total preorder allows
        r = l - 1;
    }
    let pivots = (l - 1, r + 1);
    let ghost scanned = v@;
    write_pivots(v, pivots.0, pivots.1);
    proof {
        assert forall|le: spec_fn(T, T) -> bool| #[trigger]
            respects(compare, le, old(v)@) implies dual_partitioned(v@, pivots.0, pivots.1, le) by {
            lemma_dual_finish(scanned, l, m, r, le);
        }
        assert forall|le: spec_fn(T, T) -> bool| #[trigger]
            orders(compare, le, old(v)@) implies dual_partitioned(v@, pivots.0, pivots.1, le) by {
            lemma_orders(compare, le, old(v)@);
            lemma_dual_within(old(v)@, v@, pivots.0, pivots.1, le);
        }
    }
    pivots
}

} // verus!
