//! Heapsort on a 4-ary max-heap laid out in the slice: the children of the
//! element at `i` are the elements at `4 * i + 1` to `4 * i + 4`.

use vstd::prelude::*;
use vstd::relations::*;
use std::cmp::Ordering;
use crate::order::{
    respects, orders, within, three_way, callable_on, keeps_orders, compare_idxs,
    lemma_three_way, lemma_keeps_orders, lemma_sorted_by_orders, lemma_orders,
    lemma_within_agrees, lemma_respects_orders,
};
use crate::seqs::{
    at, swapped, permutes, is_total_preorder, lemma_swap_permutes, lemma_stays_below,
    lemma_total_preorder_reflexive,
};

verus! {

/// The position of the parent of the element at `i`, for `i > 0`.
pub open spec fn parent(i: int) -> int {
    (i - 1) / 4
}

/// Below `end`, every element whose parent stands at `start` or later is at
/// most its parent.
pub open spec fn heap_from<T>(s: Seq<T>, start: usize, end: usize, le: spec_fn(T, T) -> bool) -> bool {
    forall|i: int| 0 < i < end && start <= parent(i) ==> #[trigger] le(s[i], s[parent(i)])
}

/// Below `end`, every element whose parent stands after `pos` is at most its
/// parent.
pub open spec fn heap_after<T>(s: Seq<T>, pos: usize, end: usize, le: spec_fn(T, T) -> bool) -> bool {
    forall|i: int| 0 < i < end && pos < parent(i) ==> #[trigger] le(s[i], s[parent(i)])
}

/// Below `end`, every element that stands below `pos` in the tree is at
/// most its parent: what stands at `pos` and below it is a heap.
pub open spec fn heap_under<T>(s: Seq<T>, pos: usize, end: usize, le: spec_fn(T, T) -> bool) -> bool {
    forall|i: int|
        0 < i < end && descends(pos, parent(i) as usize) ==> #[trigger] le(s[i], s[parent(i)])
}

/// Below `end`, every element that stands below a child of `pos` in the
/// tree is at most its parent: what stands below `pos` are heaps.
pub open spec fn heaps_under<T>(s: Seq<T>, pos: usize, end: usize, le: spec_fn(T, T) -> bool) -> bool {
    forall|i: int|
        0 < i < end && parent(i) != pos && descends(pos, parent(i) as usize) ==> #[trigger] le(
            s[i],
            s[parent(i)],
        )
}

/// `t` is `s` but for the elements that stand at `pos` or below it in the
/// tree.
pub open spec fn same_off_tree<T>(s: Seq<T>, t: Seq<T>, pos: usize) -> bool {
    &&& s.len() == t.len()
    &&& forall|i: int| 0 <= i < s.len() && !descends(pos, i as usize) ==> #[trigger] t[i] == s[i]
}

/// The heap under `start` with the element at `pos` taken out of account:
/// every other element under `start` is at most its parent, and the
/// children of `pos` are at most the parent of `pos`.
pub open spec fn heap_except<T>(
    s: Seq<T>,
    start: usize,
    end: usize,
    pos: usize,
    le: spec_fn(T, T) -> bool,
) -> bool {
    &&& forall|i: int|
        0 < i < end && descends(start, parent(i) as usize) && i != pos && parent(i) != pos
            ==> #[trigger] le(s[i], s[parent(i)])
    &&& pos > start ==> forall|k: int|
        0 < k < end && parent(k) == pos ==> #[trigger] le(s[k], s[parent(pos as int)])
}

/// The children of `pos` below `end` are at most the element at `pos`.
pub open spec fn heap_below<T>(s: Seq<T>, end: usize, pos: usize, le: spec_fn(T, T) -> bool) -> bool {
    forall|k: int| 0 < k < end && parent(k) == pos ==> #[trigger] le(s[k], s[pos as int])
}

/// `pos` is `start` or stands below it in the tree.
pub open spec fn descends(start: usize, pos: usize) -> bool
    decreases pos,
{
    pos == start || (pos > start && descends(start, ((pos - 1) / 4) as usize))
}

/// Whatever stands below `start` has its parent at `start` or below it.
pub proof fn lemma_descends_parent(start: usize, pos: usize)
    requires
        descends(start, pos),
        pos > start,
    ensures
        start <= parent(pos as int) < pos,
        descends(start, ((pos - 1) / 4) as usize),
{
    reveal_with_fuel(descends, 2);
}

/// Taking the topmost element out of account costs nothing where the rest
/// is a heap.
pub proof fn lemma_heap_open<T>(s: Seq<T>, pos: usize, end: usize, le: spec_fn(T, T) -> bool)
    requires
        heaps_under(s, pos, end, le),
    ensures
        heap_except(s, pos, end, pos, le),
        descends(pos, pos),
{
}

/// A child of what stands under `start` stands under `start`.
pub proof fn lemma_descends_child(start: usize, pos: usize, child: usize)
    requires
        descends(start, pos),
        child > 0,
        parent(child as int) == pos,
    ensures
        descends(start, child),
{
    reveal_with_fuel(descends, 2);
}

/// Exchanging two elements that stand under `pos` leaves the rest as it
/// was.
pub proof fn lemma_swap_off_tree<T>(s: Seq<T>, t: Seq<T>, pos: usize, a: usize, b: usize)
    requires
        same_off_tree(s, t, pos),
        a < t.len(),
        b < t.len(),
        descends(pos, a),
        descends(pos, b),
    ensures
        same_off_tree(s, swapped(t, a as int, b as int), pos),
{
}

/// Heaps after `pos` are heaps under `pos`.
pub proof fn lemma_heaps_under<T>(s: Seq<T>, pos: usize, end: usize, le: spec_fn(T, T) -> bool)
    requires
        heap_after(s, pos, end, le),
    ensures
        heaps_under(s, pos, end, le),
{
    assert forall|i: int|
        0 < i < end && parent(i) != pos && descends(pos, parent(i) as usize) implies #[trigger] le(
        s[i],
        s[parent(i)],
    ) by {
        reveal_with_fuel(descends, 1);
    }
}

/// Where heaps stood after `pos`, and now a heap stands under `pos` with
/// nothing moved elsewhere, a heap stands from `pos` on.
pub proof fn lemma_heap_from_under<T>(
    s: Seq<T>,
    t: Seq<T>,
    pos: usize,
    end: usize,
    le: spec_fn(T, T) -> bool,
)
    requires
        end <= s.len(),
        heap_after(s, pos, end, le),
        heap_under(t, pos, end, le),
        same_off_tree(s, t, pos),
    ensures
        heap_from(t, pos, end, le),
{
    assert forall|i: int| 0 < i < end && pos <= parent(i) implies #[trigger] le(t[i], t[parent(i)]) by {
        if !descends(pos, parent(i) as usize) {
            reveal_with_fuel(descends, 2);
            assert(!descends(pos, i as usize));
            assert(t[i] == s[i]);
            assert(t[parent(i)] == s[parent(i)]);
            assert(le(s[i], s[parent(i)]));
        }
    }
}

/// Exchanging the element at `pos` with its largest child moves the gap
/// one level down.
pub proof fn lemma_sift_down_step<T>(
    s: Seq<T>,
    start: usize,
    end: usize,
    pos: usize,
    child: usize,
    le: spec_fn(T, T) -> bool,
)
    requires
        pre_ordering(le),
        start <= pos,
        child < end <= s.len(),
        child > 0,
        parent(child as int) == pos,
        descends(start, pos),
        heap_except(s, start, end, pos, le),
        forall|k: int| 0 < k < end && parent(k) == pos ==> #[trigger] le(s[k], s[child as int]),
    ensures
        heap_except(swapped(s, pos as int, child as int), start, end, child, le),
        descends(start, child),
{
    let t = swapped(s, pos as int, child as int);
    assert(descends(start, child)) by {
        reveal_with_fuel(descends, 2);
    }
    assert forall|i: int|
        0 < i < end && descends(start, parent(i) as usize) && i != child && parent(i)
            != child implies #[trigger] le(t[i], t[parent(i)]) by {
        if parent(i) == pos {
            assert(le(s[i], s[child as int]));
        } else if i == pos {
            reveal_with_fuel(descends, 1);
            assert(le(s[child as int], s[parent(pos as int)]));
        } else {
            assert(le(s[i], s[parent(i)]));
        }
    }
    assert forall|k: int| 0 < k < end && parent(k) == child implies #[trigger] le(
        t[k],
        t[parent(child as int)],
    ) by {
        assert(le(s[k], s[parent(k)]));
    }
    assert(descends(start, child)) by {
        reveal_with_fuel(descends, 2);
    }
}

/// Exchanging the element at `pos` with a parent that is at most it moves
/// the gap one level up.
pub proof fn lemma_sift_up_step<T>(
    s: Seq<T>,
    start: usize,
    end: usize,
    pos: usize,
    le: spec_fn(T, T) -> bool,
)
    requires
        pre_ordering(le),
        start < pos < end <= s.len(),
        descends(start, pos),
        heap_except(s, start, end, pos, le),
        heap_below(s, end, pos, le),
        le(s[parent(pos as int)], s[pos as int]),
    ensures
        start <= parent(pos as int),
        heap_except(swapped(s, pos as int, parent(pos as int)), start, end, ((pos - 1) / 4) as usize, le),
        heap_below(swapped(s, pos as int, parent(pos as int)), end, ((pos - 1) / 4) as usize, le),
        descends(start, ((pos - 1) / 4) as usize),
{
    let up = parent(pos as int);
    let t = swapped(s, pos as int, up);
    lemma_descends_parent(start, pos);
    assert forall|i: int|
        0 < i < end && descends(start, parent(i) as usize) && i != up && parent(i)
            != up implies #[trigger] le(t[i], t[parent(i)]) by {
        if parent(i) == pos {
            assert(le(s[i], s[parent(pos as int)]));
        } else {
            assert(le(s[i], s[parent(i)]));
        }
    }
    assert forall|k: int| 0 < k < end && parent(k) == up implies #[trigger] le(t[k], t[up]) by {
        if k != pos {
            assert(le(s[k], s[parent(k)]));
        }
    }
    if up > start {
        lemma_descends_parent(start, up as usize);
        assert(le(s[up], s[parent(up)]));
        assert forall|k: int| 0 < k < end && parent(k) == up implies #[trigger] le(
            t[k],
            t[parent(up)],
        ) by {
            if k != pos {
                assert(le(s[k], s[parent(k)]));
            }
        }
    }
}

/// Once the element at `pos` is at most its parent and at least its
/// children, the heap is whole.
pub proof fn lemma_sift_done<T>(
    s: Seq<T>,
    start: usize,
    end: usize,
    pos: usize,
    le: spec_fn(T, T) -> bool,
)
    requires
        start <= pos,
        heap_except(s, start, end, pos, le),
        heap_below(s, end, pos, le),
        descends(start, pos),
        pos > start ==> le(s[pos as int], s[parent(pos as int)]),
    ensures
        heap_under(s, start, end, le),
{
    assert forall|i: int| 0 < i < end && descends(start, parent(i) as usize) implies #[trigger] le(
        s[i],
        s[parent(i)],
    ) by {
        if i == pos {
            reveal_with_fuel(descends, 1);
        }
    }
}

/// In a heap under `pos`, the element at `pos` is at least every element
/// under it.
pub proof fn lemma_heap_under_max<T>(
    s: Seq<T>,
    pos: usize,
    end: usize,
    le: spec_fn(T, T) -> bool,
    i: usize,
)
    requires
        pre_ordering(le),
        heap_under(s, pos, end, le),
        i < end,
        descends(pos, i),
    ensures
        le(s[i as int], s[pos as int]),
    decreases i,
{
    if i != pos {
        lemma_descends_parent(pos, i);
        lemma_heap_under_max(s, pos, end, le, ((i - 1) / 4) as usize);
        assert(le(s[i as int], s[parent(i as int)]));
    }
}

/// In a heap that starts at the root, the root is at least every element.
pub proof fn lemma_heap_root_max<T>(s: Seq<T>, end: usize, le: spec_fn(T, T) -> bool, i: int)
    requires
        pre_ordering(le),
        heap_from(s, 0, end, le),
        0 <= i < end,
    ensures
        le(s[i], s[0]),
    decreases i,
{
    if i > 0 {
        lemma_heap_root_max(s, end, le, parent(i));
        assert(le(s[i], s[parent(i)]));
    }
}

/// A heap from `start` below `end`, but for the element at `pos`, which may
/// be greater than its parent.
pub open spec fn heap_but_up<T>(
    s: Seq<T>,
    start: usize,
    end: usize,
    pos: usize,
    le: spec_fn(T, T) -> bool,
) -> bool {
    &&& pos < end <= s.len()
    &&& heap_except(s, start, end, pos, le)
    &&& heap_below(s, end, pos, le)
}

/// The element at `child` is a child of the element at `pos`, below `end`,
/// and at least every child of it below `end`.
pub open spec fn largest_child<T>(
    s: Seq<T>,
    end: usize,
    pos: usize,
    child: usize,
    le: spec_fn(T, T) -> bool,
) -> bool {
    &&& 0 < child < end <= s.len()
    &&& parent(child as int) == pos
    &&& forall|k: int| 0 < k < end && parent(k) == pos ==> #[trigger] le(s[k], s[child as int])
}

/// The child found by comparing the first two children, the last two, and
/// the larger of each pair, is the largest.
pub proof fn lemma_largest_child<T>(
    s: Seq<T>,
    end: usize,
    pos: usize,
    child: usize,
    le: spec_fn(T, T) -> bool,
)
    requires
        is_total_preorder(le),
        4 * pos + 2 < end <= s.len(),
        ({
            let left = 4 * pos + 1;
            let largest_left = if three_way(le, s[left], s[left + 1]) == Ordering::Less {
                left + 1
            } else {
                left
            };
            let largest_right = if left + 3 < end && three_way(le, s[left + 2], s[left + 3])
                == Ordering::Less {
                left + 3
            } else {
                left + 2
            };
            child == if left + 2 < end && three_way(le, s[largest_left], s[largest_right])
                == Ordering::Less {
                largest_right
            } else {
                largest_left
            }
        }),
    ensures
        largest_child(s, end, pos, child, le),
{
    lemma_total_preorder_reflexive(le);
    let left = 4 * pos + 1;
    let largest_left = if three_way(le, s[left], s[left + 1]) == Ordering::Less {
        left + 1
    } else {
        left
    };
    let largest_right = if left + 3 < end && three_way(le, s[left + 2], s[left + 3])
        == Ordering::Less {
        left + 3
    } else {
        left + 2
    };
    lemma_three_way(le, s[left], s[left + 1]);
    lemma_three_way(le, s[left + 2], s[left + 3]);
    lemma_three_way(le, s[largest_left], s[largest_right]);
    assert(le(s[left], s[largest_left]) && le(s[left + 1], s[largest_left]));
    assert(le(s[left + 2], s[largest_right]));
    assert(left + 3 < end ==> le(s[left + 3], s[largest_right]));
    assert forall|k: int| 0 < k < end && parent(k) == pos implies #[trigger] le(
        s[k],
        at(s, child),
    ) by {
        assert(left <= k <= left + 3);
        if k <= left + 1 {
            assert(le(s[k], s[largest_left]));
            assert(le(s[largest_left], at(s, child)));
        } else {
            assert(le(s[k], s[largest_right]));
            assert(le(s[largest_right], at(s, child)));
        }
    }
}

/// Moves the element at `pos` up, towards `start`, while it is greater than
/// its parent.
///
/// The result is a permutation of the input whatever `compare` answers, and
/// only elements that stand at `start` or below it, and not after `pos`,
/// are moved. In every order by which `compare` orders the elements of
/// the slice, if what stands under `start` was a heap, up to any end, but
/// for the element at `pos`, it is a heap up to that end.
#[verifier::rlimit(40)]
pub fn siftup<T, C: Fn(&T, &T) -> Ordering>(v: &mut [T], start: usize, pos: usize, compare: &C)
    requires
        pos < old(v)@.len(),
        descends(start, pos),
        callable_on(compare, old(v)@),
    ensures
        permutes(old(v)@, final(v)@),
        final(v)@.len() == old(v)@.len(),
        callable_on(compare, final(v)@),
        forall|i: int| 0 <= i < start || pos < i < old(v)@.len() ==> final(v)@[i] == old(v)@[i],
        same_off_tree(old(v)@, final(v)@, start),
        pos == start ==> final(v)@ == old(v)@,
        forall|le: spec_fn(T, T) -> bool, end: usize|
            orders(compare, le, old(v)@) && #[trigger] heap_but_up(old(v)@, start, end, pos, le)
                ==> heap_under(final(v)@, start, end, le),
{
    let mut cur = pos;
    while cur > start && matches!(compare_idxs(v, cur, (cur - 1) / 4, compare), Ordering::Greater)
        invariant
            v@.len() == old(v)@.len(),
            start <= cur <= pos < v@.len(),
            descends(start, cur),
            permutes(old(v)@, v@),
            callable_on(compare, v@),
            keeps_orders(compare, old(v)@, v@),
            forall|i: int| 0 <= i < start || pos < i < v@.len() ==> v@[i] == old(v)@[i],
            same_off_tree(old(v)@, v@, start),
            cur == pos ==> v@ == old(v)@,
            forall|le: spec_fn(T, T) -> bool, end: usize|
                respects(compare, le, old(v)@) && #[trigger] heap_but_up(old(v)@, start, end, pos, le)
                    ==> heap_but_up(v@, start, end, cur, le),
        decreases cur,
    {
        let up = (cur - 1) / 4;
        let ghost before = v@;
        proof {
            lemma_descends_parent(start, cur);
            lemma_swap_permutes(v@, cur, up);
            lemma_swap_off_tree(old(v)@, v@, start, cur, up);
            assert(compare.ensures((&at(v@, cur), &at(v@, up)), Ordering::Greater));
        }
        v.swap(cur, up);
        proof {
            assert forall|le: spec_fn(T, T) -> bool, end: usize|
                respects(compare, le, old(v)@) && #[trigger] heap_but_up(
                    old(v)@,
                    start,
                    end,
                    pos,
                    le,
                ) implies heap_but_up(v@, start, end, up, le) by {
                lemma_three_way(le, at(before, cur), at(before, up));
                lemma_total_preorder_reflexive(le);
                lemma_sift_up_step(before, start, end, cur, le);
            }
        }
        cur = up;
    }
    proof {
        assert forall|le: spec_fn(T, T) -> bool, end: usize|
            respects(compare, le, old(v)@) && #[trigger] heap_but_up(
                old(v)@,
                start,
                end,
                pos,
                le,
            ) implies heap_under(v@, start, end, le) by {
            if cur > start {
                lemma_three_way(le, at(v@, cur), v@[(cur - 1) / 4]);
            }
            lemma_sift_done(v@, start, end, cur, le);
        }
        assert forall|le: spec_fn(T, T) -> bool, end: usize|
            orders(compare, le, old(v)@) && #[trigger] heap_but_up(
                old(v)@,
                start,
                end,
                pos,
                le,
            ) implies heap_under(v@, start, end, le) by {
            let g = within(le, old(v)@);
            lemma_orders(compare, le, old(v)@);
            lemma_within_agrees(le, old(v)@, old(v)@);
            lemma_within_agrees(le, old(v)@, v@);
            assert(heap_but_up(old(v)@, start, end, pos, g));
            assert(heap_under(v@, start, end, g));
        }
    }
}

/// Finds the largest child, below `end`, of the element at `pos`, which has
/// two children at least: the larger of the first two is compared with the
/// larger of the last two.
///
/// In every order by which `compare` orders the elements of the slice, the
/// child returned is at least every child below `end`.
#[verifier::rlimit(40)]
pub fn find_largest_child<T, C: Fn(&T, &T) -> Ordering>(
    v: &[T],
    pos: usize,
    end: usize,
    compare: &C,
) -> (child: usize)
    requires
        end <= v@.len(),
        end >= 3,
        pos <= (end - 3) / 4,
        callable_on(compare, v@),
    ensures
        4 * pos < child <= 4 * pos + 4,
        child < end,
        forall|le: spec_fn(T, T) -> bool| #[trigger]
            orders(compare, le, v@) ==> largest_child(v@, end, pos, child, le),
{
    let m_left = 4 * pos + 2;
    let left = m_left - 1;
    let m_right = m_left + 1;
    let largest_left = if matches!(compare_idxs(v, left, m_left, compare), Ordering::Less) {
        m_left
    } else {
        left
    };
    let child = if m_right < end {
        let right = m_right + 1;
        let largest_right = if right < end && matches!(
            compare_idxs(v, m_right, right, compare),
            Ordering::Less
        ) {
            right
        } else {
            m_right
        };
        if matches!(compare_idxs(v, largest_left, largest_right, compare), Ordering::Less) {
            largest_right
        } else {
            largest_left
        }
    } else {
        largest_left
    };
    proof {
        assert forall|le: spec_fn(T, T) -> bool| #[trigger] respects(compare, le, v@) implies largest_child(
            v@,
            end,
            pos,
            child,
            le,
        ) by {
            lemma_largest_child(v@, end, pos, child, le);
        }
        assert forall|le: spec_fn(T, T) -> bool| #[trigger] orders(compare, le, v@) implies largest_child(
            v@,
            end,
            pos,
            child,
            le,
        ) by {
            let g = within(le, v@);
            lemma_orders(compare, le, v@);
            lemma_within_agrees(le, v@, v@);
            assert(largest_child(v@, end, pos, child, g));
        }
    }
    child
}

/// Restores the heap below `end` after the element at `pos` was replaced:
/// the element travels down along the largest children to a leaf and is
/// then moved up again to where it belongs.
///
/// The result is a permutation of the input whatever `compare` answers, and
/// only elements below `end` that stand at `pos` or below it in the tree
/// are moved. In every order by which `compare` orders the elements of
/// the slice: if what stands below `pos` were heaps, what stands at `pos`
/// and below it is a heap; and if every element after `pos` whose parent
/// stands after `pos` was at most its parent, every element from `pos` on
/// is.
#[verifier::rlimit(40)]
pub fn siftdown_range<T, C: Fn(&T, &T) -> Ordering>(
    v: &mut [T],
    pos: usize,
    end: usize,
    compare: &C,
)
    requires
        pos < old(v)@.len(),
        end <= old(v)@.len(),
        callable_on(compare, old(v)@),
    ensures
        permutes(old(v)@, final(v)@),
        final(v)@.len() == old(v)@.len(),
        callable_on(compare, final(v)@),
        forall|i: int| 0 <= i < pos || end <= i < old(v)@.len() ==> final(v)@[i] == old(v)@[i],
        same_off_tree(old(v)@, final(v)@, pos),
        forall|le: spec_fn(T, T) -> bool| #[trigger]
            orders(compare, le, old(v)@) && heaps_under(old(v)@, pos, end, le) ==> heap_under(
                final(v)@,
                pos,
                end,
                le,
            ),
        forall|le: spec_fn(T, T) -> bool| #[trigger]
            orders(compare, le, old(v)@) && heap_after(old(v)@, pos, end, le) ==> heap_from(
                final(v)@,
                pos,
                end,
                le,
            ),
{
    let mut cur = pos;
    proof {
        assert forall|le: spec_fn(T, T) -> bool| #[trigger]
            respects(compare, le, old(v)@) && heaps_under(old(v)@, pos, end, le) implies heap_except(
            v@,
            pos,
            end,
            cur,
            le,
        ) by {
            lemma_heap_open(v@, pos, end, le);
        }
        reveal_with_fuel(descends, 1);
    }
    while end >= 3 && cur <= (end - 3) / 4
        invariant
            v@.len() == old(v)@.len(),
            pos <= cur < v@.len(),
            end <= v@.len(),
            cur == pos || cur < end,
            descends(pos, cur),
            permutes(old(v)@, v@),
            callable_on(compare, v@),
            keeps_orders(compare, old(v)@, v@),
            forall|i: int| 0 <= i < pos || end <= i < v@.len() ==> v@[i] == old(v)@[i],
            same_off_tree(old(v)@, v@, pos),
            forall|le: spec_fn(T, T) -> bool| #[trigger]
                respects(compare, le, old(v)@) && heaps_under(old(v)@, pos, end, le) ==> heap_except(
                    v@,
                    pos,
                    end,
                    cur,
                    le,
                ),
        decreases end - cur,
    {
        proof {
            lemma_respects_orders(compare, v@);
        }
        let child = find_largest_child(v, cur, end, compare);
        let ghost before = v@;
        proof {
            lemma_swap_permutes(v@, cur, child);
            lemma_descends_child(pos, cur, child);
            lemma_swap_off_tree(old(v)@, v@, pos, cur, child);
        }
        v.swap(cur, child);
        proof {
            assert forall|le: spec_fn(T, T) -> bool| #[trigger]
                respects(compare, le, old(v)@) && heaps_under(old(v)@, pos, end, le) implies heap_except(
                v@,
                pos,
                end,
                child,
                le,
            ) by {
                assert(respects(compare, le, before));
                lemma_total_preorder_reflexive(le);
                lemma_sift_down_step(before, pos, end, cur, child, le);
            }
        }
        cur = child;
    }
    if end >= 2 && cur <= (end - 2) / 4 {
        let left = 4 * cur + 1;
        let ghost before = v@;
        proof {
            lemma_swap_permutes(v@, cur, left);
            lemma_descends_child(pos, cur, left);
            lemma_swap_off_tree(old(v)@, v@, pos, cur, left);
        }
        v.swap(cur, left);
        proof {
            assert forall|le: spec_fn(T, T) -> bool| #[trigger]
                respects(compare, le, old(v)@) && heaps_under(old(v)@, pos, end, le) implies heap_except(
                v@,
                pos,
                end,
                left,
                le,
            ) by {
                lemma_total_preorder_reflexive(le);
                lemma_sift_down_step(before, pos, end, cur, left, le);
            }
        }
        cur = left;
    }
    let ghost down = v@;
    proof {
        assert forall|le: spec_fn(T, T) -> bool| #[trigger]
            respects(compare, le, old(v)@) && heaps_under(old(v)@, pos, end, le) && cur
            < end implies heap_but_up(v@, pos, end, cur, le) by {}
    }
    proof {
        lemma_respects_orders(compare, down);
    }
    siftup(v, pos, cur, compare);
    proof {
        assert(same_off_tree(old(v)@, v@, pos));
        assert forall|le: spec_fn(T, T) -> bool| #[trigger]
            respects(compare, le, old(v)@) && heaps_under(old(v)@, pos, end, le) implies heap_under(
            v@,
            pos,
            end,
            le,
        ) by {
            if cur < end {
                assert(heap_but_up(down, pos, end, cur, le));
            } else {
                reveal_with_fuel(descends, 1);
            }
        }
        assert forall|le: spec_fn(T, T) -> bool| #[trigger]
            orders(compare, le, old(v)@) && heaps_under(old(v)@, pos, end, le) implies heap_under(
            v@,
            pos,
            end,
            le,
        ) by {
            let g = within(le, old(v)@);
            lemma_orders(compare, le, old(v)@);
            lemma_within_agrees(le, old(v)@, old(v)@);
            lemma_within_agrees(le, old(v)@, v@);
            assert(heaps_under(old(v)@, pos, end, g));
            assert(heap_under(v@, pos, end, g));
        }
        assert forall|le: spec_fn(T, T) -> bool| #[trigger]
            orders(compare, le, old(v)@) && heap_after(old(v)@, pos, end, le) implies heap_from(
            v@,
            pos,
            end,
            le,
        ) by {
            lemma_heaps_under(old(v)@, pos, end, le);
            lemma_heap_from_under(old(v)@, v@, pos, end, le);
        }
    }
}

/// Restores the heap over the whole slice after the element at `pos` was
/// replaced.
///
/// The result is a permutation of the input whatever `compare` answers, and
/// only elements that stand at `pos` or below it in the tree are moved. In
/// every order by which `compare` orders the elements of the slice: if
/// what stands below `pos` were heaps, what stands at `pos` and below it is
/// a heap; and if every element after `pos` whose parent stands after
/// `pos` was at most its parent, every element from `pos` on is.
pub fn siftdown<T, C: Fn(&T, &T) -> Ordering>(v: &mut [T], pos: usize, compare: &C)
    requires
        pos < old(v)@.len(),
        callable_on(compare, old(v)@),
    ensures
        permutes(old(v)@, final(v)@),
        final(v)@.len() == old(v)@.len(),
        callable_on(compare, final(v)@),
        forall|i: int| 0 <= i < pos ==> final(v)@[i] == old(v)@[i],
        same_off_tree(old(v)@, final(v)@, pos),
        forall|le: spec_fn(T, T) -> bool| #[trigger]
            orders(compare, le, old(v)@) && heaps_under(old(v)@, pos, old(v).len(), le) ==> heap_under(
                final(v)@,
                pos,
                old(v).len(),
                le,
            ),
        forall|le: spec_fn(T, T) -> bool| #[trigger]
            orders(compare, le, old(v)@) && heap_after(old(v)@, pos, old(v).len(), le) ==> heap_from(
                final(v)@,
                pos,
                old(v).len(),
                le,
            ),
{
    let len = v.len();
    siftdown_range(v, pos, len, compare);
}

/// Arranges the slice as a heap, from the last parent back to the root.
///
/// The result is a permutation of the input whatever `compare` answers. In
/// every order by which `compare` orders the elements of the slice it is a
/// heap: each element is at most its parent.
pub fn heapify<T, C: Fn(&T, &T) -> Ordering>(v: &mut [T], compare: &C)
    requires
        callable_on(compare, old(v)@),
    ensures
        permutes(old(v)@, final(v)@),
        final(v)@.len() == old(v)@.len(),
        callable_on(compare, final(v)@),
        forall|le: spec_fn(T, T) -> bool| #[trigger]
            orders(compare, le, old(v)@) ==> heap_from(final(v)@, 0, old(v).len(), le),
{
    let len = v.len();
    if len == 0 {
        return ;
    }
    let mut n: usize = (len - 1) / 4 + 1;
    while n > 0
        invariant
            len == v@.len() == old(v)@.len(),
            n <= len,
            permutes(old(v)@, v@),
            callable_on(compare, v@),
            keeps_orders(compare, old(v)@, v@),
            forall|le: spec_fn(T, T) -> bool| #[trigger]
                respects(compare, le, old(v)@) ==> heap_from(v@, n, len, le),
        decreases n,
    {
        n -= 1;
        proof {
            lemma_respects_orders(compare, v@);
        }
        siftdown(v, n, compare);
        proof {
            lemma_keeps_orders(compare, old(v)@, v@);
        }
    }
    proof {
        assert forall|le: spec_fn(T, T) -> bool| #[trigger] orders(compare, le, old(v)@) implies heap_from(
            v@,
            0,
            len,
            le,
        ) by {
            let g = within(le, old(v)@);
            lemma_orders(compare, le, old(v)@);
            lemma_within_agrees(le, old(v)@, v@);
            assert(heap_from(v@, 0, len, g));
        }
    }
}

/// The first `end` elements are a heap, the elements from `end` on are
/// sorted, and none of them is less than any element before it.
pub open spec fn heap_then_sorted<T>(s: Seq<T>, end: usize, le: spec_fn(T, T) -> bool) -> bool {
    &&& heap_from(s, 0, end, le)
    &&& forall|p: int, q: int| 0 <= p < q < s.len() && end <= q ==> #[trigger] le(s[p], s[q])
}

/// Exchanging the root of the heap with its last element leaves a heap
/// after the root, one element shorter, and the sorted part one element
/// longer.
pub proof fn lemma_take_root<T>(s: Seq<T>, end: usize, le: spec_fn(T, T) -> bool)
    requires
        is_total_preorder(le),
        0 < end <= s.len(),
        heap_then_sorted(s, end, le),
    ensures
        heap_after(swapped(s, 0, end - 1), 0, (end - 1) as usize, le),
        forall|p: int, q: int|
            0 <= p < q < s.len() && end - 1 <= q ==> #[trigger] le(
                swapped(s, 0, end - 1)[p],
                swapped(s, 0, end - 1)[q],
            ),
{
    lemma_total_preorder_reflexive(le);
    let t = swapped(s, 0, end - 1);
    assert forall|p: int| 0 <= p < end implies #[trigger] le(s[p], s[0]) by {
        lemma_heap_root_max(s, end, le, p);
    }
    assert forall|p: int, q: int| 0 <= p < q < s.len() && end - 1 <= q implies #[trigger] le(
        t[p],
        t[q],
    ) by {
        if q == end - 1 {
            assert(le(s[p], s[0]));
            assert(le(s[q], s[0]));
        } else {
            assert(le(s[p], s[q]));
            assert(le(s[0], s[q]));
            assert(le(s[end - 1], s[q]));
        }
    }
    assert forall|i: int| 0 < i < end - 1 && 0 < parent(i) implies #[trigger] le(
        t[i],
        t[parent(i)],
    ) by {
        assert(le(s[i], s[parent(i)]));
    }
}

/// Sorts `v` by heapsort.
///
/// The result is a permutation of the input whatever `compare` answers,
/// and it is sorted by every order by which `compare` orders the elements
/// of the slice.
#[verifier::rlimit(40)]
pub fn heapsort<T, C: Fn(&T, &T) -> Ordering>(v: &mut [T], compare: &C)
    requires
        old(v)@.len() > 1 ==> callable_on(compare, old(v)@),
    ensures
        permutes(old(v)@, final(v)@),
        final(v)@.len() == old(v)@.len(),
        forall|le: spec_fn(T, T) -> bool| #[trigger] orders(compare, le, old(v)@) ==> sorted_by(final(v)@, le),
        old(v)@.len() <= 1 ==> final(v)@ == old(v)@,
{
    let len = v.len();
    if len <= 1 {
        proof {
            lemma_sorted_by_orders(compare, old(v)@, v@);
        }
        return ;
    }
    let mut end = len;
    proof {
        lemma_respects_orders(compare, v@);
    }
    heapify(v, compare);
    proof {
        lemma_keeps_orders(compare, old(v)@, v@);
    }
    while end > 0
        invariant
            len == v@.len() == old(v)@.len(),
            end <= len,
            permutes(old(v)@, v@),
            callable_on(compare, v@),
            keeps_orders(compare, old(v)@, v@),
            forall|le: spec_fn(T, T) -> bool| #[trigger]
                respects(compare, le, old(v)@) ==> heap_then_sorted(v@, end, le),
        decreases end,
    {
        let ghost heaped = end;
        let ghost before = v@;
        end -= 1;
        proof {
            lemma_swap_permutes(v@, 0, end);
        }
        v.swap(0, end);
        let ghost top = v@;
        proof {
            lemma_respects_orders(compare, top);
            assert forall|le: spec_fn(T, T) -> bool| #[trigger]
                respects(compare, le, old(v)@) implies heap_after(top, 0, end, le) by {
                lemma_take_root(before, heaped, le);
            }
        }
        siftdown_range(v, 0, end, compare);
        proof {
            lemma_keeps_orders(compare, old(v)@, v@);
            assert forall|le: spec_fn(T, T) -> bool| #[trigger]
                respects(compare, le, old(v)@) implies heap_then_sorted(v@, end, le) by {
                assert(respects(compare, le, top));
                lemma_take_root(before, heaped, le);
                lemma_stays_below(top, v@, end, le);
            }
        }
    }
    proof {
        assert(forall|le: spec_fn(T, T) -> bool| #[trigger]
            respects(compare, le, old(v)@) ==> sorted_by(v@, le));
        lemma_sorted_by_orders(compare, old(v)@, v@);
    }
}

} // verus!
