//! Cycle sort: each element is written straight to the position where it belongs, the
//! element found there is taken up in turn, until the cycle closes. Unstable, O(N²)
//! comparisons, at most N moves.

use crate::order::{
    compares_by, is_total_order, le, lemma_lt_le_trans, lemma_natural_comparators, lemma_total, lt,
    natural,
    natural_compare, ordering_of, permutes, reversed, reversed_compare, sorted, sorted_range, total_preorder,
};
use crate::perm::{
    lemma_filter_all, lemma_filter_len_multiset, lemma_permutes_range_all, lemma_permutes_range_trans, lemma_permutes_range_whole,
    lemma_swap_range, permutes_range,
};
use crate::stable::ties;
use crate::swap::swap;
use core::cmp::Ordering;
use vstd::laws_cmp::obeys_cmp;
use vstd::multiset::Multiset;
use vstd::prelude::*;

verus! {

/// Sorts `array` in ascending order with cycle sort.
pub fn sort<T: Ord>(array: &mut [T])
    requires
        obeys_cmp::<T>(),
    ensures
        sorted(natural::<T>(), final(array)@),
        permutes(final(array)@, old(array)@),
{
    proof {
        lemma_natural_comparators::<T>();
    }
    cycle_sort_impl(array, &natural_compare::<T>, Ghost(natural::<T>()));
}

/// Sorts `array` in descending order with cycle sort.
pub fn sort_reverse<T: Ord>(array: &mut [T])
    requires
        obeys_cmp::<T>(),
    ensures
        sorted(reversed::<T>(), final(array)@),
        permutes(final(array)@, old(array)@),
{
    proof {
        lemma_natural_comparators::<T>();
    }
    cycle_sort_impl(array, &reversed_compare::<T>, Ghost(reversed::<T>()));
}

/// Sorts `array` into the order that `compare` gives, with cycle sort.
pub fn sort_by<T, F: Fn(&T, &T) -> Ordering>(array: &mut [T], compare: F)
    requires
        is_total_order(compare),
    ensures
        sorted(ordering_of(compare), final(array)@),
        permutes(final(array)@, old(array)@),
{
    cycle_sort_impl(array, &compare, Ghost(ordering_of(compare)))
}

/// The elements that `r` places strictly before `x`.
pub open spec fn before<T>(r: spec_fn(T, T) -> Ordering, x: T) -> spec_fn(T) -> bool {
    |y: T| r(y, x) == Ordering::Less
}

/// Where the elements that `r` deems equal to `x` begin, counted from the start of
/// the elements `m` that remain to be placed: how many of them come strictly before `x`.
pub open spec fn rank_in<T>(r: spec_fn(T, T) -> Ordering, m: Multiset<T>, x: T) -> int {
    m.filter(before(r, x)).len() as int
}

/// How many of the elements `m` that remain to be placed `r` deems equal to `x`.
pub open spec fn ties_in<T>(r: spec_fn(T, T) -> Ordering, m: Multiset<T>, x: T) -> int {
    m.filter(ties(r, x)).len() as int
}

/// Position `p` holds an element inside the span of positions where elements equal to
/// it belong, counting from `start`.
pub open spec fn in_place<T>(r: spec_fn(T, T) -> Ordering, m: Multiset<T>, start: int, s: Seq<T>, p: int) -> bool {
    start + rank_in(r, m, s[p]) <= p < start + rank_in(r, m, s[p]) + ties_in(r, m, s[p])
}

/// The elements before `x` and those equal to it are at most all of them.
proof fn lemma_rank_ties_bound<T>(r: spec_fn(T, T) -> Ordering, m: Multiset<T>, x: T)
    ensures
        rank_in(r, m, x) + ties_in(r, m, x) <= m.len(),
{
    broadcast use vstd::multiset::group_multiset_axioms;

    let a = m.filter(before(r, x));
    let b = m.filter(ties(r, x));
    assert(a.add(b).subset_of(m));
    vstd::multiset::axiom_len_sub(m, a.add(b));
}

/// The span of an element strictly before `x` ends where that of `x` may begin.
proof fn lemma_spans_apart<T>(r: spec_fn(T, T) -> Ordering, m: Multiset<T>, y: T, x: T)
    requires
        total_preorder(r),
        lt(r, y, x),
    ensures
        rank_in(r, m, y) + ties_in(r, m, y) <= rank_in(r, m, x),
{
    broadcast use vstd::multiset::group_multiset_axioms;

    let a = m.filter(before(r, y));
    let b = m.filter(ties(r, y));
    let c = m.filter(before(r, x));
    assert forall|v: T| #[trigger] a.add(b).count(v) <= c.count(v) by {
        if r(v, y) == Ordering::Less {
            lemma_lt_le_trans(r, v, y, x);
        } else if r(v, y) == Ordering::Equal {
            lemma_lt_le_trans(r, v, y, x);
        }
    }
    assert(a.add(b).subset_of(c));
    vstd::multiset::axiom_len_sub(c, a.add(b));
}

fn cycle_sort_impl<T, F: Fn(&T, &T) -> Ordering>(
    array: &mut [T],
    compare: &F,
    Ghost(r): Ghost<spec_fn(T, T) -> Ordering>,
)
    requires
        compares_by(*compare, r),
    ensures
        sorted(r, final(array)@),
        permutes(final(array)@, old(array)@),
{
    let ghost initial = array@;
    let n = array.len();
    let mut start: usize = 0;
    while n - start > 1
        invariant
            compares_by(*compare, r),
            n == array@.len(),
            start <= n,
            permutes(array@, initial),
            sorted_range(r, array@, 0, start as int),
            forall|p: int, q: int| 0 <= p < start <= q < n ==> le(r, #[trigger] array@[p], #[trigger] array@[q]),
        decreases n - start,
    {
        let ghost before_cycle = array@;
        place_cycle(array, start, compare, Ghost(r));
        proof {
            lemma_permutes_range_whole(array@, before_cycle, start as int, n as int);
            let above = |x: T| forall|p: int| 0 <= p < start ==> le(r, #[trigger] before_cycle[p], x);
            assert forall|k: int| start <= k < n implies #[trigger] above(before_cycle[k]) by {}
            lemma_permutes_range_all(array@, before_cycle, start as int, n as int, above);
            assert forall|p: int, q: int| 0 <= p < start + 1 <= q < n implies le(r, #[trigger] array@[p], #[trigger] array@[q]) by {
                if p < start {
                    assert(above(array@[q]));
                    assert(array@[p] == before_cycle[p]);
                }
            }
            assert forall|i: int, j: int| 0 <= i < j < start + 1 implies le(r, #[trigger] array@[i], #[trigger] array@[j]) by {
                if j == start {
                    assert(above(array@[j]));
                    assert(array@[i] == before_cycle[i]);
                } else {
                    assert(array@[i] == before_cycle[i] && array@[j] == before_cycle[j]);
                }
            }
        }
        start += 1;
    }
    proof {
        if n > 0 {
            assert forall|i: int, j: int| 0 <= i < j < n implies le(r, #[trigger] array@[i], #[trigger] array@[j]) by {
                if j == n - 1 && start == n - 1 {
                    assert(le(r, array@[i], array@[j]));
                }
            }
        }
    }
}

/// How many of the elements after `start` come strictly before the element at
/// `start`, added to `start`: the position where that element belongs.
fn target_position<T, F: Fn(&T, &T) -> Ordering>(
    array: &[T],
    start: usize,
    compare: &F,
    Ghost(r): Ghost<spec_fn(T, T) -> Ordering>,
) -> (pos: usize)
    requires
        compares_by(*compare, r),
        start < array@.len(),
    ensures
        pos == start + rank_in(r, array@.subrange(start as int, array@.len() as int).to_multiset(), array@[start as int]),
        pos < array@.len(),
{
    let ghost item = array@[start as int];
    let n = array.len();
    let mut pos = start;
    let mut i = start + 1;
    proof {
        reveal(Seq::filter);
        assert(array@.subrange(start + 1, start + 1) =~= Seq::<T>::empty());
    }
    while i < n
        invariant
            compares_by(*compare, r),
            n == array@.len(),
            start < i <= n,
            item == array@[start as int],
            pos - start == array@.subrange(start + 1, i as int).filter(before(r, item)).len(),
            pos < i,
        decreases n - i,
    {
        let o = compare(&array[i], &array[start]);
        proof {
            assert(array@.subrange(start + 1, i + 1) =~= array@.subrange(start + 1, i as int).push(array@[i as int]));
            array@.subrange(start + 1, i as int).lemma_filter_push(array@[i as int], before(r, item));
        }
        match o {
            Ordering::Less => pos += 1,
            _ => {},
        }
        i += 1;
    }
    proof {
        let whole = array@.subrange(start as int, n as int);
        let tail = array@.subrange(start + 1, n as int);
        assert(whole =~= seq![item] + tail);
        Seq::filter_distributes_over_add(seq![item], tail, before(r, item));
        assert(seq![item] =~= Seq::<T>::empty().push(item));
        Seq::<T>::empty().lemma_filter_push(item, before(r, item));
        lemma_total(r, item, item);
        assert(Seq::<T>::empty().filter(before(r, item)) =~= Seq::<T>::empty()) by {
            reveal(Seq::filter);
        }
        lemma_filter_len_multiset(whole, before(r, item));
    }
    pos
}

/// Runs the cycle that starts at `start`: moves the element there to where it
/// belongs among the positions `start..`, takes up the element it displaces, and so
/// on, until the element at `start` belongs there.
fn place_cycle<T, F: Fn(&T, &T) -> Ordering>(
    array: &mut [T],
    start: usize,
    compare: &F,
    Ghost(r): Ghost<spec_fn(T, T) -> Ordering>,
)
    requires
        compares_by(*compare, r),
        start < old(array)@.len(),
    ensures
        permutes_range(final(array)@, old(array)@, start as int, old(array)@.len() as int),
        forall|q: int| start < q < final(array)@.len() ==> le(r, final(array)@[start as int], #[trigger] final(array)@[q]),
{
    broadcast use vstd::seq_lib::group_to_multiset_ensures;
    broadcast use vstd::multiset::group_multiset_axioms;

    let ghost s0 = array@;
    let n = array.len();
    let ghost m = s0.subrange(start as int, n as int).to_multiset();
    let ghost mut placed: Set<int> = Set::empty();
    let mut done = false;
    proof {
        vstd::set_lib::lemma_int_range(start + 1, n as int);
    }
    while !done
        invariant
            compares_by(*compare, r),
            n == array@.len() == s0.len(),
            start < n,
            m == s0.subrange(start as int, n as int).to_multiset(),
            permutes_range(array@, s0, start as int, n as int),
            placed.finite(),
            placed.subset_of(vstd::set_lib::set_int_range(start + 1, n as int)),
            vstd::set_lib::set_int_range(start + 1, n as int).finite(),
            vstd::set_lib::set_int_range(start + 1, n as int).len() == n - start - 1,
            forall|p: int| #[trigger] placed.contains(p) ==> in_place(r, m, start as int, array@, p),
            done ==> forall|q: int|
                start < q < n ==> le(r, array@[start as int], #[trigger] array@[q]),
        decreases n - placed.len(), if done { 0int } else { 1int },
    {
        proof {
            vstd::set_lib::lemma_len_subset(placed, vstd::set_lib::set_int_range(start + 1, n as int));
            assert(array@.subrange(start as int, n as int).to_multiset() == m);
        }
        let ghost item = array@[start as int];
        let lo = target_position(array, start, compare, Ghost(r));
        if lo == start {
            proof {
                assert forall|q: int| start < q < n implies le(r, array@[start as int], #[trigger] array@[q]) by {
                    lemma_total(r, array@[start as int], array@[q]);
                    if !le(r, item, array@[q]) {
                        let sub = array@.subrange(start as int, n as int);
                        assert(sub.len() == n - start);
                        assert(sub[q - (start as int)] == array@[q]);
                        assert(sub.contains(array@[q]));
                        sub.to_multiset_ensures();
                        assert(m.count(array@[q]) > 0);
                        assert(m.filter(before(r, item)).count(array@[q]) > 0);
                        vstd::multiset::axiom_count_le_len(m.filter(before(r, item)), array@[q]);
                    }
                }
            }
            done = true;
        } else {
            proof {
                lemma_rank_ties_bound(r, m, item);
                s0.subrange(start as int, n as int).to_multiset_ensures();
                lemma_total(r, item, item);
                // The positions after `start` hold all elements equal to `item` but one.
                let tail = array@.subrange(start + 1, n as int);
                assert(m =~= tail.to_multiset().insert(item)) by {
                    assert(array@.subrange(start as int, n as int) =~= seq![item] + tail);
                    vstd::seq_lib::lemma_multiset_commutative(seq![item], tail);
                    assert(seq![item] =~= Seq::<T>::empty().push(item));
                    Seq::<T>::empty().to_multiset_ensures();
                    assert(Seq::<T>::empty().to_multiset() =~= Multiset::empty());
                    assert(seq![item].to_multiset() =~= Multiset::empty().insert(item));
                }
                assert(m.filter(ties(r, item)) =~= tail.to_multiset().filter(ties(r, item)).insert(item));
                lemma_filter_len_multiset(tail, ties(r, item));
            }
            let mut pos = lo;
            let mut skipping = true;
            while skipping
                invariant
                    compares_by(*compare, r),
                    n == array@.len(),
                    start < lo <= pos,
                    lo == start + rank_in(r, m, item),
                    item == array@[start as int],
                    rank_in(r, m, item) + ties_in(r, m, item) <= n - start,
                    array@.subrange(start + 1, n as int).filter(ties(r, item)).len() == ties_in(r, m, item) - 1,
                    forall|k: int| lo <= k < pos ==> r(#[trigger] array@[k], item) == Ordering::Equal,
                    pos < lo + ties_in(r, m, item),
                    !skipping ==> r(array@[pos as int], item) != Ordering::Equal,
                decreases lo + ties_in(r, m, item) - pos, if skipping { 1int } else { 0int },
            {
                let o = compare(&array[start], &array[pos]);
                match o {
                    Ordering::Equal => {
                        proof {
                            assert(r(array@[pos as int], item) == Ordering::Equal);
                            let tail = array@.subrange(start + 1, n as int);
                            let run = array@.subrange(lo as int, pos + 1);
                            assert forall|k: int| 0 <= k < run.len() implies #[trigger] ties(r, item)(run[k]) by {
                                assert(run[k] == array@[(lo as int) + k]);
                            }
                            lemma_filter_all(run, ties(r, item));
                            assert(tail =~= array@.subrange(start + 1, lo as int) + run + array@.subrange(pos + 1, n as int));
                            Seq::filter_distributes_over_add(
                                array@.subrange(start + 1, lo as int) + run,
                                array@.subrange(pos + 1, n as int),
                                ties(r, item),
                            );
                            Seq::filter_distributes_over_add(array@.subrange(start + 1, lo as int), run, ties(r, item));
                        }
                        pos += 1;
                    },
                    _ => {
                        proof {
                            lemma_total(r, item, array@[pos as int]);
                        }
                        skipping = false;
                    },
                }
            }
            proof {
                let y = array@[pos as int];
                lemma_total(r, y, item);
                if lt(r, y, item) {
                    lemma_spans_apart(r, m, y, item);
                } else {
                    lemma_spans_apart(r, m, item, y);
                }
                assert(!placed.contains(pos as int));
            }
            let ghost before_swap = array@;
            swap(array, start, pos);
            proof {
                lemma_swap_range(before_swap, start as int, pos as int, start as int, n as int);
                lemma_permutes_range_trans(array@, before_swap, s0, start as int, n as int);
                assert(in_place(r, m, start as int, array@, pos as int));
                assert forall|p: int| #[trigger] placed.insert(pos as int).contains(p) implies in_place(
                    r,
                    m,
                    start as int,
                    array@,
                    p,
                ) by {
                    if p != pos {
                        assert(placed.contains(p));
                        assert(array@[p] == before_swap[p]);
                    }
                }
                placed = placed.insert(pos as int);
            }
        }
    }
}

} // verus!
