//! Merge sort with one scratch buffer: stable, O(N log N).

use crate::order::{
    clones_exactly, compares_by, is_total_order, le, lemma_lt_le_trans, lemma_natural_comparators,
    lemma_total, lt, natural, natural_compare, ordering_of, permutes, reversed, reversed_compare,
    sorted, sorted_range,
};
use crate::stable::{
    keeps_ties, lemma_keeps_ties_range, lemma_keeps_ties_trans, lemma_no_ties, ties,
};
use crate::perm::{
    lemma_permutes_range_trans, lemma_permutes_range_whole, lemma_permutes_range_widen,
    permutes_range,
};
use core::cmp::Ordering;
use vstd::laws_cmp::obeys_cmp;
use vstd::prelude::*;

verus! {

/// Sorts `array` in ascending order with merge sort.
pub fn sort<T: Ord + Clone>(array: &mut [T])
    requires
        obeys_cmp::<T>(),
        clones_exactly::<T>(),
    ensures
        sorted(natural::<T>(), final(array)@),
        permutes(final(array)@, old(array)@),
        keeps_ties(natural::<T>(), final(array)@, old(array)@),
{
    proof {
        lemma_natural_comparators::<T>();
    }
    merge_sort_impl(array, &natural_compare::<T>, Ghost(natural::<T>()));
}

/// Sorts `array` in descending order with merge sort.
pub fn sort_reverse<T: Ord + Clone>(array: &mut [T])
    requires
        obeys_cmp::<T>(),
        clones_exactly::<T>(),
    ensures
        sorted(reversed::<T>(), final(array)@),
        permutes(final(array)@, old(array)@),
        keeps_ties(reversed::<T>(), final(array)@, old(array)@),
{
    proof {
        lemma_natural_comparators::<T>();
    }
    merge_sort_impl(array, &reversed_compare::<T>, Ghost(reversed::<T>()));
}

/// Sorts `array` into the order that `compare` gives, with merge sort.
pub fn sort_by<T: Clone, F: Fn(&T, &T) -> Ordering>(array: &mut [T], compare: F)
    requires
        is_total_order(compare),
        clones_exactly::<T>(),
    ensures
        sorted(ordering_of(compare), final(array)@),
        permutes(final(array)@, old(array)@),
        keeps_ties(ordering_of(compare), final(array)@, old(array)@),
{
    merge_sort_impl(array, &compare, Ghost(ordering_of(compare)))
}

fn merge_sort_impl<T: Clone, F: Fn(&T, &T) -> Ordering>(
    array: &mut [T],
    compare: &F,
    Ghost(r): Ghost<spec_fn(T, T) -> Ordering>,
)
    requires
        compares_by(*compare, r),
        clones_exactly::<T>(),
    ensures
        sorted(r, final(array)@),
        permutes(final(array)@, old(array)@),
        keeps_ties(r, final(array)@, old(array)@),
{
    let len = array.len();
    let mut scratch: Vec<T> = Vec::with_capacity(len);
    let mut i: usize = 0;
    while i < len
        invariant
            i <= len == array@.len(),
            scratch@.len() == i,
        decreases len - i,
    {
        scratch.push(array[i].clone());
        i += 1;
    }
    merge_sort_recursive(array, &mut scratch, 0, len, compare, Ghost(r));
    proof {
        lemma_permutes_range_whole(array@, old(array)@, 0, len as int);
    }
}

/// Sorts the positions `lo..hi` of `array`, using the same positions of `scratch`.
fn merge_sort_recursive<T: Clone, F: Fn(&T, &T) -> Ordering>(
    array: &mut [T],
    scratch: &mut Vec<T>,
    lo: usize,
    hi: usize,
    compare: &F,
    Ghost(r): Ghost<spec_fn(T, T) -> Ordering>,
)
    requires
        compares_by(*compare, r),
        clones_exactly::<T>(),
        lo <= hi <= old(array)@.len(),
        old(scratch)@.len() == old(array)@.len(),
    ensures
        final(scratch)@.len() == old(scratch)@.len(),
        permutes_range(final(array)@, old(array)@, lo as int, hi as int),
        sorted_range(r, final(array)@, lo as int, hi as int),
        keeps_ties(r, final(array)@, old(array)@),
    decreases hi - lo,
{
    if hi - lo <= 1 {
        return;
    }
    let ghost s0 = array@;
    let mid = lo + (hi - lo) / 2;
    merge_sort_recursive(array, scratch, lo, mid, compare, Ghost(r));
    let ghost s1 = array@;
    merge_sort_recursive(array, scratch, mid, hi, compare, Ghost(r));
    let ghost s2 = array@;
    proof {
        assert forall|i: int, j: int| lo <= i < j < mid implies le(r, #[trigger] s2[i], #[trigger] s2[j]) by {
            assert(s2[i] == s1[i] && s2[j] == s1[j]);
        }
    }
    merge(array, scratch, lo, mid, hi, compare, Ghost(r));
    proof {
        lemma_keeps_ties_trans(r, s2, s1, s0);
        lemma_keeps_ties_trans(r, array@, s2, s0);
        lemma_permutes_range_widen(s1, s0, lo as int, mid as int, lo as int, hi as int);
        lemma_permutes_range_widen(s2, s1, mid as int, hi as int, lo as int, hi as int);
        lemma_permutes_range_trans(s2, s1, s0, lo as int, hi as int);
        lemma_permutes_range_trans(array@, s2, s0, lo as int, hi as int);
    }
}

/// Merges the sorted runs `lo..mid` and `mid..hi` of `array` into one sorted run.
/// On ties the element of the first run goes first.
pub(crate) fn merge<T: Clone, F: Fn(&T, &T) -> Ordering>(
    array: &mut [T],
    scratch: &mut Vec<T>,
    lo: usize,
    mid: usize,
    hi: usize,
    compare: &F,
    Ghost(r): Ghost<spec_fn(T, T) -> Ordering>,
)
    requires
        compares_by(*compare, r),
        clones_exactly::<T>(),
        lo <= mid <= hi <= old(array)@.len(),
        old(scratch)@.len() == old(array)@.len(),
        sorted_range(r, old(array)@, lo as int, mid as int),
        sorted_range(r, old(array)@, mid as int, hi as int),
    ensures
        final(scratch)@.len() == old(scratch)@.len(),
        permutes_range(final(array)@, old(array)@, lo as int, hi as int),
        sorted_range(r, final(array)@, lo as int, hi as int),
        keeps_ties(r, final(array)@, old(array)@),
{
    broadcast use vstd::seq_lib::group_to_multiset_ensures;

    let ghost a = array@;
    let mut i = lo;
    let mut j = mid;
    let mut k = lo;
    while k < hi
        invariant
            compares_by(*compare, r),
            clones_exactly::<T>(),
            array@ == a,
            lo <= i <= mid <= j <= hi <= a.len(),
            scratch@.len() == a.len(),
            k == i + j - mid,
            sorted_range(r, a, lo as int, mid as int),
            sorted_range(r, a, mid as int, hi as int),
            sorted_range(r, scratch@, lo as int, k as int),
            scratch@.subrange(lo as int, k as int).to_multiset() == a.subrange(
                lo as int,
                i as int,
            ).to_multiset().add(a.subrange(mid as int, j as int).to_multiset()),
            forall|p: int|
                lo <= p < k && i < mid ==> le(r, #[trigger] scratch@[p], a[i as int]),
            forall|p: int|
                lo <= p < k && j < hi ==> le(r, #[trigger] scratch@[p], a[j as int]),
            forall|p: int, q: int| mid <= p < j && i <= q < mid ==> lt(r, #[trigger] a[p], #[trigger] a[q]),
            forall|x: T|
                #[trigger] scratch@.subrange(lo as int, k as int).filter(ties(r, x)) == a.subrange(
                    lo as int,
                    i as int,
                ).filter(ties(r, x)) + a.subrange(mid as int, j as int).filter(ties(r, x)),
        decreases hi - k,
    {
        let ghost before = scratch@;
        let take_left = if i == mid {
            false
        } else if j == hi {
            true
        } else {
            let o = compare(&array[i], &array[j]);
            proof {
                lemma_total(r, a[i as int], a[j as int]);
            }
            match o {
                Ordering::Greater => false,
                _ => true,
            }
        };
        let ghost x;
        if take_left {
            let e = array[i].clone();
            proof {
                x = a[i as int];
                assert(vstd::pervasive::strictly_cloned(x, e));
                assert(e == x);
            }
            scratch.set(k, e);
            proof {
                assert(a.subrange(lo as int, i + 1) =~= a.subrange(lo as int, i as int).push(x));
                a.subrange(lo as int, i as int).to_multiset_ensures();
                assert(a.subrange(lo as int, i + 1).to_multiset() =~= a.subrange(
                    lo as int,
                    i as int,
                ).to_multiset().insert(x));
                if i + 1 < mid {
                    assert(le(r, x, a[i + 1]));
                }
                assert forall|y: T| #[trigger] before.subrange(lo as int, k as int).push(x).filter(ties(r, y))
                    == a.subrange(lo as int, i + 1).filter(ties(r, y)) + a.subrange(mid as int, j as int).filter(
                    ties(r, y),
                ) by {
                    let p = ties(r, y);
                    before.subrange(lo as int, k as int).lemma_filter_push(x, p);
                    a.subrange(lo as int, i as int).lemma_filter_push(x, p);
                    if p(x) {
                        assert forall|m: int| 0 <= m < a.subrange(mid as int, j as int).len() implies lt(
                            r,
                            #[trigger] a.subrange(mid as int, j as int)[m],
                            x,
                        ) by {
                            assert(a.subrange(mid as int, j as int)[m] == a[mid + m]);
                        }
                        lemma_no_ties(r, a.subrange(mid as int, j as int), y, x);
                        assert(a.subrange(mid as int, j as int).filter(p) =~= Seq::<T>::empty());
                        assert(a.subrange(lo as int, i as int).filter(p).push(x) + Seq::<T>::empty()
                            =~= (a.subrange(lo as int, i as int).filter(p) + Seq::<T>::empty()).push(x));
                    }
                }
            }
            i += 1;
        } else {
            let e = array[j].clone();
            proof {
                x = a[j as int];
                assert(vstd::pervasive::strictly_cloned(x, e));
                assert(e == x);
            }
            scratch.set(k, e);
            proof {
                assert(a.subrange(mid as int, j + 1) =~= a.subrange(mid as int, j as int).push(x));
                a.subrange(mid as int, j as int).to_multiset_ensures();
                assert(a.subrange(mid as int, j + 1).to_multiset() =~= a.subrange(
                    mid as int,
                    j as int,
                ).to_multiset().insert(x));
                if j + 1 < hi {
                    assert(le(r, x, a[j + 1]));
                }
                if i < mid {
                    assert(lt(r, x, a[i as int]));
                    assert forall|q: int| i <= q < mid implies lt(r, x, #[trigger] a[q]) by {
                        if q > i {
                            assert(le(r, a[i as int], a[q]));
                            lemma_lt_le_trans(r, x, a[i as int], a[q]);
                        }
                    }
                }
                assert forall|y: T| #[trigger] before.subrange(lo as int, k as int).push(x).filter(ties(r, y))
                    == a.subrange(lo as int, i as int).filter(ties(r, y)) + a.subrange(mid as int, j + 1).filter(
                    ties(r, y),
                ) by {
                    let p = ties(r, y);
                    before.subrange(lo as int, k as int).lemma_filter_push(x, p);
                    a.subrange(mid as int, j as int).lemma_filter_push(x, p);
                    if p(x) {
                        assert(a.subrange(lo as int, i as int).filter(p) + a.subrange(mid as int, j as int).filter(
                            p,
                        ).push(x) =~= (a.subrange(lo as int, i as int).filter(p) + a.subrange(
                            mid as int,
                            j as int,
                        ).filter(p)).push(x));
                    }
                }
            }
            j += 1;
        }
        proof {
            assert(scratch@.subrange(lo as int, k + 1) =~= before.subrange(lo as int, k as int).push(x));
            assert forall|y: T| #[trigger] scratch@.subrange(lo as int, k + 1).filter(ties(r, y))
                == a.subrange(lo as int, i as int).filter(ties(r, y)) + a.subrange(mid as int, j as int).filter(
                ties(r, y),
            ) by {
                assert(scratch@.subrange(lo as int, k + 1) == before.subrange(lo as int, k as int).push(x));
            }
            before.subrange(lo as int, k as int).to_multiset_ensures();
            assert(scratch@.subrange(lo as int, k + 1).to_multiset() =~= before.subrange(
                lo as int,
                k as int,
            ).to_multiset().insert(x));
            lemma_total(r, x, x);
        }
        k += 1;
    }
    proof {
        assert(a.subrange(lo as int, hi as int) =~= a.subrange(lo as int, mid as int) + a.subrange(
            mid as int,
            hi as int,
        ));
        vstd::seq_lib::lemma_multiset_commutative(
            a.subrange(lo as int, mid as int),
            a.subrange(mid as int, hi as int),
        );
    }
    let mut k = lo;
    while k < hi
        invariant
            clones_exactly::<T>(),
            lo <= k <= hi <= a.len(),
            scratch@.len() == a.len(),
            array@.len() == a.len(),
            forall|p: int| 0 <= p < lo || k <= p < a.len() ==> #[trigger] array@[p] == a[p],
            forall|p: int| lo <= p < k ==> #[trigger] array@[p] == scratch@[p],
        decreases hi - k,
    {
        let e = scratch[k].clone();
        proof {
            assert(vstd::pervasive::strictly_cloned(scratch@[k as int], e));
            assert(e == scratch@[k as int]);
        }
        array[k] = e;
        k += 1;
    }
    proof {
        assert(array@.subrange(lo as int, hi as int) =~= scratch@.subrange(lo as int, hi as int));
        assert forall|y: T| #[trigger] array@.subrange(lo as int, hi as int).filter(ties(r, y)) == a.subrange(
            lo as int,
            hi as int,
        ).filter(ties(r, y)) by {
            Seq::filter_distributes_over_add(a.subrange(lo as int, mid as int), a.subrange(mid as int, hi as int), ties(r, y));
        }
        lemma_keeps_ties_range(r, array@, a, lo as int, hi as int);
    }
}

} // verus!
