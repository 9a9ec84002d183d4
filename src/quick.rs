//! Quick sort with the first element of each range as pivot: unstable, O(N log N) on
//! average, O(N²) at worst.

use crate::order::{
    compares_by, is_total_order, le, lemma_natural_comparators, lemma_total, lt, natural,
    natural_compare, ordering_of, permutes, reversed, reversed_compare, sorted, sorted_range,
};
use crate::perm::{
    lemma_permutes_range_all, lemma_permutes_range_trans, lemma_permutes_range_whole,
    lemma_permutes_range_widen, lemma_swap_range, permutes_range,
};
use crate::swap::swap;
use core::cmp::Ordering;
use vstd::laws_cmp::obeys_cmp;
use vstd::prelude::*;

verus! {

/// Sorts `array` in ascending order with quick sort.
pub fn sort<T: Ord>(array: &mut [T])
    requires
        obeys_cmp::<T>(),
    ensures
        sorted(natural::<T>(), final(array)@),
        permutes(final(array)@, old(array)@),
{
    proof {
        lemma_natural_comparators::<T>();
    }
    quick_sort_impl(array, &natural_compare::<T>, Ghost(natural::<T>()));
}

/// Sorts `array` in descending order with quick sort.
pub fn sort_reverse<T: Ord>(array: &mut [T])
    requires
        obeys_cmp::<T>(),
    ensures
        sorted(reversed::<T>(), final(array)@),
        permutes(final(array)@, old(array)@),
{
    proof {
        lemma_natural_comparators::<T>();
    }
    quick_sort_impl(array, &reversed_compare::<T>, Ghost(reversed::<T>()));
}

/// Sorts `array` into the order that `compare` gives, with quick sort.
pub fn sort_by<T, F: Fn(&T, &T) -> Ordering>(array: &mut [T], compare: F)
    requires
        is_total_order(compare),
    ensures
        sorted(ordering_of(compare), final(array)@),
        permutes(final(array)@, old(array)@),
{
    quick_sort_impl(array, &compare, Ghost(ordering_of(compare)))
}

fn quick_sort_impl<T, F: Fn(&T, &T) -> Ordering>(
    array: &mut [T],
    compare: &F,
    Ghost(r): Ghost<spec_fn(T, T) -> Ordering>,
)
    requires
        compares_by(*compare, r),
    ensures
        sorted(r, final(array)@),
        permutes(final(array)@, old(array)@),
{
    let len = array.len();
    quick_sort_recursive(array, 0, len, compare, Ghost(r));
    proof {
        lemma_permutes_range_whole(array@, old(array)@, 0, len as int);
    }
}

/// Sorts the positions `lo..hi` of `array`, leaving the others alone.
fn quick_sort_recursive<T, F: Fn(&T, &T) -> Ordering>(
    array: &mut [T],
    lo: usize,
    hi: usize,
    compare: &F,
    Ghost(r): Ghost<spec_fn(T, T) -> Ordering>,
)
    requires
        compares_by(*compare, r),
        lo <= hi <= old(array)@.len(),
    ensures
        permutes_range(final(array)@, old(array)@, lo as int, hi as int),
        sorted_range(r, final(array)@, lo as int, hi as int),
    decreases hi - lo,
{
    if hi - lo <= 1 {
        return;
    }
    let ghost s0 = array@;
    let p = quick_partition(array, lo, hi - 1, compare, Ghost(r));
    let ghost s1 = array@;
    let ghost pivot = s1[p as int];
    quick_sort_recursive(array, lo, p, compare, Ghost(r));
    let ghost s2 = array@;
    quick_sort_recursive(array, p + 1, hi, compare, Ghost(r));
    let ghost s3 = array@;
    proof {
        let below = |x: T| le(r, x, pivot);
        let above = |x: T| lt(r, pivot, x);
        assert forall|k: int| lo <= k < p implies #[trigger] below(s1[k]) by {}
        lemma_permutes_range_all(s2, s1, lo as int, p as int, below);
        assert forall|k: int| p + 1 <= k < hi implies #[trigger] above(s2[k]) by {
            assert(s2[k] == s1[k]);
        }
        lemma_permutes_range_all(s3, s2, p + 1, hi as int, above);
        assert(s3[p as int] == pivot);
        assert forall|i: int, j: int| lo <= i < j < hi implies le(r, #[trigger] s3[i], #[trigger] s3[j]) by {
            if i < p {
                assert(s3[i] == s2[i]);
                assert(below(s2[i]));
            }
            if j > p {
                assert(above(s3[j]));
            }
            if i < p && j > p {
                assert(le(r, s3[i], pivot));
                assert(le(r, pivot, s3[j]));
            }
        }
        lemma_permutes_range_widen(s2, s1, lo as int, p as int, lo as int, hi as int);
        lemma_permutes_range_widen(s3, s2, p + 1, hi as int, lo as int, hi as int);
        lemma_permutes_range_trans(s2, s1, s0, lo as int, hi as int);
        lemma_permutes_range_trans(s3, s2, s0, lo as int, hi as int);
    }
}

/// Partitions `left..=right` around the element at `left`: those not greater
/// than it come first, then it, then those greater. Returns its new position.
fn quick_partition<T, F: Fn(&T, &T) -> Ordering>(
    array: &mut [T],
    left: usize,
    right: usize,
    compare: &F,
    Ghost(r): Ghost<spec_fn(T, T) -> Ordering>,
) -> (p: usize)
    requires
        compares_by(*compare, r),
        left <= right < old(array)@.len(),
    ensures
        left <= p <= right,
        permutes_range(final(array)@, old(array)@, left as int, right + 1),
        forall|k: int| left <= k < p ==> le(r, #[trigger] final(array)@[k], final(array)@[p as int]),
        forall|k: int| p < k <= right ==> lt(r, final(array)@[p as int], #[trigger] final(array)@[k]),
{
    let ghost s0 = array@;
    let ghost pivot = s0[left as int];
    let mut l = left;
    let mut h = right;
    proof {
        lemma_total(r, pivot, pivot);
    }
    while l < h
        invariant
            compares_by(*compare, r),
            left <= l <= h <= right < array@.len(),
            array@[left as int] == pivot,
            permutes_range(array@, s0, left as int, right + 1),
            forall|k: int| left <= k <= l ==> le(r, #[trigger] array@[k], pivot),
            forall|k: int| h < k <= right ==> lt(r, pivot, #[trigger] array@[k]),
        decreases h - l,
    {
        let o = compare(&array[left], &array[h]);
        proof {
            lemma_total(r, pivot, array@[h as int]);
        }
        match o {
            Ordering::Less => {
                h -= 1;
            },
            _ => {
                let o2 = compare(&array[left], &array[l + 1]);
                proof {
                    lemma_total(r, pivot, array@[l + 1]);
                }
                match o2 {
                    Ordering::Less => {
                        let ghost before = array@;
                        swap(array, l + 1, h);
                        proof {
                            lemma_swap_range(before, l + 1, h as int, left as int, right + 1);
                            lemma_permutes_range_trans(array@, before, s0, left as int, right + 1);
                        }
                        l += 1;
                        h -= 1;
                    },
                    _ => {
                        l += 1;
                    },
                }
            },
        }
    }
    let ghost before = array@;
    swap(array, left, l);
    proof {
        lemma_swap_range(before, left as int, l as int, left as int, right + 1);
        lemma_permutes_range_trans(array@, before, s0, left as int, right + 1);
    }
    l
}

} // verus!
