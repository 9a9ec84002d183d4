//! Cocktail shaker sort: bubble passes in both directions, each range narrowed to where
//! the last exchange happened. Stable, O(N²).

use crate::order::{
    compares_by, is_total_order, le, lemma_natural_comparators, lemma_total, natural,
    natural_compare, ordering_of, permutes, reversed, reversed_compare, sorted, sorted_range,
};
use crate::stable::{keeps_ties, lemma_keeps_ties_trans, lemma_swap_neighbours};
use crate::swap::swap;
use core::cmp::Ordering;
use vstd::laws_cmp::obeys_cmp;
use vstd::prelude::*;

verus! {

/// Sorts `array` in ascending order with cocktail shaker sort.
pub fn sort<T: Ord>(array: &mut [T])
    requires
        obeys_cmp::<T>(),
    ensures
        sorted(natural::<T>(), final(array)@),
        permutes(final(array)@, old(array)@),
        keeps_ties(natural::<T>(), final(array)@, old(array)@),
{
    proof {
        lemma_natural_comparators::<T>();
    }
    cocktail_shaker_sort_impl(array, &natural_compare::<T>, Ghost(natural::<T>()));
}

/// Sorts `array` in descending order with cocktail shaker sort.
pub fn sort_reverse<T: Ord>(array: &mut [T])
    requires
        obeys_cmp::<T>(),
    ensures
        sorted(reversed::<T>(), final(array)@),
        permutes(final(array)@, old(array)@),
        keeps_ties(reversed::<T>(), final(array)@, old(array)@),
{
    proof {
        lemma_natural_comparators::<T>();
    }
    cocktail_shaker_sort_impl(array, &reversed_compare::<T>, Ghost(reversed::<T>()));
}

/// Sorts `array` into the order that `compare` gives, with cocktail shaker sort.
pub fn sort_by<T, F: Fn(&T, &T) -> Ordering>(array: &mut [T], compare: F)
    requires
        is_total_order(compare),
    ensures
        sorted(ordering_of(compare), final(array)@),
        permutes(final(array)@, old(array)@),
        keeps_ties(ordering_of(compare), final(array)@, old(array)@),
{
    cocktail_shaker_sort_impl(array, &compare, Ghost(ordering_of(compare)))
}

fn cocktail_shaker_sort_impl<T, F: Fn(&T, &T) -> Ordering>(
    array: &mut [T],
    compare: &F,
    Ghost(r): Ghost<spec_fn(T, T) -> Ordering>,
)
    requires
        compares_by(*compare, r),
    ensures
        sorted(r, final(array)@),
        permutes(final(array)@, old(array)@),
        keeps_ties(r, final(array)@, old(array)@),
{
    let ghost initial = array@;
    let len = array.len();
    let mut first: usize = 0;
    let mut last: usize = len;
    while first < last
        invariant
            compares_by(*compare, r),
            first <= len,
            last <= len == array@.len(),
            permutes(array@, initial),
            keeps_ties(r, array@, initial),
            sorted_range(r, array@, 0, first as int),
            sorted_range(r, array@, last as int, len as int),
            forall|p: int, q: int| 0 <= p < first <= q < len ==> le(r, #[trigger] array@[p], #[trigger] array@[q]),
            forall|p: int, q: int| 0 <= p < last <= q < len ==> le(r, #[trigger] array@[p], #[trigger] array@[q]),
        decreases last - first,
    {
        // Forward: carry the greatest element of first..last up to last - 1.
        let mut shift = first;
        let mut i = first + 1;
        proof {
            lemma_total(r, array@[first as int], array@[first as int]);
        }
        while i < last
            invariant
                compares_by(*compare, r),
                first < i <= last <= len == array@.len(),
                first <= shift < i,
                permutes(array@, initial),
                keeps_ties(r, array@, initial),
                sorted_range(r, array@, 0, first as int),
                sorted_range(r, array@, last as int, len as int),
                forall|p: int, q: int| 0 <= p < first <= q < len ==> le(r, #[trigger] array@[p], #[trigger] array@[q]),
                forall|p: int, q: int| 0 <= p < last <= q < len ==> le(r, #[trigger] array@[p], #[trigger] array@[q]),
                forall|p: int| first <= p < i ==> le(r, #[trigger] array@[p], array@[i - 1]),
                sorted_range(r, array@, shift as int, i as int),
                forall|p: int, q: int| first <= p < shift <= q < i ==> le(r, #[trigger] array@[p], #[trigger] array@[q]),
            decreases last - i,
        {
            let o = compare(&array[i - 1], &array[i]);
            proof {
                lemma_total(r, array@[i - 1], array@[i as int]);
            }
            match o {
                Ordering::Greater => {
                    proof {
                        lemma_swap_neighbours(r, array@, i - 1);
                    }
                    let ghost before_swap = array@;
                    swap(array, i - 1, i);
                    proof {
                        lemma_keeps_ties_trans(r, array@, before_swap, initial);
                    }
                    shift = i;
                },
                _ => {},
            }
            i += 1;
        }
        last = shift;
        if first < last {
            // Backward: carry the smallest element of first..last down to first.
            let mut shift = last;
            let mut i = last - 1;
            proof {
                lemma_total(r, array@[i as int], array@[i as int]);
            }
            while i > first
                invariant
                    compares_by(*compare, r),
                    first <= i < shift <= last <= len == array@.len(),
                    permutes(array@, initial),
                    keeps_ties(r, array@, initial),
                    sorted_range(r, array@, 0, first as int),
                    sorted_range(r, array@, last as int, len as int),
                    forall|p: int, q: int| 0 <= p < first <= q < len ==> le(r, #[trigger] array@[p], #[trigger] array@[q]),
                    forall|p: int, q: int| 0 <= p < last <= q < len ==> le(r, #[trigger] array@[p], #[trigger] array@[q]),
                    forall|q: int| i <= q < last ==> le(r, array@[i as int], #[trigger] array@[q]),
                    sorted_range(r, array@, i as int, shift as int),
                    forall|p: int, q: int| i <= p < shift <= q < last ==> le(r, #[trigger] array@[p], #[trigger] array@[q]),
                decreases i,
            {
                let o = compare(&array[i - 1], &array[i]);
                proof {
                    lemma_total(r, array@[i - 1], array@[i as int]);
                }
                match o {
                    Ordering::Greater => {
                        proof {
                            lemma_swap_neighbours(r, array@, i - 1);
                        }
                        let ghost before_swap = array@;
                        swap(array, i - 1, i);
                        proof {
                            lemma_keeps_ties_trans(r, array@, before_swap, initial);
                        }
                        shift = i;
                    },
                    _ => {},
                }
                i -= 1;
            }
            first = shift;
        }
    }
}

} // verus!
