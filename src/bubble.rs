//! Bubble sort: stable, O(N²).

use crate::order::{
    compares_by, is_total_order, le, lemma_natural_comparators, lemma_total, natural,
    natural_compare, ordering_of, permutes, reversed, reversed_compare, sorted, sorted_range,
};
use crate::stable::{keeps_ties, lemma_keeps_ties_trans, lemma_swap_neighbours};
use crate::swap::swap;
use core::cmp::Ordering;
use vstd::laws_cmp::obeys_cmp;
use vstd::prelude::*;

verus! {

/// Sorts `array` in ascending order with bubble sort.
pub fn sort<T: Ord>(array: &mut [T])
    requires
        obeys_cmp::<T>(),
    ensures
        sorted(natural::<T>(), final(array)@),
        permutes(final(array)@, old(array)@),
        keeps_ties(natural::<T>(), final(array)@, old(array)@),
{
    proof {
        lemma_natural_comparators::<T>();
    }
    bubble_sort_impl(array, &natural_compare::<T>, Ghost(natural::<T>()));
}

/// Sorts `array` in descending order with bubble sort.
pub fn sort_reverse<T: Ord>(array: &mut [T])
    requires
        obeys_cmp::<T>(),
    ensures
        sorted(reversed::<T>(), final(array)@),
        permutes(final(array)@, old(array)@),
        keeps_ties(reversed::<T>(), final(array)@, old(array)@),
{
    proof {
        lemma_natural_comparators::<T>();
    }
    bubble_sort_impl(array, &reversed_compare::<T>, Ghost(reversed::<T>()));
}

/// Sorts `array` into the order that `compare` gives, with bubble sort.
pub fn sort_by<T, F: Fn(&T, &T) -> Ordering>(array: &mut [T], compare: F)
    requires
        is_total_order(compare),
    ensures
        sorted(ordering_of(compare), final(array)@),
        permutes(final(array)@, old(array)@),
        keeps_ties(ordering_of(compare), final(array)@, old(array)@),
{
    bubble_sort_impl(array, &compare, Ghost(ordering_of(compare)))
}

fn bubble_sort_impl<T, F: Fn(&T, &T) -> Ordering>(
    array: &mut [T],
    compare: &F,
    Ghost(r): Ghost<spec_fn(T, T) -> Ordering>,
)
    requires
        compares_by(*compare, r),
    ensures
        sorted(r, final(array)@),
        permutes(final(array)@, old(array)@),
        keeps_ties(r, final(array)@, old(array)@),
{
    let ghost initial = array@;
    let len = array.len();
    let mut last = len;
    while 0 != last
        invariant
            len == array@.len(),
            last <= len,
            compares_by(*compare, r),
            permutes(array@, initial),
            keeps_ties(r, array@, initial),
            sorted_range(r, array@, last as int, len as int),
            forall|p: int, q: int|
                0 <= p < last <= q < len ==> le(r, #[trigger] array@[p], #[trigger] array@[q]),
        decreases last,
    {
        let mut i: usize = 0;
        while (i + 1) < last
            invariant
                len == array@.len(),
                0 < last <= len,
                i < last,
                compares_by(*compare, r),
                permutes(array@, initial),
                keeps_ties(r, array@, initial),
                sorted_range(r, array@, last as int, len as int),
                forall|p: int, q: int|
                    0 <= p < last <= q < len ==> le(r, #[trigger] array@[p], #[trigger] array@[q]),
                forall|k: int| 0 <= k <= i ==> le(r, #[trigger] array@[k], array@[i as int]),
            decreases last - i,
        {
            let o = compare(&array[i], &array[i + 1]);
            proof {
                lemma_total(r, array@[i as int], array@[i as int + 1]);
            }
            match o {
                Ordering::Less => {},
                Ordering::Greater => {
                    proof {
                        lemma_swap_neighbours(r, array@, i as int);
                    }
                    let ghost before_swap = array@;
                    swap(array, i, i + 1);
                    proof {
                        lemma_keeps_ties_trans(r, array@, before_swap, initial);
                    }
                },
                Ordering::Equal => {},
            }
            i += 1;
        }
        last -= 1;
    }
}

} // verus!
