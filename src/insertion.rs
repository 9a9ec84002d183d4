//! Insertion sort: stable, O(N²).

use crate::order::{
    compares_by, is_total_order, le, lemma_natural_comparators, lemma_total, lt, natural,
    natural_compare, ordering_of, permutes, reversed, reversed_compare, sorted, sorted_range,
};
use crate::stable::{keeps_ties, lemma_keeps_ties_trans, lemma_swap_neighbours};
use crate::swap::swap;
use core::cmp::Ordering;
use vstd::laws_cmp::obeys_cmp;
use vstd::prelude::*;

verus! {

/// Sorts `array` in ascending order with insertion sort.
pub fn sort<T: Ord>(array: &mut [T])
    requires
        obeys_cmp::<T>(),
    ensures
        sorted(natural::<T>(), final(array)@),
        permutes(final(array)@, old(array)@),
        keeps_ties(natural::<T>(), final(array)@, old(array)@),
{
    proof {
        lemma_natural_comparators::<T>();
    }
    insertion_sort_impl(array, &natural_compare::<T>, Ghost(natural::<T>()));
}

/// Sorts `array` in descending order with insertion sort.
pub fn sort_reverse<T: Ord>(array: &mut [T])
    requires
        obeys_cmp::<T>(),
    ensures
        sorted(reversed::<T>(), final(array)@),
        permutes(final(array)@, old(array)@),
        keeps_ties(reversed::<T>(), final(array)@, old(array)@),
{
    proof {
        lemma_natural_comparators::<T>();
    }
    insertion_sort_impl(array, &reversed_compare::<T>, Ghost(reversed::<T>()));
}

/// Sorts `array` into the order that `compare` gives, with insertion sort.
pub fn sort_by<T, F: Fn(&T, &T) -> Ordering>(array: &mut [T], compare: F)
    requires
        is_total_order(compare),
    ensures
        sorted(ordering_of(compare), final(array)@),
        permutes(final(array)@, old(array)@),
        keeps_ties(ordering_of(compare), final(array)@, old(array)@),
{
    insertion_sort_impl(array, &compare, Ghost(ordering_of(compare)))
}

pub(crate) fn insertion_sort_impl<T, F: Fn(&T, &T) -> Ordering>(
    array: &mut [T],
    compare: &F,
    Ghost(r): Ghost<spec_fn(T, T) -> Ordering>,
)
    requires
        compares_by(*compare, r),
    ensures
        sorted(r, final(array)@),
        permutes(final(array)@, old(array)@),
        keeps_ties(r, final(array)@, old(array)@),
{
    let ghost initial = array@;
    let len = array.len();
    let mut start: usize = 1;
    while start < len
        invariant
            len == array@.len(),
            1 <= start,
            compares_by(*compare, r),
            permutes(array@, initial),
            keeps_ties(r, array@, initial),
            sorted_range(r, array@, 0, if start <= len { start as int } else { len as int }),
        decreases len - start,
    {
        let mut back = start;
        let mut placed = false;
        while back > 0 && !placed
            invariant
                len == array@.len(),
                back <= start < len,
                compares_by(*compare, r),
                permutes(array@, initial),
                keeps_ties(r, array@, initial),
                sorted_range(r, array@, 0, back as int),
                sorted_range(r, array@, back + 1, start + 1),
                forall|p: int, q: int|
                    0 <= p < back < q <= start ==> le(r, #[trigger] array@[p], #[trigger] array@[q]),
                forall|q: int| back < q <= start ==> lt(r, array@[back as int], #[trigger] array@[q]),
                placed ==> back > 0 && le(r, array@[back - 1], array@[back as int]),
            decreases back, if placed { 0int } else { 1int },
        {
            let o = compare(&array[back], &array[back - 1]);
            proof {
                lemma_total(r, array@[back as int], array@[back - 1]);
            }
            match o {
                Ordering::Less => {
                    proof {
                        lemma_swap_neighbours(r, array@, back - 1);
                    }
                    let ghost before_swap = array@;
                    swap(array, back - 1, back);
                    proof {
                        lemma_keeps_ties_trans(r, array@, before_swap, initial);
                    }
                    back -= 1;
                },
                _ => placed = true,
            }
        }
        start += 1;
    }
}

} // verus!
