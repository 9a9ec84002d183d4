//! Selection sort: unstable, O(N²).

use crate::order::{
    compares_by, is_total_order, le, lemma_natural_comparators, lemma_total, natural,
    natural_compare, ordering_of, permutes, reversed, reversed_compare, sorted, sorted_range,
};
use crate::swap::swap;
use core::cmp::Ordering;
use vstd::laws_cmp::obeys_cmp;
use vstd::prelude::*;

verus! {

/// Sorts `array` in ascending order with selection sort.
pub fn sort<T: Ord>(array: &mut [T])
    requires
        obeys_cmp::<T>(),
    ensures
        sorted(natural::<T>(), final(array)@),
        permutes(final(array)@, old(array)@),
{
    proof {
        lemma_natural_comparators::<T>();
    }
    selection_sort_impl(array, &natural_compare::<T>, Ghost(natural::<T>()));
}

/// Sorts `array` in descending order with selection sort.
pub fn sort_reverse<T: Ord>(array: &mut [T])
    requires
        obeys_cmp::<T>(),
    ensures
        sorted(reversed::<T>(), final(array)@),
        permutes(final(array)@, old(array)@),
{
    proof {
        lemma_natural_comparators::<T>();
    }
    selection_sort_impl(array, &reversed_compare::<T>, Ghost(reversed::<T>()));
}

/// Sorts `array` into the order that `compare` gives, with selection sort.
pub fn sort_by<T, F: Fn(&T, &T) -> Ordering>(array: &mut [T], compare: F)
    requires
        is_total_order(compare),
    ensures
        sorted(ordering_of(compare), final(array)@),
        permutes(final(array)@, old(array)@),
{
    selection_sort_impl(array, &compare, Ghost(ordering_of(compare)))
}

fn selection_sort_impl<T, F: Fn(&T, &T) -> Ordering>(
    array: &mut [T],
    compare: &F,
    Ghost(r): Ghost<spec_fn(T, T) -> Ordering>,
)
    requires
        compares_by(*compare, r),
    ensures
        sorted(r, final(array)@),
        permutes(final(array)@, old(array)@),
{
    let ghost initial = array@;
    let len = array.len();
    if len == 0 {
        return;
    }
    let mut last = len - 1;
    while 0 != last
        invariant
            len == array@.len(),
            last < len,
            compares_by(*compare, r),
            permutes(array@, initial),
            sorted_range(r, array@, last + 1, len as int),
            forall|p: int, q: int|
                0 <= p <= last < q < len ==> le(r, #[trigger] array@[p], #[trigger] array@[q]),
        decreases last,
    {
        let mut max_i: usize = 0;
        let mut i: usize = 1;
        while i <= last
            invariant
                len == array@.len(),
                0 < last < len,
                1 <= i <= last + 1,
                max_i < i,
                compares_by(*compare, r),
                forall|k: int| 0 <= k < i ==> le(r, #[trigger] array@[k], array@[max_i as int]),
            decreases last + 1 - i,
        {
            let o = compare(&array[i], &array[max_i]);
            proof {
                lemma_total(r, array@[i as int], array@[max_i as int]);
            }
            match o {
                Ordering::Less => {},
                Ordering::Greater => max_i = i,
                Ordering::Equal => {},
            }
            i += 1;
        }
        swap(array, last, max_i);
        last -= 1;
    }
}

} // verus!
