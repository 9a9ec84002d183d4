//! Shell sort: insertion sort over chains of positions a gap apart, with gaps 3k + 1
//! shrinking to one. Unstable.

use crate::order::{
    compares_by, is_total_order, le, lemma_natural_comparators, lemma_total, lt, natural,
    natural_compare, ordering_of, permutes, reversed, reversed_compare, sorted, sorted_range,
};
use crate::swap::swap;
use core::cmp::Ordering;
use vstd::laws_cmp::obeys_cmp;
use vstd::prelude::*;

verus! {

/// Sorts `array` in ascending order with shell sort.
pub fn sort<T: Ord>(array: &mut [T])
    requires
        obeys_cmp::<T>(),
    ensures
        sorted(natural::<T>(), final(array)@),
        permutes(final(array)@, old(array)@),
{
    proof {
        lemma_natural_comparators::<T>();
    }
    shell_sort_impl(array, &natural_compare::<T>, Ghost(natural::<T>()));
}

/// Sorts `array` in descending order with shell sort.
pub fn sort_reverse<T: Ord>(array: &mut [T])
    requires
        obeys_cmp::<T>(),
    ensures
        sorted(reversed::<T>(), final(array)@),
        permutes(final(array)@, old(array)@),
{
    proof {
        lemma_natural_comparators::<T>();
    }
    shell_sort_impl(array, &reversed_compare::<T>, Ghost(reversed::<T>()));
}

/// Sorts `array` into the order that `compare` gives, with shell sort.
pub fn sort_by<T, F: Fn(&T, &T) -> Ordering>(array: &mut [T], compare: F)
    requires
        is_total_order(compare),
    ensures
        sorted(ordering_of(compare), final(array)@),
        permutes(final(array)@, old(array)@),
{
    shell_sort_impl(array, &compare, Ghost(ordering_of(compare)))
}

fn shell_sort_impl<T, F: Fn(&T, &T) -> Ordering>(
    array: &mut [T],
    compare: &F,
    Ghost(r): Ghost<spec_fn(T, T) -> Ordering>,
)
    requires
        compares_by(*compare, r),
    ensures
        sorted(r, final(array)@),
        permutes(final(array)@, old(array)@),
{
    let ghost initial = array@;
    let len = array.len();
    // Gaps 1, 4, 13, 40, ...: the largest below the length comes first.
    let mut gap: usize = 1;
    while gap < len && gap <= (usize::MAX - 1) / 3
        invariant
            gap >= 1,
        decreases usize::MAX - gap,
    {
        gap = gap * 3 + 1;
    }
    gap /= 3;
    while gap > 1
        invariant
            compares_by(*compare, r),
            permutes(array@, initial),
        decreases gap,
    {
        gapped_insertion_pass(array, gap, compare, Ghost(r));
        gap /= 3;
    }
    gapped_insertion_pass(array, 1, compare, Ghost(r));
}

/// Insertion sort over each chain of positions `gap` apart. With a gap of one it
/// sorts the whole slice.
fn gapped_insertion_pass<T, F: Fn(&T, &T) -> Ordering>(
    array: &mut [T],
    gap: usize,
    compare: &F,
    Ghost(r): Ghost<spec_fn(T, T) -> Ordering>,
)
    requires
        compares_by(*compare, r),
        gap >= 1,
    ensures
        permutes(final(array)@, old(array)@),
        gap == 1 ==> sorted(r, final(array)@),
{
    let ghost initial = array@;
    let len = array.len();
    let mut i = gap;
    while i < len
        invariant
            compares_by(*compare, r),
            gap >= 1,
            i >= gap,
            len == array@.len(),
            permutes(array@, initial),
            gap == 1 ==> sorted_range(r, array@, 0, if i <= len { i as int } else { len as int }),
        decreases len - i,
    {
        let mut k = i;
        let mut placed = false;
        while k >= gap && !placed
            invariant
                compares_by(*compare, r),
                gap >= 1,
                len == array@.len(),
                k <= i < len,
                permutes(array@, initial),
                gap == 1 ==> sorted_range(r, array@, 0, k as int),
                gap == 1 ==> sorted_range(r, array@, k + 1, i + 1),
                gap == 1 ==> forall|p: int, q: int|
                    0 <= p < k < q <= i ==> le(r, #[trigger] array@[p], #[trigger] array@[q]),
                gap == 1 ==> forall|q: int|
                    k < q <= i ==> lt(r, array@[k as int], #[trigger] array@[q]),
                gap == 1 && placed ==> k > 0 && le(r, array@[k - 1], array@[k as int]),
            decreases k, if placed { 0int } else { 1int },
        {
            let o = compare(&array[k], &array[k - gap]);
            proof {
                lemma_total(r, array@[k as int], array@[k - gap]);
            }
            match o {
                Ordering::Less => {
                    swap(array, k - gap, k);
                    k -= gap;
                },
                _ => placed = true,
            }
        }
        i += 1;
    }
}

} // verus!
