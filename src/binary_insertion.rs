//! Insertion sort that finds each insertion point by binary search, after the
//! elements equal to the one inserted. Stable, O(N log N) comparisons, O(N²) moves.

use crate::order::{
    compares_by, is_total_order, le, lemma_lt_le_trans, lemma_natural_comparators, lemma_total, lt,
    natural, natural_compare, ordering_of, permutes, reversed, reversed_compare, sorted,
    sorted_range,
};
use crate::stable::{keeps_ties, lemma_keeps_ties_trans, lemma_swap_neighbours};
use crate::swap::swap;
use core::cmp::Ordering;
use vstd::laws_cmp::obeys_cmp;
use vstd::prelude::*;

verus! {

/// Sorts `array` in ascending order with binary insertion sort.
pub fn sort<T: Ord>(array: &mut [T])
    requires
        obeys_cmp::<T>(),
    ensures
        sorted(natural::<T>(), final(array)@),
        permutes(final(array)@, old(array)@),
        keeps_ties(natural::<T>(), final(array)@, old(array)@),
{
    proof {
        lemma_natural_comparators::<T>();
    }
    binary_insertion_sort_impl(array, &natural_compare::<T>, Ghost(natural::<T>()));
}

/// Sorts `array` in descending order with binary insertion sort.
pub fn sort_reverse<T: Ord>(array: &mut [T])
    requires
        obeys_cmp::<T>(),
    ensures
        sorted(reversed::<T>(), final(array)@),
        permutes(final(array)@, old(array)@),
        keeps_ties(reversed::<T>(), final(array)@, old(array)@),
{
    proof {
        lemma_natural_comparators::<T>();
    }
    binary_insertion_sort_impl(array, &reversed_compare::<T>, Ghost(reversed::<T>()));
}

/// Sorts `array` into the order that `compare` gives, with binary insertion sort.
pub fn sort_by<T, F: Fn(&T, &T) -> Ordering>(array: &mut [T], compare: F)
    requires
        is_total_order(compare),
    ensures
        sorted(ordering_of(compare), final(array)@),
        permutes(final(array)@, old(array)@),
        keeps_ties(ordering_of(compare), final(array)@, old(array)@),
{
    binary_insertion_sort_impl(array, &compare, Ghost(ordering_of(compare)))
}

/// Finds where `item` goes in the sorted positions `0..end` of `array`, searching
/// `low..high`: after every element not greater than it, before every greater one.
fn binary_search<T, F: Fn(&T, &T) -> Ordering>(
    array: &[T],
    item: &T,
    low: usize,
    high: usize,
    end: usize,
    compare: &F,
    Ghost(r): Ghost<spec_fn(T, T) -> Ordering>,
) -> (p: usize)
    requires
        compares_by(*compare, r),
        low <= high <= end <= array@.len(),
        sorted_range(r, array@, 0, end as int),
        forall|k: int| 0 <= k < low ==> le(r, #[trigger] array@[k], *item),
        forall|k: int| high <= k < end ==> lt(r, *item, #[trigger] array@[k]),
    ensures
        low <= p <= high,
        forall|k: int| 0 <= k < p ==> le(r, #[trigger] array@[k], *item),
        forall|k: int| p <= k < end ==> lt(r, *item, #[trigger] array@[k]),
    decreases high - low,
{
    if low >= high {
        return low;
    }
    let middle = low + (high - low) / 2;
    let o = compare(item, &array[middle]);
    proof {
        lemma_total(r, *item, array@[middle as int]);
    }
    match o {
        Ordering::Less => {
            proof {
                assert forall|k: int| middle <= k < end implies lt(r, *item, #[trigger] array@[k]) by {
                    if k > middle {
                        lemma_lt_le_trans(r, *item, array@[middle as int], array@[k]);
                    }
                }
            }
            binary_search(array, item, low, middle, end, compare, Ghost(r))
        },
        _ => {
            proof {
                assert forall|k: int| 0 <= k <= middle implies le(r, #[trigger] array@[k], *item) by {
                    if k >= low && k < middle {
                        assert(le(r, array@[k], array@[middle as int]));
                    }
                }
            }
            binary_search(array, item, middle + 1, high, end, compare, Ghost(r))
        },
    }
}

fn binary_insertion_sort_impl<T, F: Fn(&T, &T) -> Ordering>(
    array: &mut [T],
    compare: &F,
    Ghost(r): Ghost<spec_fn(T, T) -> Ordering>,
)
    requires
        compares_by(*compare, r),
    ensures
        sorted(r, final(array)@),
        permutes(final(array)@, old(array)@),
        keeps_ties(r, final(array)@, old(array)@),
{
    let ghost initial = array@;
    let len = array.len();
    let mut i: usize = 1;
    while i < len
        invariant
            compares_by(*compare, r),
            1 <= i,
            len == array@.len(),
            permutes(array@, initial),
            keeps_ties(r, array@, initial),
            sorted_range(r, array@, 0, if i <= len { i as int } else { len as int }),
        decreases len - i,
    {
        let index = binary_search(array, &array[i], 0, i, i, compare, Ghost(r));
        let ghost s = array@;
        let mut j = i;
        while j > index
            invariant
                index <= j <= i < len == array@.len() == s.len(),
                compares_by(*compare, r),
                permutes(array@, initial),
                permutes(s, initial),
                keeps_ties(r, array@, initial),
                forall|k: int| index <= k < i ==> lt(r, s[i as int], #[trigger] s[k]),
                array@[j as int] == s[i as int],
                forall|k: int| 0 <= k < j || i < k < len ==> #[trigger] array@[k] == s[k],
                forall|k: int| j < k <= i ==> #[trigger] array@[k] == s[k - 1],
            decreases j,
        {
            proof {
                lemma_swap_neighbours(r, array@, j - 1);
            }
            let ghost before_swap = array@;
            swap(array, j - 1, j);
            proof {
                lemma_keeps_ties_trans(r, array@, before_swap, initial);
            }
            j -= 1;
        }
        proof {
            let item = s[i as int];
            assert forall|a: int, b: int| 0 <= a < b < i + 1 implies le(r, #[trigger] array@[a], #[trigger] array@[b]) by {
                if b < index {
                    assert(le(r, s[a], s[b]));
                } else if b == index {
                    assert(le(r, s[a], item));
                } else if a < index {
                    assert(le(r, s[a], s[b - 1]));
                } else if a == index {
                    assert(lt(r, item, s[b - 1]));
                } else {
                    assert(le(r, s[a - 1], s[b - 1]));
                }
            }
        }
        i += 1;
    }
}

} // verus!
