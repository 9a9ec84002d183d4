//! Double selection sort: each pass over the unsorted middle moves its smallest element
//! to the front and its greatest to the back. Unstable, O(N²).

use crate::order::{
    compares_by, is_total_order, le, lemma_natural_comparators, lemma_total, lt, natural,
    natural_compare, ordering_of, permutes, reversed, reversed_compare, sorted, sorted_range,
};
use crate::swap::swap;
use core::cmp::Ordering;
use vstd::laws_cmp::obeys_cmp;
use vstd::prelude::*;

verus! {

/// Sorts `array` in ascending order with double selection sort.
pub fn sort<T: Ord>(array: &mut [T])
    requires
        obeys_cmp::<T>(),
    ensures
        sorted(natural::<T>(), final(array)@),
        permutes(final(array)@, old(array)@),
{
    proof {
        lemma_natural_comparators::<T>();
    }
    double_selection_sort_impl(array, &natural_compare::<T>, Ghost(natural::<T>()));
}

/// Sorts `array` in descending order with double selection sort.
pub fn sort_reverse<T: Ord>(array: &mut [T])
    requires
        obeys_cmp::<T>(),
    ensures
        sorted(reversed::<T>(), final(array)@),
        permutes(final(array)@, old(array)@),
{
    proof {
        lemma_natural_comparators::<T>();
    }
    double_selection_sort_impl(array, &reversed_compare::<T>, Ghost(reversed::<T>()));
}

/// Sorts `array` into the order that `compare` gives, with double selection sort.
pub fn sort_by<T, F: Fn(&T, &T) -> Ordering>(array: &mut [T], compare: F)
    requires
        is_total_order(compare),
    ensures
        sorted(ordering_of(compare), final(array)@),
        permutes(final(array)@, old(array)@),
{
    double_selection_sort_impl(array, &compare, Ghost(ordering_of(compare)))
}

fn double_selection_sort_impl<T, F: Fn(&T, &T) -> Ordering>(
    array: &mut [T],
    compare: &F,
    Ghost(r): Ghost<spec_fn(T, T) -> Ordering>,
)
    requires
        compares_by(*compare, r),
    ensures
        sorted(r, final(array)@),
        permutes(final(array)@, old(array)@),
{
    let ghost initial = array@;
    let len = array.len();
    if len == 0 {
        return;
    }
    let mut first: usize = 0;
    let mut last: usize = len - 1;
    while first < last
        invariant
            compares_by(*compare, r),
            len == array@.len(),
            first <= last + 1,
            last < len,
            last == len - 1 - first,
            permutes(array@, initial),
            sorted_range(r, array@, 0, first as int),
            sorted_range(r, array@, last + 1, len as int),
            forall|p: int, q: int| 0 <= p < first <= q < len ==> le(r, #[trigger] array@[p], #[trigger] array@[q]),
            forall|p: int, q: int| 0 <= p <= last < q < len ==> le(r, #[trigger] array@[p], #[trigger] array@[q]),
        decreases last + 1 - first,
    {
        let mut min_i = first;
        let mut max_i = first;
        let mut i = first;
        proof {
            lemma_total(r, array@[first as int], array@[first as int]);
        }
        while i <= last
            invariant
                compares_by(*compare, r),
                len == array@.len(),
                first <= min_i <= last,
                first <= max_i <= last,
                first <= i <= last + 1,
                last < len,
                forall|k: int| first <= k < i ==> le(r, #[trigger] array@[k], array@[max_i as int]),
                forall|k: int| first <= k < i ==> le(r, array@[min_i as int], #[trigger] array@[k]),
                i == first ==> min_i == first && max_i == first,
            decreases last + 1 - i,
        {
            let o = compare(&array[i], &array[max_i]);
            proof {
                lemma_total(r, array@[i as int], array@[max_i as int]);
            }
            match o {
                Ordering::Greater => max_i = i,
                _ => {},
            }
            let o2 = compare(&array[i], &array[min_i]);
            proof {
                lemma_total(r, array@[i as int], array@[min_i as int]);
            }
            match o2 {
                Ordering::Less => min_i = i,
                _ => {},
            }
            i += 1;
        }
        let ghost s = array@;
        let ghost lo = s[min_i as int];
        let ghost hi = s[max_i as int];
        if first == max_i {
            max_i = min_i;
        }
        swap(array, first, min_i);
        let ghost s1 = array@;
        proof {
            assert forall|k: int| first <= k <= last implies le(r, #[trigger] s1[k], s1[max_i as int]) by {
                if max_i == min_i && min_i != first {
                    assert(le(r, lo, s[first as int]) && le(r, s[first as int], hi));
                    assert(le(r, s1[k], hi));
                }
            }
            assert forall|k: int| first <= k <= last implies le(r, s1[first as int], #[trigger] s1[k]) by {}
        }
        swap(array, last, max_i);
        proof {
            let s2 = array@;
            assert forall|k: int| first <= k <= last implies le(r, #[trigger] s2[k], s2[last as int]) by {
                if k == max_i {
                    assert(s2[k] == s1[last as int]);
                }
            }
            assert forall|k: int| first <= k <= last implies le(r, s2[first as int], #[trigger] s2[k]) by {
                if max_i == first {
                    assert(le(r, s1[first as int], s1[last as int]));
                    assert(le(r, s1[last as int], s1[first as int]));
                    assert(le(r, s1[first as int], s1[k]));
                    if k == last {
                        assert(s2[k] == s1[first as int]);
                    } else if k != first {
                        assert(s2[k] == s1[k]);
                    }
                } else if k == max_i {
                    assert(s2[k] == s1[last as int]);
                } else if k == last {
                    assert(s2[k] == s1[max_i as int]);
                }
            }
            assert forall|p: int, q: int| 0 <= p < first + 1 <= q < len implies le(r, #[trigger] s2[p], #[trigger] s2[q]) by {
                if p < first {
                    assert(s2[p] == s[p]);
                }
            }
        }
        first += 1;
        last -= 1;
    }
}

} // verus!
