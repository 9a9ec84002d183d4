//! Pancake sort: each greatest remaining element is brought to the front by one prefix
//! reversal and to its place by another. Unstable, O(N²).

use crate::order::{
    compares_by, is_total_order, le, lemma_natural_comparators, lemma_total, natural,
    natural_compare, ordering_of, permutes, reversed, reversed_compare, sorted, sorted_range,
};
use crate::perm::{
    lemma_permutes_range_all, lemma_permutes_range_refl, lemma_permutes_range_trans,
    lemma_permutes_range_whole, lemma_permutes_range_widen, lemma_swap_range, permutes_range,
};
use crate::swap::swap;
use core::cmp::Ordering;
use vstd::laws_cmp::obeys_cmp;
use vstd::prelude::*;

verus! {

/// Sorts `array` in ascending order with pancake sort.
pub fn sort<T: Ord>(array: &mut [T])
    requires
        obeys_cmp::<T>(),
    ensures
        sorted(natural::<T>(), final(array)@),
        permutes(final(array)@, old(array)@),
{
    proof {
        lemma_natural_comparators::<T>();
    }
    pancake_sort_impl(array, &natural_compare::<T>, Ghost(natural::<T>()));
}

/// Sorts `array` in descending order with pancake sort.
pub fn sort_reverse<T: Ord>(array: &mut [T])
    requires
        obeys_cmp::<T>(),
    ensures
        sorted(reversed::<T>(), final(array)@),
        permutes(final(array)@, old(array)@),
{
    proof {
        lemma_natural_comparators::<T>();
    }
    pancake_sort_impl(array, &reversed_compare::<T>, Ghost(reversed::<T>()));
}

/// Sorts `array` into the order that `compare` gives, with pancake sort.
pub fn sort_by<T, F: Fn(&T, &T) -> Ordering>(array: &mut [T], compare: F)
    requires
        is_total_order(compare),
    ensures
        sorted(ordering_of(compare), final(array)@),
        permutes(final(array)@, old(array)@),
{
    pancake_sort_impl(array, &compare, Ghost(ordering_of(compare)))
}

/// The position of a greatest element among the positions `0..n`.
fn find_max<T, F: Fn(&T, &T) -> Ordering>(
    array: &[T],
    n: usize,
    compare: &F,
    Ghost(r): Ghost<spec_fn(T, T) -> Ordering>,
) -> (m: usize)
    requires
        compares_by(*compare, r),
        0 < n <= array@.len(),
    ensures
        m < n,
        forall|k: int| 0 <= k < n ==> le(r, #[trigger] array@[k], array@[m as int]),
{
    let mut max_index: usize = 0;
    let mut i: usize = 0;
    proof {
        lemma_total(r, array@[0], array@[0]);
    }
    while i < n
        invariant
            compares_by(*compare, r),
            i <= n <= array@.len(),
            max_index < n,
            forall|k: int| 0 <= k < i ==> le(r, #[trigger] array@[k], array@[max_index as int]),
        decreases n - i,
    {
        let o = compare(&array[i], &array[max_index]);
        proof {
            lemma_total(r, array@[i as int], array@[max_index as int]);
        }
        match o {
            Ordering::Greater => max_index = i,
            _ => {},
        }
        i += 1;
    }
    max_index
}

/// Reverses the positions `0..=i`.
fn flip<T>(array: &mut [T], i: usize)
    requires
        i < old(array)@.len(),
    ensures
        permutes_range(final(array)@, old(array)@, 0, i + 1),
        forall|x: int| 0 <= x <= i ==> #[trigger] final(array)@[x] == old(array)@[i - x],
{
    let ghost s = array@;
    let mut start: usize = 0;
    let mut end = i;
    while start < end
        invariant
            array@.len() == s.len(),
            i < s.len(),
            start + end == i,
            start <= end + 1,
            permutes_range(array@, s, 0, i + 1),
            forall|x: int| 0 <= x < start || end < x <= i ==> #[trigger] array@[x] == s[i - x],
            forall|x: int| start <= x <= end ==> #[trigger] array@[x] == s[x],
        decreases end + 1 - start,
    {
        let ghost before = array@;
        swap(array, start, end);
        proof {
            lemma_swap_range(before, start as int, end as int, 0, i + 1);
            lemma_permutes_range_trans(array@, before, s, 0, i + 1);
        }
        start += 1;
        end -= 1;
    }
}

fn pancake_sort_impl<T, F: Fn(&T, &T) -> Ordering>(
    array: &mut [T],
    compare: &F,
    Ghost(r): Ghost<spec_fn(T, T) -> Ordering>,
)
    requires
        compares_by(*compare, r),
    ensures
        sorted(r, final(array)@),
        permutes(final(array)@, old(array)@),
{
    let ghost initial = array@;
    let len = array.len();
    let mut i = len;
    while i > 0
        invariant
            compares_by(*compare, r),
            i <= len == array@.len(),
            permutes(array@, initial),
            sorted_range(r, array@, i as int, len as int),
            forall|p: int, q: int| 0 <= p < i <= q < len ==> le(r, #[trigger] array@[p], #[trigger] array@[q]),
        decreases i,
    {
        let max_index = find_max(array, i, compare, Ghost(r));
        let ghost s = array@;
        let ghost top = s[max_index as int];
        if max_index != i - 1 {
            flip(array, max_index);
            let ghost s1 = array@;
            flip(array, i - 1);
            proof {
                lemma_permutes_range_widen(s1, s, 0, max_index + 1, 0, i as int);
                lemma_permutes_range_trans(array@, s1, s, 0, i as int);
            }
        } else {
            proof {
                lemma_permutes_range_refl(s, 0, i as int);
            }
        }
        proof {
            let below = |x: T| le(r, x, top) && forall|q: int| i <= q < len ==> le(r, x, #[trigger] s[q]);
            assert forall|k: int| 0 <= k < i implies #[trigger] below(s[k]) by {}
            lemma_permutes_range_all(array@, s, 0, i as int, below);
            lemma_permutes_range_whole(array@, s, 0, i as int);
            assert(array@[i - 1] == top);
            assert forall|p: int, q: int| i - 1 <= p < q < len implies le(r, #[trigger] array@[p], #[trigger] array@[q]) by {
                if p == i - 1 {
                    assert(below(array@[p]));
                    assert(array@[q] == s[q]);
                } else {
                    assert(array@[p] == s[p] && array@[q] == s[q]);
                }
            }
            assert forall|p: int, q: int| 0 <= p < i - 1 <= q < len implies le(r, #[trigger] array@[p], #[trigger] array@[q]) by {
                assert(below(array@[p]));
                if q >= i {
                    assert(array@[q] == s[q]);
                }
            }
        }
        i -= 1;
    }
}

} // verus!
