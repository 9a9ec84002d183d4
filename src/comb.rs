//! Comb sort: exchanges over a gap that shrinks by a factor of 1.3 down to one, then
//! bubble passes until one exchanges nothing. Unstable, O(N²) at worst.

use crate::order::{
    compares_by, is_total_order, le, lemma_natural_comparators, lemma_total, natural,
    natural_compare, ordering_of, permutes, reversed, reversed_compare, sorted, sorted_range,
};
use crate::swap::swap;
use core::cmp::Ordering;
use vstd::laws_cmp::obeys_cmp;
use vstd::prelude::*;

verus! {

/// Sorts `array` in ascending order with comb sort.
pub fn sort<T: Ord>(array: &mut [T])
    requires
        obeys_cmp::<T>(),
    ensures
        sorted(natural::<T>(), final(array)@),
        permutes(final(array)@, old(array)@),
{
    proof {
        lemma_natural_comparators::<T>();
    }
    comb_sort_impl(array, &natural_compare::<T>, Ghost(natural::<T>()));
}

/// Sorts `array` in descending order with comb sort.
pub fn sort_reverse<T: Ord>(array: &mut [T])
    requires
        obeys_cmp::<T>(),
    ensures
        sorted(reversed::<T>(), final(array)@),
        permutes(final(array)@, old(array)@),
{
    proof {
        lemma_natural_comparators::<T>();
    }
    comb_sort_impl(array, &reversed_compare::<T>, Ghost(reversed::<T>()));
}

/// Sorts `array` into the order that `compare` gives, with comb sort.
pub fn sort_by<T, F: Fn(&T, &T) -> Ordering>(array: &mut [T], compare: F)
    requires
        is_total_order(compare),
    ensures
        sorted(ordering_of(compare), final(array)@),
        permutes(final(array)@, old(array)@),
{
    comb_sort_impl(array, &compare, Ghost(ordering_of(compare)))
}

/// The positions from `len - k` on hold their final elements: they are sorted, and no
/// element before them is greater than any of them.
pub open spec fn settled<T>(r: spec_fn(T, T) -> Ordering, s: Seq<T>, k: int) -> bool {
    &&& 0 <= k <= s.len()
    &&& sorted_range(r, s, s.len() - k, s.len() as int)
    &&& forall|p: int, q: int|
        0 <= p < s.len() - k <= q < s.len() ==> le(r, #[trigger] s[p], #[trigger] s[q])
}

fn comb_sort_impl<T, F: Fn(&T, &T) -> Ordering>(
    array: &mut [T],
    compare: &F,
    Ghost(r): Ghost<spec_fn(T, T) -> Ordering>,
)
    requires
        compares_by(*compare, r),
    ensures
        sorted(r, final(array)@),
        permutes(final(array)@, old(array)@),
{
    let ghost initial = array@;
    let len = array.len();
    let mut gap = len;
    let mut done = false;
    let ghost mut k: int = 0;
    while !done
        invariant
            compares_by(*compare, r),
            len == array@.len(),
            permutes(array@, initial),
            gap <= 1 ==> settled(r, array@, k),
            gap <= 1 ==> 0 <= k <= len,
            gap > 1 ==> k == 0,
            done ==> sorted(r, array@),
        decreases if gap > 1 { gap as int } else { 1int }, len - k, if done { 0int } else { 1int },
    {
        // Shrink the gap by a factor of 1.3.
        let ghost g = gap;
        gap = gap / 13 * 10 + gap % 13 * 10 / 13;
        proof {
            if g >= 2 {
                assert(gap < g) by (nonlinear_arith)
                    requires
                        g >= 2,
                        gap == g / 13 * 10 + g % 13 * 10 / 13,
                ;
            }
        }
        if gap > 1 {
            done = false;
        } else {
            gap = 1;
            done = true;
        }
        let swapped = comb_pass(array, gap, compare, Ghost(r), Ghost(k));
        if swapped {
            done = false;
        }
        proof {
            if gap == 1 && k < len {
                k = k + 1;
            }
        }
    }
}

/// Compares and, where out of order, exchanges each pair of positions `gap` apart,
/// from the left. With a gap of one this is a bubble pass: it settles one more
/// position, and when it exchanges nothing the slice is sorted.
fn comb_pass<T, F: Fn(&T, &T) -> Ordering>(
    array: &mut [T],
    gap: usize,
    compare: &F,
    Ghost(r): Ghost<spec_fn(T, T) -> Ordering>,
    Ghost(k): Ghost<int>,
) -> (swapped: bool)
    requires
        compares_by(*compare, r),
        gap >= 1,
        gap == 1 ==> settled(r, old(array)@, k),
    ensures
        final(array)@.len() == old(array)@.len(),
        permutes(final(array)@, old(array)@),
        gap == 1 ==> settled(r, final(array)@, if k < final(array)@.len() { k + 1 } else { k }),
        gap == 1 && !swapped ==> sorted(r, final(array)@),
        gap == 1 && k == old(array)@.len() ==> !swapped,
{
    let ghost initial = array@;
    let len = array.len();
    let mut swapped = false;
    let mut i: usize = 0;
    while i < len && gap < len - i
        invariant
            compares_by(*compare, r),
            gap >= 1,
            len == array@.len(),
            i < len || len == 0,
            permutes(array@, initial),
            gap == 1 ==> settled(r, array@, k),
            gap == 1 ==> forall|p: int| 0 <= p <= i && p < len ==> le(r, #[trigger] array@[p], array@[i as int]),
            gap == 1 && !swapped ==> sorted_range(r, array@, 0, i + 1),
            gap == 1 && k == len ==> !swapped && array@ == initial,
            gap == 1 && k < len && i >= len - k - 1 ==> forall|p: int|
                0 <= p <= len - k - 1 ==> le(r, #[trigger] array@[p], array@[len - k - 1]),
        decreases len - i,
    {
        let o = compare(&array[i], &array[i + gap]);
        proof {
            lemma_total(r, array@[i as int], array@[i + gap]);
            if gap == 1 && i + 1 >= len - k {
                // Inside the settled positions, or at their border, neighbours are in order.
                assert(le(r, array@[i as int], array@[i + 1]));
            }
        }
        match o {
            Ordering::Greater => {
                swap(array, i, i + gap);
                swapped = true;
            },
            _ => {},
        }
        i += 1;
    }
    proof {
        if gap == 1 && len > 0 {
            assert(i == len - 1);
            if k < len {
                let m = len - k - 1;
                assert forall|q: int| m < q < len implies le(r, array@[m], #[trigger] array@[q]) by {}
                assert forall|p: int| 0 <= p < m implies le(r, #[trigger] array@[p], array@[m]) by {}
            }
        }
        if gap == 1 && len == 0 {
            assert(array@.len() == 0);
        }
    }
    swapped
}

} // verus!
