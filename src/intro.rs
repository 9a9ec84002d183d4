//! Intro sort: quick sort with a median-of-three pivot, which hands a range over to
//! heap sort once its depth budget is spent and finishes small ranges by insertion
//! sort. Unstable, O(N log N).

use crate::order::{
    compares_by, is_total_order, le, lemma_natural_comparators, lemma_total, lt, natural,
    natural_compare, ordering_of, permutes, reversed, reversed_compare, sorted, sorted_range,
};
use crate::heap::heap_sort_impl;
use crate::insertion::insertion_sort_impl;
use crate::perm::{
    lemma_permutes_range_all, lemma_permutes_range_trans, lemma_permutes_range_whole,
    lemma_permutes_range_widen, lemma_swap_range, permutes_range,
};
use crate::swap::swap;
use core::cmp::Ordering;
use vstd::laws_cmp::obeys_cmp;
use vstd::arithmetic::power2::pow2;
use vstd::prelude::*;

verus! {

/// Sorts `array` in ascending order with intro sort.
pub fn sort<T: Ord>(array: &mut [T])
    requires
        obeys_cmp::<T>(),
    ensures
        sorted(natural::<T>(), final(array)@),
        permutes(final(array)@, old(array)@),
{
    proof {
        lemma_natural_comparators::<T>();
    }
    intro_sort_impl(array, &natural_compare::<T>, Ghost(natural::<T>()));
}

/// Sorts `array` in descending order with intro sort.
pub fn sort_reverse<T: Ord>(array: &mut [T])
    requires
        obeys_cmp::<T>(),
    ensures
        sorted(reversed::<T>(), final(array)@),
        permutes(final(array)@, old(array)@),
{
    proof {
        lemma_natural_comparators::<T>();
    }
    intro_sort_impl(array, &reversed_compare::<T>, Ghost(reversed::<T>()));
}

/// Sorts `array` into the order that `compare` gives, with intro sort.
pub fn sort_by<T, F: Fn(&T, &T) -> Ordering>(array: &mut [T], compare: F)
    requires
        is_total_order(compare),
    ensures
        sorted(ordering_of(compare), final(array)@),
        permutes(final(array)@, old(array)@),
{
    intro_sort_impl(array, &compare, Ghost(ordering_of(compare)))
}

/// Ranges of at most this many elements are finished by insertion sort.
const SMALL_RANGE: usize = 17;

fn intro_sort_impl<T, F: Fn(&T, &T) -> Ordering>(
    array: &mut [T],
    compare: &F,
    Ghost(r): Ghost<spec_fn(T, T) -> Ordering>,
)
    requires
        compares_by(*compare, r),
    ensures
        sorted(r, final(array)@),
        permutes(final(array)@, old(array)@),
{
    let len = array.len();
    // Depth budget: twice the floor of log2 of the length.
    let mut m = len;
    let mut log: usize = 0;
    proof {
        vstd::arithmetic::power2::lemma2_to64();
    }
    while m > 1
        invariant
            log < 64,
            m <= len,
            m * pow2(log as nat) <= len,
        decreases m,
    {
        proof {
            vstd::arithmetic::power2::lemma_pow2_pos(log as nat);
            vstd::arithmetic::power2::lemma_pow2_unfold((log + 1) as nat);
            assert(m * pow2(log as nat) <= len);
            assert((m / 2) * pow2((log + 1) as nat) <= len) by (nonlinear_arith)
                requires
                    m * pow2(log as nat) <= len,
                    pow2((log + 1) as nat) == 2 * pow2(log as nat),
                    m > 1,
            ;
            if log >= 63 {
                vstd::arithmetic::power2::lemma_pow2_strictly_increases(63, (log + 1) as nat);
                vstd::arithmetic::power2::lemma2_to64();
                assert(pow2(64) == 0x10000000000000000);
                vstd::arithmetic::power2::lemma_pow2_strictly_increases(63, 64);
                assert((m / 2) * pow2((log + 1) as nat) >= pow2((log + 1) as nat)) by (nonlinear_arith)
                    requires
                        m / 2 >= 1,
                        pow2((log + 1) as nat) > 0,
                ;
            }
        }
        m /= 2;
        log += 1;
    }
    intro_sort_recursive(array, 0, len, 2 * log, compare, Ghost(r));
    proof {
        lemma_permutes_range_whole(array@, old(array)@, 0, len as int);
    }
}

/// Sorts the positions `lo..hi`: by partitioning while `depth` lasts, then by heap
/// sort; small ranges by insertion sort.
fn intro_sort_recursive<T, F: Fn(&T, &T) -> Ordering>(
    array: &mut [T],
    lo: usize,
    hi: usize,
    depth: usize,
    compare: &F,
    Ghost(r): Ghost<spec_fn(T, T) -> Ordering>,
)
    requires
        compares_by(*compare, r),
        lo <= hi <= old(array)@.len(),
    ensures
        permutes_range(final(array)@, old(array)@, lo as int, hi as int),
        sorted_range(r, final(array)@, lo as int, hi as int),
    decreases hi - lo,
{
    if hi - lo <= SMALL_RANGE {
        sort_range(array, lo, hi, false, compare, Ghost(r));
        return;
    }
    if depth == 0 {
        sort_range(array, lo, hi, true, compare, Ghost(r));
        return;
    }
    let ghost s0 = array@;
    let pivot = find_pivot(array, lo, lo + (hi - lo) / 2, hi - 1, compare, Ghost(r));
    swap(array, pivot, hi - 1);
    proof {
        lemma_swap_range(s0, pivot as int, hi - 1, lo as int, hi as int);
    }
    let ghost s0b = array@;
    let p = intro_partition(array, lo, hi - 1, compare, Ghost(r));
    let ghost s1 = array@;
    let ghost piv = s1[p as int];
    intro_sort_recursive(array, lo, p, depth - 1, compare, Ghost(r));
    let ghost s2 = array@;
    intro_sort_recursive(array, p + 1, hi, depth - 1, compare, Ghost(r));
    let ghost s3 = array@;
    proof {
        let below = |x: T| le(r, x, piv);
        let above = |x: T| lt(r, piv, x);
        assert forall|k: int| lo <= k < p implies #[trigger] below(s1[k]) by {}
        lemma_permutes_range_all(s2, s1, lo as int, p as int, below);
        assert forall|k: int| p + 1 <= k < hi implies #[trigger] above(s2[k]) by {
            assert(s2[k] == s1[k]);
        }
        lemma_permutes_range_all(s3, s2, p + 1, hi as int, above);
        assert(s3[p as int] == piv);
        assert forall|i: int, j: int| lo <= i < j < hi implies le(r, #[trigger] s3[i], #[trigger] s3[j]) by {
            if i < p {
                assert(s3[i] == s2[i]);
                assert(below(s2[i]));
            }
            if j > p {
                assert(above(s3[j]));
            }
            if i < p && j > p {
                assert(le(r, s3[i], piv));
                assert(le(r, piv, s3[j]));
            }
        }
        lemma_permutes_range_widen(s2, s1, lo as int, p as int, lo as int, hi as int);
        lemma_permutes_range_widen(s3, s2, p + 1, hi as int, lo as int, hi as int);
        lemma_permutes_range_trans(s1, s0b, s0, lo as int, hi as int);
        lemma_permutes_range_trans(s2, s1, s0, lo as int, hi as int);
        lemma_permutes_range_trans(s3, s2, s0, lo as int, hi as int);
    }
}

/// Sorts the positions `lo..hi` alone, by heap sort or by insertion sort.
fn sort_range<T, F: Fn(&T, &T) -> Ordering>(
    array: &mut [T],
    lo: usize,
    hi: usize,
    by_heap: bool,
    compare: &F,
    Ghost(r): Ghost<spec_fn(T, T) -> Ordering>,
)
    requires
        compares_by(*compare, r),
        lo <= hi <= old(array)@.len(),
    ensures
        permutes_range(final(array)@, old(array)@, lo as int, hi as int),
        sorted_range(r, final(array)@, lo as int, hi as int),
{
    let ghost s = array@;
    let (head, rest) = array.split_at_mut(lo);
    let ghost rest0 = rest@;
    let (part, tail) = rest.split_at_mut(hi - lo);
    let ghost part0 = part@;
    if by_heap {
        heap_sort_impl(part, compare, Ghost(r));
    } else {
        insertion_sort_impl(part, compare, Ghost(r));
    }
    proof {
        part0.to_multiset_ensures();
        part@.to_multiset_ensures();
        assert(part0 =~= s.subrange(lo as int, hi as int));
        assert(array@ =~= head@ + (part@ + tail@));
        assert(array@.subrange(lo as int, hi as int) =~= part@);
        assert forall|k: int| 0 <= k < lo || hi <= k < s.len() implies #[trigger] array@[k] == s[k] by {
            if k >= hi {
                assert(tail@[k - hi] == s[k]);
            }
        }
        assert forall|i: int, j: int| lo <= i < j < hi implies le(r, #[trigger] array@[i], #[trigger] array@[j]) by {
            assert(array@[i] == part@[i - lo] && array@[j] == part@[j - lo]);
        }
    }
}

/// `x` lies between `y` and `z`, in one order or the other.
pub open spec fn is_median<T>(r: spec_fn(T, T) -> Ordering, x: T, y: T, z: T) -> bool {
    (le(r, y, x) && le(r, x, z)) || (le(r, z, x) && le(r, x, y))
}

/// Of two positions, the one holding the smaller element (the second on a tie).
fn smaller_index<T, F: Fn(&T, &T) -> Ordering>(
    array: &[T],
    left: usize,
    right: usize,
    compare: &F,
    Ghost(r): Ghost<spec_fn(T, T) -> Ordering>,
) -> (m: usize)
    requires
        compares_by(*compare, r),
        left < array@.len(),
        right < array@.len(),
    ensures
        m == left || m == right,
        le(r, array@[m as int], array@[left as int]),
        le(r, array@[m as int], array@[right as int]),
{
    let o = compare(&array[left], &array[right]);
    proof {
        lemma_total(r, array@[left as int], array@[right as int]);
        lemma_total(r, array@[left as int], array@[left as int]);
        lemma_total(r, array@[right as int], array@[right as int]);
    }
    match o {
        Ordering::Less => left,
        _ => right,
    }
}

/// Of two positions, the one holding the greater element (the first on a tie).
fn larger_index<T, F: Fn(&T, &T) -> Ordering>(
    array: &[T],
    left: usize,
    right: usize,
    compare: &F,
    Ghost(r): Ghost<spec_fn(T, T) -> Ordering>,
) -> (m: usize)
    requires
        compares_by(*compare, r),
        left < array@.len(),
        right < array@.len(),
    ensures
        m == left || m == right,
        le(r, array@[left as int], array@[m as int]),
        le(r, array@[right as int], array@[m as int]),
{
    let o = compare(&array[left], &array[right]);
    proof {
        lemma_total(r, array@[left as int], array@[right as int]);
        lemma_total(r, array@[left as int], array@[left as int]);
        lemma_total(r, array@[right as int], array@[right as int]);
    }
    match o {
        Ordering::Less => right,
        _ => left,
    }
}

/// The position among `left`, `middle` and `right` that holds the median of the three.
fn find_pivot<T, F: Fn(&T, &T) -> Ordering>(
    array: &[T],
    left: usize,
    middle: usize,
    right: usize,
    compare: &F,
    Ghost(r): Ghost<spec_fn(T, T) -> Ordering>,
) -> (p: usize)
    requires
        compares_by(*compare, r),
        left < middle < right < array@.len(),
    ensures
        p == left ==> is_median(r, array@[left as int], array@[middle as int], array@[right as int]),
        p == middle ==> is_median(r, array@[middle as int], array@[left as int], array@[right as int]),
        p == right ==> is_median(r, array@[right as int], array@[left as int], array@[middle as int]),
        p == left || p == middle || p == right,
{
    let lo_lr = smaller_index(array, left, right, compare, Ghost(r));
    let lowest = smaller_index(array, lo_lr, middle, compare, Ghost(r));
    let hi_lr = larger_index(array, left, right, compare, Ghost(r));
    let highest = larger_index(array, hi_lr, middle, compare, Ghost(r));
    proof {
        lemma_total(r, array@[left as int], array@[right as int]);
        lemma_total(r, array@[left as int], array@[middle as int]);
        lemma_total(r, array@[middle as int], array@[right as int]);
    }
    if left != highest && left != lowest {
        return left;
    }
    if right != highest && right != lowest {
        return right;
    }
    middle
}

/// Partitions `left..=right` around the element at `right`: those not greater than
/// it come first, then it, then those greater. Returns its new position.
fn intro_partition<T, F: Fn(&T, &T) -> Ordering>(
    array: &mut [T],
    left: usize,
    right: usize,
    compare: &F,
    Ghost(r): Ghost<spec_fn(T, T) -> Ordering>,
) -> (p: usize)
    requires
        compares_by(*compare, r),
        left <= right < old(array)@.len(),
    ensures
        left <= p <= right,
        permutes_range(final(array)@, old(array)@, left as int, right + 1),
        forall|k: int| left <= k < p ==> le(r, #[trigger] final(array)@[k], final(array)@[p as int]),
        forall|k: int| p < k <= right ==> lt(r, final(array)@[p as int], #[trigger] final(array)@[k]),
{
    let ghost s0 = array@;
    let ghost pivot = s0[right as int];
    let mut store = left;
    let mut j = left;
    while j < right
        invariant
            compares_by(*compare, r),
            left <= store <= j <= right < array@.len(),
            array@[right as int] == pivot,
            permutes_range(array@, s0, left as int, right + 1),
            forall|k: int| left <= k < store ==> le(r, #[trigger] array@[k], pivot),
            forall|k: int| store <= k < j ==> lt(r, pivot, #[trigger] array@[k]),
        decreases right - j,
    {
        let o = compare(&array[j], &array[right]);
        proof {
            lemma_total(r, array@[j as int], pivot);
        }
        match o {
            Ordering::Greater => {},
            _ => {
                let ghost before = array@;
                swap(array, store, j);
                proof {
                    lemma_swap_range(before, store as int, j as int, left as int, right + 1);
                    lemma_permutes_range_trans(array@, before, s0, left as int, right + 1);
                }
                store += 1;
            },
        }
        j += 1;
    }
    let ghost before = array@;
    swap(array, store, right);
    proof {
        lemma_swap_range(before, store as int, right as int, left as int, right + 1);
        lemma_permutes_range_trans(array@, before, s0, left as int, right + 1);
    }
    store
}

} // verus!
