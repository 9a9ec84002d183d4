//! Heap sort: builds a max-heap over the unsorted prefix by moving each element up
//! towards the root, then moves the root to the end of that prefix, and again over
//! the shorter prefix. Unstable.

use crate::order::{
    compares_by, is_total_order, le, lemma_natural_comparators, lemma_total, natural,
    natural_compare, ordering_of, permutes, reversed, reversed_compare, sorted, sorted_range,
    total_preorder,
};
use crate::perm::{
    lemma_permutes_range_all, lemma_permutes_range_trans, lemma_permutes_range_whole,
    lemma_swap_range, permutes_range,
};
use crate::swap::swap;
use core::cmp::Ordering;
use vstd::laws_cmp::obeys_cmp;
use vstd::prelude::*;

verus! {

/// Sorts `array` in ascending order with heap sort.
pub fn sort<T: Ord>(array: &mut [T])
    requires
        obeys_cmp::<T>(),
    ensures
        sorted(natural::<T>(), final(array)@),
        permutes(final(array)@, old(array)@),
{
    proof {
        lemma_natural_comparators::<T>();
    }
    heap_sort_impl(array, &natural_compare::<T>, Ghost(natural::<T>()));
}

/// Sorts `array` in descending order with heap sort.
pub fn sort_reverse<T: Ord>(array: &mut [T])
    requires
        obeys_cmp::<T>(),
    ensures
        sorted(reversed::<T>(), final(array)@),
        permutes(final(array)@, old(array)@),
{
    proof {
        lemma_natural_comparators::<T>();
    }
    heap_sort_impl(array, &reversed_compare::<T>, Ghost(reversed::<T>()));
}

/// Sorts `array` into the order that `compare` gives, with heap sort.
pub fn sort_by<T, F: Fn(&T, &T) -> Ordering>(array: &mut [T], compare: F)
    requires
        is_total_order(compare),
    ensures
        sorted(ordering_of(compare), final(array)@),
        permutes(final(array)@, old(array)@),
{
    heap_sort_impl(array, &compare, Ghost(ordering_of(compare)))
}

/// Positions `1..n` of `s` are each no greater than their parent `(k - 1) / 2`.
pub open spec fn is_heap<T>(r: spec_fn(T, T) -> Ordering, s: Seq<T>, n: int) -> bool {
    forall|k: int| 1 <= k < n ==> le(r, #[trigger] s[k], s[(k - 1) / 2])
}

/// The root of a heap is no smaller than any of its elements.
proof fn lemma_heap_root<T>(r: spec_fn(T, T) -> Ordering, s: Seq<T>, n: int, k: int)
    requires
        total_preorder(r),
        is_heap(r, s, n),
        0 <= k < n <= s.len(),
    ensures
        le(r, s[k], s[0]),
    decreases k,
{
    if k == 0 {
        lemma_total(r, s[0], s[0]);
    } else {
        lemma_heap_root(r, s, n, (k - 1) / 2);
        assert(le(r, s[k], s[(k - 1) / 2]));
    }
}

pub(crate) fn heap_sort_impl<T, F: Fn(&T, &T) -> Ordering>(
    array: &mut [T],
    compare: &F,
    Ghost(r): Ghost<spec_fn(T, T) -> Ordering>,
)
    requires
        compares_by(*compare, r),
    ensures
        sorted(r, final(array)@),
        permutes(final(array)@, old(array)@),
{
    let ghost initial = array@;
    let len = array.len();
    make_heap(array, len, compare, Ghost(r));
    proof {
        lemma_permutes_range_whole(array@, initial, 0, len as int);
    }
    let mut i = len;
    while i > 0
        invariant
            compares_by(*compare, r),
            i <= len == array@.len(),
            permutes(array@, initial),
            is_heap(r, array@, i as int),
            sorted_range(r, array@, i as int, len as int),
            forall|p: int, q: int| 0 <= p < i <= q < len ==> le(r, #[trigger] array@[p], #[trigger] array@[q]),
        decreases i,
    {
        i -= 1;
        proof {
            assert forall|k: int| 0 <= k <= i implies le(r, #[trigger] array@[k], array@[0]) by {
                lemma_heap_root(r, array@, i + 1, k);
            }
        }
        swap(array, 0, i);
        let ghost s1 = array@;
        make_heap(array, i, compare, Ghost(r));
        proof {
            let below = |x: T| forall|q: int| i <= q < len ==> le(r, x, #[trigger] s1[q]);
            assert forall|k: int| 0 <= k < i implies #[trigger] below(s1[k]) by {}
            lemma_permutes_range_all(array@, s1, 0, i as int, below);
            lemma_permutes_range_whole(array@, s1, 0, i as int);
            assert forall|p: int, q: int| 0 <= p < i <= q < len implies le(r, #[trigger] array@[p], #[trigger] array@[q]) by {
                assert(below(array@[p]));
                assert(array@[q] == s1[q]);
            }
        }
    }
}

/// Arranges the positions `0..n` of `array` into a heap, adding one element at a
/// time and moving it up towards the root.
fn make_heap<T, F: Fn(&T, &T) -> Ordering>(
    array: &mut [T],
    n: usize,
    compare: &F,
    Ghost(r): Ghost<spec_fn(T, T) -> Ordering>,
)
    requires
        compares_by(*compare, r),
        n <= old(array)@.len(),
    ensures
        permutes_range(final(array)@, old(array)@, 0, n as int),
        is_heap(r, final(array)@, n as int),
{
    let ghost s0 = array@;
    let mut i: usize = 1;
    while i < n
        invariant
            compares_by(*compare, r),
            1 <= i,
            n <= array@.len(),
            permutes_range(array@, s0, 0, n as int),
            is_heap(r, array@, if i <= n { i as int } else { n as int }),
        decreases n - i,
    {
        let mut child = i;
        while child > 0
            invariant
                compares_by(*compare, r),
                child <= i < n <= array@.len(),
                permutes_range(array@, s0, 0, n as int),
                forall|k: int|
                    1 <= k <= i && k != child ==> le(r, #[trigger] array@[k], array@[(k - 1) / 2]),
                child > 0 ==> forall|k: int|
                    1 <= k <= i && (k - 1) / 2 == child ==> le(
                        r,
                        #[trigger] array@[k],
                        array@[(child - 1) / 2],
                    ),
            decreases child,
        {
            let root = (child - 1) / 2;
            let o = compare(&array[root], &array[child]);
            proof {
                lemma_total(r, array@[root as int], array@[child as int]);
                if root > 0 {
                    assert(le(r, array@[root as int], array@[(root - 1) / 2]));
                }
            }
            match o {
                Ordering::Less => {
                    let ghost before = array@;
                    swap(array, root, child);
                    proof {
                        lemma_swap_range(before, root as int, child as int, 0, n as int);
                        lemma_permutes_range_trans(array@, before, s0, 0, n as int);
                    }
                },
                _ => {},
            }
            child = root;
        }
        i += 1;
    }
}

} // verus!
