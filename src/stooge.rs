//! Stooge sort: unstable, O(N^2.7).

use crate::order::{
    compares_by, is_total_order, le, lemma_lt_le_trans, lemma_natural_comparators, lemma_total, lt,
    natural,
    natural_compare, ordering_of, permutes, reversed, reversed_compare, sorted, sorted_range,
};
use crate::perm::{
    lemma_filter_all, lemma_filter_len_permutes, lemma_filter_none, lemma_permutes_range_all,
    lemma_permutes_range_refl, lemma_permutes_range_trans, lemma_permutes_range_whole,
    lemma_permutes_range_widen, lemma_swap_range, permutes_range,
};
use crate::swap::swap;
use core::cmp::Ordering;
use vstd::laws_cmp::obeys_cmp;
use vstd::prelude::*;

verus! {

/// Sorts `array` in ascending order with stooge sort.
pub fn sort<T: Ord>(array: &mut [T])
    requires
        obeys_cmp::<T>(),
    ensures
        sorted(natural::<T>(), final(array)@),
        permutes(final(array)@, old(array)@),
{
    proof {
        lemma_natural_comparators::<T>();
    }
    stooge_sort_impl(array, &natural_compare::<T>, Ghost(natural::<T>()));
}

/// Sorts `array` in descending order with stooge sort.
pub fn sort_reverse<T: Ord>(array: &mut [T])
    requires
        obeys_cmp::<T>(),
    ensures
        sorted(reversed::<T>(), final(array)@),
        permutes(final(array)@, old(array)@),
{
    proof {
        lemma_natural_comparators::<T>();
    }
    stooge_sort_impl(array, &reversed_compare::<T>, Ghost(reversed::<T>()));
}

/// Sorts `array` into the order that `compare` gives, with stooge sort.
pub fn sort_by<T, F: Fn(&T, &T) -> Ordering>(array: &mut [T], compare: F)
    requires
        is_total_order(compare),
    ensures
        sorted(ordering_of(compare), final(array)@),
        permutes(final(array)@, old(array)@),
{
    stooge_sort_impl(array, &compare, Ghost(ordering_of(compare)))
}

/// The elements that `r` does not place strictly before `x`.
pub open spec fn not_before<T>(r: spec_fn(T, T) -> Ordering, x: T) -> spec_fn(T) -> bool {
    |y: T| r(y, x) != Ordering::Less
}

fn stooge_sort_impl<T, F: Fn(&T, &T) -> Ordering>(
    array: &mut [T],
    compare: &F,
    Ghost(r): Ghost<spec_fn(T, T) -> Ordering>,
)
    requires
        compares_by(*compare, r),
    ensures
        sorted(r, final(array)@),
        permutes(final(array)@, old(array)@),
{
    let len = array.len();
    if len == 0 {
        return;
    }
    stooge_sort_recursive(array, 0, len - 1, compare, Ghost(r));
    proof {
        lemma_permutes_range_whole(array@, old(array)@, 0, len as int);
    }
}

/// Sorts the positions `i..=j`: orders their ends, then, when there are more than
/// two, sorts the first two thirds, the last two thirds, and the first two thirds
/// again.
fn stooge_sort_recursive<T, F: Fn(&T, &T) -> Ordering>(
    array: &mut [T],
    i: usize,
    j: usize,
    compare: &F,
    Ghost(r): Ghost<spec_fn(T, T) -> Ordering>,
)
    requires
        compares_by(*compare, r),
        i <= j < old(array)@.len(),
    ensures
        permutes_range(final(array)@, old(array)@, i as int, j + 1),
        sorted_range(r, final(array)@, i as int, j + 1),
    decreases j - i,
{
    let ghost s0 = array@;
    let o = compare(&array[i], &array[j]);
    proof {
        lemma_total(r, array@[i as int], array@[j as int]);
    }
    match o {
        Ordering::Greater => {
            swap(array, i, j);
            proof {
                lemma_swap_range(s0, i as int, j as int, i as int, j + 1);
            }
        },
        _ => {
            proof {
                lemma_permutes_range_refl(s0, i as int, j + 1);
            }
        },
    }
    if j - i + 1 > 2 {
        let k = (j - i + 1) / 3;
        let ghost s1 = array@;
        stooge_sort_recursive(array, i, j - k, compare, Ghost(r));
        let ghost s2 = array@;
        stooge_sort_recursive(array, i + k, j, compare, Ghost(r));
        let ghost s3 = array@;
        proof {
            // Every element of the first third is now no greater than every element of
            // the last third.
            assert forall|p: int, q: int| i <= p < i + k && j - k < q <= j implies le(
                r,
                #[trigger] s3[p],
                #[trigger] s3[q],
            ) by {
                let x = s3[p];
                assert(x == s2[p]);
                if !le(r, x, s3[q]) {
                    lemma_total(r, x, s3[q]);
                    let keep = not_before(r, x);
                    let mid = s2.subrange(i + k, j - k + 1);
                    let before_range = s2.subrange(i + k, j + 1);
                    let after_range = s3.subrange(i + k, j + 1);
                    // Before: the middle third alone holds at least k elements not below x.
                    assert forall|m: int| 0 <= m < mid.len() implies #[trigger] keep(mid[m]) by {
                        assert(mid[m] == s2[i + k + m]);
                        assert(le(r, s2[p], s2[i + k + m]));
                        lemma_total(r, s2[i + k + m], x);
                    }
                    lemma_filter_all(mid, keep);
                    assert(before_range =~= mid + s2.subrange(j - k + 1, j + 1));
                    Seq::filter_distributes_over_add(mid, s2.subrange(j - k + 1, j + 1), keep);
                    // After: positions up to q hold elements below x, so at most j - q do not.
                    let low = s3.subrange(i + k, q + 1);
                    let high = s3.subrange(q + 1, j + 1);
                    assert forall|m: int| 0 <= m < low.len() implies !#[trigger] keep(low[m]) by {
                        assert(low[m] == s3[i + k + m]);
                        if i + k + m < q {
                            assert(le(r, s3[i + k + m], s3[q]));
                            lemma_lt_le_trans(r, s3[i + k + m], s3[q], x);
                        }
                    }
                    lemma_filter_none(low, keep);
                    assert(after_range =~= low + high);
                    Seq::filter_distributes_over_add(low, high, keep);
                    high.lemma_filter_len(keep);
                    // Counting is blind to order.
                    lemma_permutes_range_whole(s3, s2, i + k, j + 1);
                    assert(after_range.to_multiset() == before_range.to_multiset());
                    lemma_filter_len_permutes(after_range, before_range, keep);
                    assert(mid.len() >= k) by (nonlinear_arith)
                        requires
                            mid.len() == j - k + 1 - i - k,
                            k == (j - i + 1) / 3,
                    ;
                }
            }
        }
        stooge_sort_recursive(array, i, j - k, compare, Ghost(r));
        let ghost s4 = array@;
        proof {
            let below_top = |x: T| forall|q: int| j - k < q <= j ==> le(r, x, #[trigger] s3[q]);
            assert forall|m: int| i <= m < j - k + 1 implies #[trigger] below_top(s3[m]) by {
                if m >= i + k {
                    assert forall|q: int| j - k < q <= j implies le(r, s3[m], #[trigger] s3[q]) by {}
                }
            }
            lemma_permutes_range_all(s4, s3, i as int, j - k + 1, below_top);
            assert forall|a: int, b: int| i <= a < b < j + 1 implies le(r, #[trigger] s4[a], #[trigger] s4[b]) by {
                if b > j - k {
                    assert(s4[b] == s3[b]);
                    if a <= j - k {
                        assert(below_top(s4[a]));
                    } else {
                        assert(s4[a] == s3[a]);
                    }
                }
            }
            lemma_permutes_range_widen(s2, s1, i as int, j - k + 1, i as int, j + 1);
            lemma_permutes_range_widen(s3, s2, i + k, j + 1, i as int, j + 1);
            lemma_permutes_range_widen(s4, s3, i as int, j - k + 1, i as int, j + 1);
            lemma_permutes_range_trans(s1, s0, s0, i as int, j + 1);
            lemma_permutes_range_trans(s2, s1, s0, i as int, j + 1);
            lemma_permutes_range_trans(s3, s2, s0, i as int, j + 1);
            lemma_permutes_range_trans(s4, s3, s0, i as int, j + 1);
        }
    } else {
        proof {
            if j > i {
                assert(j == i + 1);
            }
        }
    }
}

} // verus!
