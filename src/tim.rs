//! Simplified tim sort: runs of fixed length are insertion sorted, then neighbouring
//! runs are merged with a doubling stride. No natural run detection and no galloping.
//! Stable, O(N log N).

use crate::order::{
    clones_exactly, compares_by, is_total_order, le, lemma_natural_comparators, natural,
    natural_compare, ordering_of, permutes, reversed, reversed_compare, sorted, sorted_range,
};
use crate::insertion::insertion_sort_impl;
use crate::merge::merge;
use crate::perm::{lemma_permutes_range_whole, permutes_range};
use crate::stable::{keeps_ties, lemma_keeps_ties_range, lemma_keeps_ties_trans};
use core::cmp::Ordering;
use vstd::laws_cmp::obeys_cmp;
use vstd::math::min;
use vstd::prelude::*;

verus! {

/// Sorts `array` in ascending order with tim sort.
pub fn sort<T: Ord + Clone>(array: &mut [T])
    requires
        obeys_cmp::<T>(),
        clones_exactly::<T>(),
    ensures
        sorted(natural::<T>(), final(array)@),
        permutes(final(array)@, old(array)@),
        keeps_ties(natural::<T>(), final(array)@, old(array)@),
{
    proof {
        lemma_natural_comparators::<T>();
    }
    tim_sort_impl(array, &natural_compare::<T>, Ghost(natural::<T>()));
}

/// Sorts `array` in descending order with tim sort.
pub fn sort_reverse<T: Ord + Clone>(array: &mut [T])
    requires
        obeys_cmp::<T>(),
        clones_exactly::<T>(),
    ensures
        sorted(reversed::<T>(), final(array)@),
        permutes(final(array)@, old(array)@),
        keeps_ties(reversed::<T>(), final(array)@, old(array)@),
{
    proof {
        lemma_natural_comparators::<T>();
    }
    tim_sort_impl(array, &reversed_compare::<T>, Ghost(reversed::<T>()));
}

/// Sorts `array` into the order that `compare` gives, with tim sort.
pub fn sort_by<T: Clone, F: Fn(&T, &T) -> Ordering>(array: &mut [T], compare: F)
    requires
        is_total_order(compare),
        clones_exactly::<T>(),
    ensures
        sorted(ordering_of(compare), final(array)@),
        permutes(final(array)@, old(array)@),
        keeps_ties(ordering_of(compare), final(array)@, old(array)@),
{
    tim_sort_impl(array, &compare, Ghost(ordering_of(compare)))
}

/// The length of the runs that insertion sort prepares.
const RUN: usize = 32;

/// Every block of `size` positions that starts at a multiple of `size` within
/// `from..to` is sorted (the last block of `s` may be shorter).
pub open spec fn blocks_sorted<T>(r: spec_fn(T, T) -> Ordering, s: Seq<T>, size: int, from: int, to: int) -> bool {
    forall|lo: int|
        from <= lo < to && lo % size == 0 ==> #[trigger] sorted_range(r, s, lo, min(lo + size, s.len() as int))
}

/// Two distinct multiples of `m` lie at least `m` apart.
proof fn lemma_block_gap(lo: int, left: int, m: int)
    requires
        0 <= lo < left,
        m > 0,
        lo % m == 0,
        left % m == 0,
    ensures
        lo + m <= left,
{
    vstd::arithmetic::div_mod::lemma_fundamental_div_mod(lo, m);
    vstd::arithmetic::div_mod::lemma_fundamental_div_mod(left, m);
    let a = lo / m;
    let b = left / m;
    assert(lo == m * a && left == m * b);
    assert(a < b) by (nonlinear_arith)
        requires
            lo == m * a,
            left == m * b,
            lo < left,
            m > 0,
    ;
    assert(m * a + m <= m * b) by (nonlinear_arith)
        requires
            a < b,
            m > 0,
    ;
}

/// The multiple of `m` after a multiple of `m`.
proof fn lemma_next_block(i: int, m: int)
    requires
        m > 0,
        i % m == 0,
    ensures
        (i + m) % m == 0,
{
    vstd::arithmetic::div_mod::lemma_fundamental_div_mod(i, m);
    let q = i / m;
    assert(i + m == (q + 1) * m) by (nonlinear_arith)
        requires
            i == m * q,
    ;
    vstd::arithmetic::div_mod::lemma_mod_multiples_basic(q + 1, m);
}

/// A multiple of `2 * m` is a multiple of `m`, and so is the next multiple of `m`.
proof fn lemma_half_block(left: int, m: int)
    requires
        0 <= left,
        m > 0,
        left % (2 * m) == 0,
    ensures
        left % m == 0,
        (left + m) % m == 0,
{
    vstd::arithmetic::div_mod::lemma_fundamental_div_mod(left, 2 * m);
    let q = left / (2 * m);
    assert(left == (2 * q) * m) by (nonlinear_arith)
        requires
            left == 2 * m * q,
    ;
    vstd::arithmetic::div_mod::lemma_mod_multiples_basic(2 * q, m);
    assert(left + m == (2 * q + 1) * m) by (nonlinear_arith)
        requires
            left == (2 * q) * m,
    ;
    vstd::arithmetic::div_mod::lemma_mod_multiples_basic(2 * q + 1, m);
}

/// Sorts the positions `lo..hi` alone with insertion sort.
fn sort_run<T, F: Fn(&T, &T) -> Ordering>(
    array: &mut [T],
    lo: usize,
    hi: usize,
    compare: &F,
    Ghost(r): Ghost<spec_fn(T, T) -> Ordering>,
)
    requires
        compares_by(*compare, r),
        lo <= hi <= old(array)@.len(),
    ensures
        permutes_range(final(array)@, old(array)@, lo as int, hi as int),
        sorted_range(r, final(array)@, lo as int, hi as int),
        keeps_ties(r, final(array)@, old(array)@),
{
    let ghost s = array@;
    let (head, rest) = array.split_at_mut(lo);
    let (part, tail) = rest.split_at_mut(hi - lo);
    let ghost part0 = part@;
    insertion_sort_impl(part, compare, Ghost(r));
    proof {
        part0.to_multiset_ensures();
        part@.to_multiset_ensures();
        assert(part0 =~= s.subrange(lo as int, hi as int));
        assert(array@ =~= head@ + (part@ + tail@));
        assert(array@.subrange(lo as int, hi as int) =~= part@);
        assert forall|k: int| 0 <= k < lo || hi <= k < s.len() implies #[trigger] array@[k] == s[k] by {
            if k >= hi {
                assert(tail@[k - hi] == s[k]);
            }
        }
        assert forall|i: int, j: int| lo <= i < j < hi implies le(r, #[trigger] array@[i], #[trigger] array@[j]) by {
            assert(array@[i] == part@[i - lo] && array@[j] == part@[j - lo]);
        }
        lemma_keeps_ties_range(r, array@, s, lo as int, hi as int);
    }
}

fn tim_sort_impl<T: Clone, F: Fn(&T, &T) -> Ordering>(
    array: &mut [T],
    compare: &F,
    Ghost(r): Ghost<spec_fn(T, T) -> Ordering>,
)
    requires
        compares_by(*compare, r),
        clones_exactly::<T>(),
    ensures
        sorted(r, final(array)@),
        permutes(final(array)@, old(array)@),
        keeps_ties(r, final(array)@, old(array)@),
{
    let ghost initial = array@;
    let len = array.len();
    // Sort each run of RUN positions by insertion sort.
    let mut i: usize = 0;
    while i < len
        invariant
            compares_by(*compare, r),
            len == array@.len(),
            i <= len,
            i == len || i % RUN == 0,
            permutes(array@, initial),
            keeps_ties(r, array@, initial),
            blocks_sorted(r, array@, RUN as int, 0, i as int),
        decreases len - i,
    {
        let end = if len - i > RUN {
            i + RUN
        } else {
            len
        };
        let ghost before = array@;
        sort_run(array, i, end, compare, Ghost(r));
        proof {
            lemma_permutes_range_whole(array@, before, i as int, end as int);
            lemma_keeps_ties_trans(r, array@, before, initial);
            assert forall|lo: int| 0 <= lo < end && lo % (RUN as int) == 0 implies #[trigger] sorted_range(
                r,
                array@,
                lo,
                min(lo + RUN, len as int),
            ) by {
                if lo < i {
                    lemma_block_gap(lo, i as int, RUN as int);
                    assert(sorted_range(r, before, lo, min(lo + RUN, len as int)));
                } else if lo > i {
                    lemma_block_gap(i as int, lo, RUN as int);
                }
            }
            if end < len {
                lemma_next_block(i as int, RUN as int);
            }
        }
        i = end;
    }
    let mut scratch: Vec<T> = Vec::with_capacity(len);
    let mut k: usize = 0;
    while k < len
        invariant
            k <= len == array@.len(),
            scratch@.len() == k,
        decreases len - k,
    {
        scratch.push(array[k].clone());
        k += 1;
    }
    // Merge neighbouring blocks, doubling their size each round.
    let mut size = RUN;
    while size < len
        invariant
            compares_by(*compare, r),
            clones_exactly::<T>(),
            len == array@.len() == scratch@.len(),
            size >= 1,
            permutes(array@, initial),
            keeps_ties(r, array@, initial),
            blocks_sorted(r, array@, size as int, 0, len as int),
        decreases len - size,
    {
        let mut left: usize = 0;
        while left < len
            invariant
                compares_by(*compare, r),
                clones_exactly::<T>(),
                len == array@.len() == scratch@.len(),
                1 <= size < len,
                left <= len,
                left == len || (left as int) % (2 * size) == 0,
                permutes(array@, initial),
                keeps_ties(r, array@, initial),
                blocks_sorted(r, array@, 2 * size, 0, left as int),
                blocks_sorted(r, array@, size as int, left as int, len as int),
            decreases len - left,
        {
            if size >= len - left {
                proof {
                    lemma_half_block(left as int, size as int);
                    assert(sorted_range(r, array@, left as int, min(left + size, len as int)));
                    assert forall|lo: int| 0 <= lo < len && lo % (2 * size) == 0 implies #[trigger] sorted_range(
                        r,
                        array@,
                        lo,
                        min(lo + 2 * size, len as int),
                    ) by {
                        if lo > left {
                            lemma_block_gap(left as int, lo, 2 * size);
                        }
                    }
                }
                left = len;
            } else {
                let mid = left + size;
                let hi = if size < len - mid {
                    mid + size
                } else {
                    len
                };
                proof {
                    lemma_half_block(left as int, size as int);
                    assert(sorted_range(r, array@, left as int, min(left + size, len as int)));
                    assert(sorted_range(r, array@, mid as int, min(mid + size, len as int)));
                }
                let ghost before = array@;
                merge(array, &mut scratch, left, mid, hi, compare, Ghost(r));
                proof {
                    lemma_permutes_range_whole(array@, before, left as int, hi as int);
                    lemma_keeps_ties_trans(r, array@, before, initial);
                    assert forall|lo: int| 0 <= lo < hi && lo % (2 * size) == 0 implies #[trigger] sorted_range(
                        r,
                        array@,
                        lo,
                        min(lo + 2 * size, len as int),
                    ) by {
                        if lo < left {
                            lemma_block_gap(lo, left as int, 2 * size);
                            assert(sorted_range(r, before, lo, min(lo + 2 * size, len as int)));
                        } else if lo > left {
                            lemma_block_gap(left as int, lo, 2 * size);
                        }
                    }
                    assert forall|lo: int| hi <= lo < len && lo % (size as int) == 0 implies #[trigger] sorted_range(
                        r,
                        array@,
                        lo,
                        min(lo + size, len as int),
                    ) by {
                        assert(sorted_range(r, before, lo, min(lo + size, len as int)));
                    }
                    if hi < len {
                        assert((hi as int) % (2 * size) == 0) by {
                            vstd::arithmetic::div_mod::lemma_fundamental_div_mod(left as int, 2 * size);
                            let q = (left as int) / (2 * size);
                            assert(hi == (q + 1) * (2 * size)) by (nonlinear_arith)
                                requires
                                    left == 2 * size * q,
                                    hi == left + 2 * size,
                            ;
                            vstd::arithmetic::div_mod::lemma_mod_multiples_basic(q + 1, 2 * size);
                        }
                    }
                }
                left = hi;
            }
        }
        if size >= len - size {
            proof {
                assert forall|lo: int| 0 <= lo < len && lo % (len as int) == 0 implies #[trigger] sorted_range(
                    r,
                    array@,
                    lo,
                    min(lo + len, len as int),
                ) by {
                    vstd::arithmetic::div_mod::lemma_small_mod(lo as nat, len as nat);
                    assert(sorted_range(r, array@, 0, min(0 + 2 * size, len as int)));
                }
            }
            size = len;
        } else {
            size = 2 * size;
        }
    }
    proof {
        if len > 0 {
            assert(sorted_range(r, array@, 0, min(0 + size, len as int)));
        }
    }
}

} // verus!
