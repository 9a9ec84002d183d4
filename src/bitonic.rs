//! Bitonic sort: a fixed network of compare-exchanges that sorts slices whose length
//! is a power of two. It sorts the first half up and the second half down, then
//! merges the resulting bitonic sequence by comparing each element of the lower half
//! with its partner in the upper half and merging both halves alike. O(N log² N).
//!
//! Its proof reads the slice against each threshold `x`: an element "is set" when it
//! is not below `x`. Sorting up leaves the set elements at the end; the halves of a
//! bitonic sequence are set on an interval (a peak) or off an interval (a valley).

use crate::error::SortError;
use crate::order::{
    compares_by, is_total_order, le, lemma_natural_comparators, lemma_total, natural,
    natural_compare, ordering_of, permutes, reversed, reversed_compare, sorted, sorted_range,
    total_preorder,
};
use crate::perm::{
    lemma_permutes_range_all, lemma_permutes_range_refl, lemma_permutes_range_trans,
    lemma_permutes_range_whole, lemma_permutes_range_widen, lemma_swap_range, permutes_range,
};
use crate::swap::swap;
use core::cmp::Ordering;
use vstd::laws_cmp::obeys_cmp;
use vstd::prelude::*;

verus! {

/// Positions `lo..hi` of the pattern `b` are set exactly inside `a..c` or, when
/// `valley`, exactly outside it.
pub open spec fn shaped(b: spec_fn(int) -> bool, lo: int, hi: int, a: int, c: int, valley: bool) -> bool {
    &&& lo <= a <= c <= hi
    &&& forall|i: int| lo <= i < hi ==> #[trigger] b(i) == (valley != (a <= i && i < c))
}

/// Position `i` and its partner `m` further on are both set.
pub open spec fn meet(b: spec_fn(int) -> bool, m: int) -> spec_fn(int) -> bool {
    |i: int| b(i) && b(i + m)
}

/// Position `i` or its partner `m` further on is set.
pub open spec fn join(b: spec_fn(int) -> bool, m: int) -> spec_fn(int) -> bool {
    |i: int| b(i) || b(i + m)
}

/// Pairing each position of a peak or valley with its partner half a length further
/// on gives a peak or valley again, both for the pairs that are both set and for those
/// with one set; and either no pair is both set or every pair has one set.
proof fn lemma_half_cleaner(b: spec_fn(int) -> bool, lo: int, m: int, a: int, c: int, valley: bool) -> (w: (
    int,
    int,
    bool,
    int,
    int,
    bool,
))
    requires
        m > 0,
        shaped(b, lo, lo + 2 * m, a, c, valley),
    ensures
        shaped(meet(b, m), lo, lo + m, w.0, w.1, w.2),
        shaped(join(b, m), lo, lo + m, w.3, w.4, w.5),
        (forall|i: int| lo <= i < lo + m ==> !#[trigger] meet(b, m)(i)) || (forall|i: int|
            lo <= i < lo + m ==> #[trigger] join(b, m)(i)),
    decreases if valley {
        1int
    } else {
        0int
    },
{
    if !valley {
        assert forall|i: int| lo <= i < lo + m implies #[trigger] b(i) == (a <= i && i < c) && b(i + m) == (a
            <= i + m && i + m < c) by {
            assert(b(i) == (false != (a <= i && i < c)));
            assert(b(i + m) == (false != (a <= i + m && i + m < c)));
        }
        if c - a <= m {
            let uw = if c <= lo + m {
                (a, c, false)
            } else if a >= lo + m {
                (a - m, c - m, false)
            } else {
                (c - m, a, true)
            };
            assert forall|i: int| lo <= i < lo + m implies !#[trigger] meet(b, m)(i) by {}
            (lo, lo, false, uw.0, uw.1, uw.2)
        } else {
            assert forall|i: int| lo <= i < lo + m implies #[trigger] join(b, m)(i) by {}
            (a, c - m, false, lo, lo, true)
        }
    } else {
        let p = |i: int| !b(i);
        assert forall|i: int| lo <= i < lo + 2 * m implies #[trigger] p(i) == (false != (a <= i && i < c)) by {}
        let wp = lemma_half_cleaner(p, lo, m, a, c, false);
        assert forall|i: int| lo <= i < lo + m implies #[trigger] meet(b, m)(i) == (!wp.5 != (wp.3 <= i && i
            < wp.4)) by {
            assert(join(p, m)(i) == (wp.5 != (wp.3 <= i && i < wp.4)));
        }
        assert forall|i: int| lo <= i < lo + m implies #[trigger] join(b, m)(i) == (!wp.2 != (wp.0 <= i && i
            < wp.1)) by {
            assert(meet(p, m)(i) == (wp.2 != (wp.0 <= i && i < wp.1)));
        }
        if forall|i: int| lo <= i < lo + m ==> !#[trigger] meet(p, m)(i) {
            assert forall|i: int| lo <= i < lo + m implies #[trigger] join(b, m)(i) by {
                assert(!meet(p, m)(i));
            }
        } else {
            assert forall|i: int| lo <= i < lo + m implies !#[trigger] meet(b, m)(i) by {
                assert(join(p, m)(i));
            }
        }
        (wp.3, wp.4, !wp.5, wp.0, wp.1, !wp.2)
    }
}

/// The positions of `s` that hold elements not below `x` under `r`.
pub open spec fn set_at<T>(r: spec_fn(T, T) -> Ordering, s: Seq<T>, x: T) -> spec_fn(int) -> bool {
    |i: int| le(r, x, s[i])
}

/// Read against the threshold `x`, the positions `lo..hi` of `s` form a peak or a valley.
pub open spec fn bitonic_at<T>(r: spec_fn(T, T) -> Ordering, s: Seq<T>, x: T, lo: int, hi: int) -> bool {
    exists|a: int, c: int, v: bool| #[trigger] shaped(set_at(r, s, x), lo, hi, a, c, v)
}

/// Read against any threshold, the positions `lo..hi` of `s` form a peak or a valley.
pub open spec fn bitonic_range<T>(r: spec_fn(T, T) -> Ordering, s: Seq<T>, lo: int, hi: int) -> bool {
    forall|x: T| #[trigger] bitonic_at(r, s, x, lo, hi)
}

/// No element of `lo..hi` is smaller under `r` than one after it.
pub open spec fn sorted_down<T>(r: spec_fn(T, T) -> Ordering, s: Seq<T>, lo: int, hi: int) -> bool {
    forall|i: int, j: int| lo <= i < j < hi ==> le(r, #[trigger] s[j], #[trigger] s[i])
}

/// `n` is a power of two.
pub open spec fn power_of_two(n: nat) -> bool
    decreases n,
{
    if n <= 1 {
        n == 1
    } else {
        n % 2 == 0 && power_of_two(n / 2)
    }
}

/// A pattern that, once set, stays set along `lo..hi` is set from some position on.
proof fn lemma_rising(b: spec_fn(int) -> bool, lo: int, hi: int) -> (a: int)
    requires
        lo <= hi,
        forall|i: int, j: int| lo <= i < j < hi && #[trigger] b(i) ==> #[trigger] b(j),
    ensures
        lo <= a <= hi,
        forall|i: int| lo <= i < hi ==> #[trigger] b(i) == (a <= i),
    decreases hi - lo,
{
    if lo == hi {
        lo
    } else if b(lo) {
        lo
    } else {
        lemma_rising(b, lo + 1, hi)
    }
}

/// A pattern that, once unset, stays unset along `lo..hi` is set up to some position.
proof fn lemma_falling(b: spec_fn(int) -> bool, lo: int, hi: int) -> (c: int)
    requires
        lo <= hi,
        forall|i: int, j: int| lo <= i < j < hi && #[trigger] b(j) ==> #[trigger] b(i),
    ensures
        lo <= c <= hi,
        forall|i: int| lo <= i < hi ==> #[trigger] b(i) == (i < c),
    decreases hi - lo,
{
    if lo == hi {
        lo
    } else if !b(hi - 1) {
        lemma_falling(b, lo, hi - 1)
    } else {
        hi
    }
}

/// Whether `n` is a power of two.
fn is_power_of_two(n: usize) -> (b: bool)
    ensures
        b == power_of_two(n as nat),
{
    if n == 0 {
        return false;
    }
    let mut m = n;
    while m % 2 == 0
        invariant
            m >= 1,
            power_of_two(m as nat) == power_of_two(n as nat),
        decreases m,
    {
        m /= 2;
    }
    m == 1
}

/// Sorts `array` in ascending order with bitonic sort. Fails, leaving it as it was,
/// when its length is not a power of two (an empty slice is accepted).
pub fn sort<T: Ord>(array: &mut [T]) -> (res: Result<(), SortError>)
    requires
        obeys_cmp::<T>(),
    ensures
        res is Err <==> old(array)@.len() > 0 && !power_of_two(old(array)@.len()),
        res is Err ==> res == Err::<(), SortError>(SortError::NotPowerOfTwo) && final(array)@ == old(array)@,
        res is Ok ==> sorted(natural::<T>(), final(array)@) && permutes(final(array)@, old(array)@),
{
    proof {
        lemma_natural_comparators::<T>();
    }
    bitonic_sort_impl(array, &natural_compare::<T>, Ghost(natural::<T>()))
}

/// Sorts `array` in descending order with bitonic sort, failing as [`sort`] does.
pub fn sort_reverse<T: Ord>(array: &mut [T]) -> (res: Result<(), SortError>)
    requires
        obeys_cmp::<T>(),
    ensures
        res is Err <==> old(array)@.len() > 0 && !power_of_two(old(array)@.len()),
        res is Err ==> res == Err::<(), SortError>(SortError::NotPowerOfTwo) && final(array)@ == old(array)@,
        res is Ok ==> sorted(reversed::<T>(), final(array)@) && permutes(final(array)@, old(array)@),
{
    proof {
        lemma_natural_comparators::<T>();
    }
    bitonic_sort_impl(array, &reversed_compare::<T>, Ghost(reversed::<T>()))
}

/// Sorts `array` into the order that `compare` gives, with bitonic sort, failing as
/// [`sort`] does.
pub fn sort_by<T, F: Fn(&T, &T) -> Ordering>(array: &mut [T], compare: F) -> (res: Result<(), SortError>)
    requires
        is_total_order(compare),
    ensures
        res is Err <==> old(array)@.len() > 0 && !power_of_two(old(array)@.len()),
        res is Err ==> res == Err::<(), SortError>(SortError::NotPowerOfTwo) && final(array)@ == old(array)@,
        res is Ok ==> sorted(ordering_of(compare), final(array)@) && permutes(final(array)@, old(array)@),
{
    bitonic_sort_impl(array, &compare, Ghost(ordering_of(compare)))
}

fn bitonic_sort_impl<T, F: Fn(&T, &T) -> Ordering>(
    array: &mut [T],
    compare: &F,
    Ghost(r): Ghost<spec_fn(T, T) -> Ordering>,
) -> (res: Result<(), SortError>)
    requires
        compares_by(*compare, r),
    ensures
        res is Err <==> old(array)@.len() > 0 && !power_of_two(old(array)@.len()),
        res is Err ==> res == Err::<(), SortError>(SortError::NotPowerOfTwo) && final(array)@ == old(array)@,
        res is Ok ==> sorted(r, final(array)@) && permutes(final(array)@, old(array)@),
{
    let len = array.len();
    if len == 0 {
        return Ok(());
    }
    if !is_power_of_two(len) {
        return Err(SortError::NotPowerOfTwo);
    }
    bitonic_sort_recursive(array, 0, len, true, compare, Ghost(r));
    proof {
        lemma_permutes_range_whole(array@, old(array)@, 0, len as int);
    }
    Ok(())
}

/// Sorts the positions `low..low + count`, up when `ascending`, down otherwise.
fn bitonic_sort_recursive<T, F: Fn(&T, &T) -> Ordering>(
    array: &mut [T],
    low: usize,
    count: usize,
    ascending: bool,
    compare: &F,
    Ghost(r): Ghost<spec_fn(T, T) -> Ordering>,
)
    requires
        compares_by(*compare, r),
        low + count <= old(array)@.len(),
        power_of_two(count as nat),
    ensures
        permutes_range(final(array)@, old(array)@, low as int, low + count),
        ascending ==> sorted_range(r, final(array)@, low as int, low + count),
        !ascending ==> sorted_down(r, final(array)@, low as int, low + count),
    decreases count,
{
    let ghost s0 = array@;
    let len = array.len();
    if count > 1 {
        let middle = count / 2;
        proof {
            assert(count % 2 == 0);
            assert(power_of_two(middle as nat));
        }
        bitonic_sort_recursive(array, low, middle, true, compare, Ghost(r));
        let ghost s1 = array@;
        bitonic_sort_recursive(array, low + middle, middle, false, compare, Ghost(r));
        let ghost s2 = array@;
        proof {
            assert forall|x: T| #[trigger] bitonic_at(r, s2, x, low as int, low + count) by {
                let b = set_at(r, s2, x);
                assert forall|i: int, j: int| low <= i < j < low + middle && #[trigger] b(i) implies #[trigger] b(j) by {
                    assert(s2[i] == s1[i] && s2[j] == s1[j]);
                    assert(le(r, s1[i], s1[j]));
                }
                let a = lemma_rising(b, low as int, low + middle);
                assert forall|i: int, j: int| low + middle <= i < j < low + count && #[trigger] b(j) implies #[trigger] b(i) by {
                    assert(le(r, s2[j], s2[i]));
                }
                let c = lemma_falling(b, low + middle, low + count);
                assert(shaped(b, low as int, low + count, a, c, false));
            }
        }
        bitonic_merge(array, low, count, ascending, compare, Ghost(r));
        proof {
            lemma_permutes_range_widen(s1, s0, low as int, low + middle, low as int, low + count);
            lemma_permutes_range_widen(s2, s1, low + middle, low + count, low as int, low + count);
            lemma_permutes_range_trans(s2, s1, s0, low as int, low + count);
            lemma_permutes_range_trans(array@, s2, s0, low as int, low + count);
        }
    } else {
        proof {
            lemma_permutes_range_refl(s0, low as int, low + count);
        }
    }
}

/// After the compare-exchanges between the halves of a bitonic range, each half is
/// bitonic against the threshold `x`, and when an element of the half that should come
/// first is not below `x`, neither is any element of the other half.
proof fn lemma_after_half_cleaner<T>(
    r: spec_fn(T, T) -> Ordering,
    s0: Seq<T>,
    s1: Seq<T>,
    x: T,
    low: int,
    middle: int,
    ascending: bool,
)
    requires
        total_preorder(r),
        middle >= 1,
        0 <= low,
        low + 2 * middle <= s0.len() == s1.len(),
        exists|a: int, c: int, v: bool| #[trigger] shaped(set_at(r, s0, x), low, low + 2 * middle, a, c, v),
        forall|k: int| low <= k < low + middle ==> ((#[trigger] s1[k] == s0[k] && s1[k + middle] == s0[k + middle])
            || (s1[k] == s0[k + middle] && s1[k + middle] == s0[k])),
        forall|k: int| low <= k < low + middle ==> if ascending {
            le(r, #[trigger] s1[k], s1[k + middle])
        } else {
            le(r, s1[k + middle], #[trigger] s1[k])
        },
    ensures
        exists|a: int, c: int, v: bool| #[trigger] shaped(set_at(r, s1, x), low, low + middle, a, c, v),
        exists|a: int, c: int, v: bool| #[trigger] shaped(set_at(r, s1, x), low + middle, low + 2 * middle, a, c, v),
        forall|p: int, q: int|
            low <= p < low + middle <= q < low + 2 * middle ==> if ascending {
                le(r, x, #[trigger] s1[p]) ==> le(r, x, #[trigger] s1[q])
            } else {
                le(r, x, s1[q]) ==> le(r, x, s1[p])
            },
{
    let b0 = set_at(r, s0, x);
    let b1 = set_at(r, s1, x);
    let (a, c, v) = choose|a: int, c: int, v: bool| #[trigger] shaped(b0, low, low + 2 * middle, a, c, v);
    let w = lemma_half_cleaner(b0, low, middle, a, c, v);
    let lower = if ascending { meet(b0, middle) } else { join(b0, middle) };
    let upper = if ascending { join(b0, middle) } else { meet(b0, middle) };
    assert forall|k: int| low <= k < low + middle implies #[trigger] b1(k) == lower(k) && b1(k + middle) == upper(k) by {
        let u = s0[k];
        let y = s0[k + middle];
        lemma_total(r, x, u);
        lemma_total(r, x, y);
        lemma_total(r, u, y);
        if ascending {
            assert(le(r, s1[k], s1[k + middle]));
        } else {
            assert(le(r, s1[k + middle], s1[k]));
        }
    }
    let lw = if ascending { (w.0, w.1, w.2) } else { (w.3, w.4, w.5) };
    let uw = if ascending { (w.3, w.4, w.5) } else { (w.0, w.1, w.2) };
    assert(shaped(lower, low, low + middle, lw.0, lw.1, lw.2));
    assert(shaped(upper, low, low + middle, uw.0, uw.1, uw.2));
    assert forall|k: int| low <= k < low + middle implies #[trigger] b1(k) == (lw.2 != (lw.0 <= k && k < lw.1)) by {
        assert(lower(k) == (lw.2 != (lw.0 <= k && k < lw.1)));
    }
    assert(shaped(b1, low, low + middle, lw.0, lw.1, lw.2));
    assert forall|j: int| low + middle <= j < low + 2 * middle implies #[trigger] b1(j) == (uw.2 != (uw.0 + middle <= j
        && j < uw.1 + middle)) by {
        let k = j - middle;
        assert(low <= k < low + middle);
        assert(b1(k) == lower(k));
        assert(upper(k) == (uw.2 != (uw.0 <= k && k < uw.1)));
    }
    assert(shaped(b1, low + middle, low + 2 * middle, uw.0 + middle, uw.1 + middle, uw.2));
    assert forall|p: int, q: int|
        low <= p < low + middle <= q < low + 2 * middle implies if ascending {
            le(r, x, #[trigger] s1[p]) ==> le(r, x, #[trigger] s1[q])
        } else {
            le(r, x, s1[q]) ==> le(r, x, s1[p])
        } by {
        let k = q - middle;
        assert(b1(p) == lower(p));
        assert(b1(k) == lower(k));
        assert(b1(p) == le(r, x, s1[p]));
        assert(b1(q) == le(r, x, s1[q]));
        if ascending {
            if b1(p) {
                assert(meet(b0, middle)(p));
                assert(join(b0, middle)(k));
            }
        } else {
            if b1(q) {
                assert(meet(b0, middle)(k));
                assert(join(b0, middle)(p));
            }
        }
    }
}

/// Merges the bitonic positions `low..low + count` into order, up when `ascending`,
/// down otherwise.
fn bitonic_merge<T, F: Fn(&T, &T) -> Ordering>(
    array: &mut [T],
    low: usize,
    count: usize,
    ascending: bool,
    compare: &F,
    Ghost(r): Ghost<spec_fn(T, T) -> Ordering>,
)
    requires
        compares_by(*compare, r),
        low + count <= old(array)@.len(),
        power_of_two(count as nat),
        bitonic_range(r, old(array)@, low as int, low + count),
    ensures
        permutes_range(final(array)@, old(array)@, low as int, low + count),
        ascending ==> sorted_range(r, final(array)@, low as int, low + count),
        !ascending ==> sorted_down(r, final(array)@, low as int, low + count),
    decreases count,
{
    let ghost s0 = array@;
    if count <= 1 {
        proof {
            lemma_permutes_range_refl(s0, low as int, low + count);
        }
        return;
    }
    let len = array.len();
    let middle = count / 2;
    proof {
        assert(count % 2 == 0);
        assert(power_of_two(middle as nat));
    }
    let mut i = low;
    while i < low + middle
        invariant
            compares_by(*compare, r),
            count == 2 * middle,
            middle >= 1,
            len == array@.len(),
            low + count <= array@.len() == s0.len(),
            low <= i <= low + middle,
            permutes_range(array@, s0, low as int, low + count),
            forall|k: int| low <= k < i ==> ((#[trigger] array@[k] == s0[k] && array@[k + middle] == s0[k + middle])
                || (array@[k] == s0[k + middle] && array@[k + middle] == s0[k])),
            forall|k: int| low <= k < i ==> if ascending {
                le(r, #[trigger] array@[k], array@[k + middle])
            } else {
                le(r, array@[k + middle], #[trigger] array@[k])
            },
            forall|k: int| i <= k < low + middle ==> #[trigger] array@[k] == s0[k],
            forall|k: int| i + middle <= k < low + count ==> #[trigger] array@[k] == s0[k],
        decreases low + middle - i,
    {
        let o = compare(&array[i], &array[i + middle]);
        proof {
            lemma_total(r, array@[i as int], array@[i + middle]);
        }
        let exchange = match o {
            Ordering::Greater => ascending,
            _ => !ascending,
        };
        let ghost before = array@;
        if exchange {
            swap(array, i, i + middle);
            proof {
                lemma_swap_range(before, i as int, i + middle, low as int, low + count);
                lemma_permutes_range_trans(array@, before, s0, low as int, low + count);
            }
        }
        proof {
            assert forall|k: int| i < k < low + middle implies #[trigger] array@[k] == s0[k] by {
                assert(before[k] == s0[k]);
            }
            assert forall|k: int| i + middle < k < low + count implies #[trigger] array@[k] == s0[k] by {
                assert(before[k] == s0[k]);
            }
        }
        i += 1;
    }
    let ghost s1 = array@;
    proof {
        // Each half is bitonic again, and the halves are ordered against each other.
        assert forall|x: T|
            #![trigger bitonic_at(r, s1, x, low as int, low + middle)]
            #![trigger bitonic_at(r, s1, x, low + middle, low + middle + middle)]
            bitonic_at(r, s1, x, low as int, low + middle)
            && bitonic_at(r, s1, x, low + middle, low + middle + middle)
            && (forall|p: int, q: int|
                low <= p < low + middle <= q < low + count ==> if ascending {
                    le(r, x, #[trigger] s1[p]) ==> le(r, x, #[trigger] s1[q])
                } else {
                    le(r, x, s1[q]) ==> le(r, x, s1[p])
                }) by {
            assert(bitonic_at(r, s0, x, low as int, low + count));
            let (a0, c0, v0) = choose|a: int, c: int, v: bool| #[trigger] shaped(set_at(r, s0, x), low as int, low + count, a, c, v);
            assert(shaped(set_at(r, s0, x), low as int, low + 2 * middle, a0, c0, v0));
            lemma_after_half_cleaner(r, s0, s1, x, low as int, middle as int, ascending);
            let (a1, c1, v1) = choose|a: int, c: int, v: bool| #[trigger] shaped(set_at(r, s1, x), low + middle, low + 2 * middle, a, c, v);
            assert(shaped(set_at(r, s1, x), low + middle, low + middle + middle, a1, c1, v1));
        }
        assert forall|p: int, q: int| low <= p < low + middle <= q < low + count implies if ascending {
            le(r, #[trigger] s1[p], #[trigger] s1[q])
        } else {
            le(r, s1[q], s1[p])
        } by {
            if ascending {
                lemma_total(r, s1[p], s1[p]);
                assert(bitonic_at(r, s1, s1[p], low as int, low + middle));
            } else {
                lemma_total(r, s1[q], s1[q]);
                assert(bitonic_at(r, s1, s1[q], low as int, low + middle));
            }
        }
    }
    proof {
        assert(bitonic_range(r, s1, low as int, low + middle));
    }
    bitonic_merge(array, low, middle, ascending, compare, Ghost(r));
    let ghost s2 = array@;
    proof {
        assert forall|x: T| #[trigger] bitonic_at(r, s2, x, low + middle, low + middle + middle) by {
            assert(bitonic_at(r, s1, x, low + middle, low + middle + middle));
            let (a1, c1, v1) = choose|a: int, c: int, v: bool| #[trigger] shaped(set_at(r, s1, x), low + middle, low + middle + middle, a, c, v);
            assert forall|j: int| low + middle <= j < low + middle + middle implies #[trigger] set_at(r, s2, x)(j) == set_at(r, s1, x)(j) by {
                assert(s2[j] == s1[j]);
            }
            assert(shaped(set_at(r, s2, x), low + middle, low + middle + middle, a1, c1, v1));
        }
    }
    bitonic_merge(array, low + middle, middle, ascending, compare, Ghost(r));
    let ghost s3 = array@;
    proof {
        // The halves, each now in order, keep their elements, so they stay ordered
        // against each other.
        let first_half = |y: T| forall|q: int| low + middle <= q < low + count ==> if ascending {
            le(r, y, #[trigger] s1[q])
        } else {
            le(r, s1[q], y)
        };
        assert forall|k: int| low <= k < low + middle implies #[trigger] first_half(s1[k]) by {}
        lemma_permutes_range_all(s2, s1, low as int, low + middle, first_half);
        let second_half = |y: T| forall|p: int| low <= p < low + middle ==> if ascending {
            le(r, #[trigger] s2[p], y)
        } else {
            le(r, y, s2[p])
        };
        assert forall|k: int| low + middle <= k < low + count implies #[trigger] second_half(s2[k]) by {
            assert(s2[k] == s1[k]);
            assert forall|p: int| low <= p < low + middle implies if ascending {
                le(r, #[trigger] s2[p], s2[k])
            } else {
                le(r, s2[k], s2[p])
            } by {
                assert(first_half(s2[p]));
            }
        }
        lemma_permutes_range_all(s3, s2, low + middle, low + count, second_half);
        assert forall|i: int, j: int| low <= i < j < low + count implies if ascending {
            le(r, #[trigger] s3[i], #[trigger] s3[j])
        } else {
            le(r, s3[j], s3[i])
        } by {
            if i < low + middle && j >= low + middle {
                assert(s3[i] == s2[i]);
                assert(second_half(s3[j]));
            } else if j < low + middle {
                assert(s3[i] == s2[i] && s3[j] == s2[j]);
            }
        }
        lemma_permutes_range_widen(s2, s1, low as int, low + middle, low as int, low + count);
        lemma_permutes_range_widen(s3, s2, low + middle, low + count, low as int, low + count);
        lemma_permutes_range_trans(s2, s1, s0, low as int, low + count);
        lemma_permutes_range_trans(s3, s2, s0, low as int, low + count);
    }
}

} // verus!
