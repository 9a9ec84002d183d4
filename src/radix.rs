//! LSD radix sort over integers: one stable distribution pass per digit of the
//! magnitude, least significant first, with negative elements bucketed apart so that
//! they end up before the others in the right order. O(W·R·N) for W digits in base R.

use crate::error::SortError;
use crate::order::{magnitude, nondecreasing, nonincreasing, permutes};
use crate::perm::lemma_permutes_all;
use vstd::arithmetic::div_mod::{lemma_breakdown, lemma_mod_pos_bound};
use vstd::multiset::Multiset;
use vstd::prelude::*;

verus! {

/// Where `e` stands in the order that the passes so far have established, where `p`
/// is the product of the bases of those passes: its magnitude modulo `p`, negated
/// (and one below) for a negative element.
pub open spec fn rank(e: isize, p: int) -> int {
    if e < 0 {
        -(magnitude(e as int) % p) - 1
    } else {
        magnitude(e as int) % p
    }
}

/// The digit of `e`'s magnitude that the pass with divisor `p` in base `radix` reads.
pub open spec fn digit(e: isize, p: int, radix: int) -> int {
    (magnitude(e as int) / p) % radix
}

/// The order in which that pass visits the bucket of `e`: negative elements first,
/// larger digits first; then the others, smaller digits first.
pub open spec fn bucket_key(e: isize, p: int, radix: int) -> int {
    if e < 0 {
        -digit(e, p, radix) - 1
    } else {
        digit(e, p, radix)
    }
}

/// A pass turns the order of its buckets, and within a bucket the order already
/// established, into the order of the ranks one digit further.
proof fn lemma_rank_step(e: isize, f: isize, p: int, radix: int)
    requires
        p > 0,
        radix > 0,
    ensures
        bucket_key(e, p, radix) < bucket_key(f, p, radix) ==> rank(e, p * radix) < rank(f, p * radix),
        bucket_key(e, p, radix) == bucket_key(f, p, radix) && rank(e, p) <= rank(f, p) ==> rank(
            e,
            p * radix,
        ) <= rank(f, p * radix),
{
    let me = magnitude(e as int);
    let mf = magnitude(f as int);
    lemma_breakdown(me, p, radix);
    lemma_breakdown(mf, p, radix);
    lemma_mod_pos_bound(me, p);
    lemma_mod_pos_bound(mf, p);
    lemma_mod_pos_bound(me / p, radix);
    lemma_mod_pos_bound(mf / p, radix);
    let de = (me / p) % radix;
    let df = (mf / p) % radix;
    let re = me % p;
    let rf = mf % p;
    assert(me % (p * radix) == p * de + re);
    assert(mf % (p * radix) == p * df + rf);
    if de < df {
        assert(p * de + re < p * df + rf) by (nonlinear_arith)
            requires
                de < df,
                0 <= re < p,
                0 <= rf,
        ;
    }
    if df < de {
        assert(p * df + rf < p * de + re) by (nonlinear_arith)
            requires
                df < de,
                0 <= rf < p,
                0 <= re,
        ;
    }
}

/// The magnitude of `e`.
fn magnitude_of(e: isize) -> (m: usize)
    ensures
        m == magnitude(e as int),
{
    if e < 0 {
        (-(e + 1)) as usize + 1
    } else {
        e as usize
    }
}

/// Sorts `array` in ascending order with radix sort in base `radix`.
pub fn sort(array: &mut [isize], radix: usize) -> (res: Result<(), SortError>)
    requires
        radix >= 2,
    ensures
        res is Ok,
        nondecreasing(final(array)@),
        permutes(final(array)@, old(array)@),
{
    radix_sort_scan_impl(array, radix);
    Ok(())
}

/// Sorts `array` in descending order with radix sort in base `radix`: ascending
/// passes, then one reversal, which equal values cannot tell apart from descending
/// passes.
pub fn sort_reverse(array: &mut [isize], radix: usize) -> (res: Result<(), SortError>)
    requires
        radix >= 2,
    ensures
        res is Ok,
        nonincreasing(final(array)@),
        permutes(final(array)@, old(array)@),
{
    radix_sort_scan_impl(array, radix);
    let ghost s = array@;
    let len = array.len();
    let mut i: usize = 0;
    while i < len / 2
        invariant
            len == s.len() == array@.len(),
            i <= len / 2,
            permutes(array@, s),
            forall|k: int| 0 <= k < i || len - i <= k < len ==> #[trigger] array@[k] == s[len - 1 - k],
            forall|k: int| i <= k < len - i ==> #[trigger] array@[k] == s[k],
        decreases len / 2 - i,
    {
        let ghost before = array@;
        crate::swap::swap(array, i, len - 1 - i);
        proof {
            crate::swap::lemma_swap_permutes(before, i as int, len - 1 - i);
        }
        i += 1;
    }
    proof {
        assert forall|a: int, b: int| 0 <= a < b < len implies #[trigger] array@[a] >= #[trigger] array@[b] by {
            assert(array@[a] == s[len - 1 - a]);
            assert(array@[b] == s[len - 1 - b]);
        }
    }
    Ok(())
}

/// Takes the number of digits from the largest magnitude, then sorts.
fn radix_sort_scan_impl(array: &mut [isize], radix: usize)
    requires
        radix >= 2,
    ensures
        nondecreasing(final(array)@),
        permutes(final(array)@, old(array)@),
{
    let mut max_mag: usize = 0;
    let mut i: usize = 0;
    while i < array.len()
        invariant
            i <= array@.len(),
            forall|j: int| 0 <= j < i ==> magnitude(#[trigger] array@[j] as int) <= max_mag,
        decreases array@.len() - i,
    {
        let m = magnitude_of(array[i]);
        if m > max_mag {
            max_mag = m;
        }
        i += 1;
    }
    radix_sort_impl(array, max_mag, radix);
}

/// Sorts `array`, all of whose magnitudes are at most `max_mag`: one pass for each
/// digit that `max_mag` has in base `radix`.
fn radix_sort_impl(array: &mut [isize], max_mag: usize, radix: usize)
    requires
        radix >= 2,
        forall|j: int| 0 <= j < old(array)@.len() ==> magnitude(#[trigger] old(array)@[j] as int) <= max_mag,
    ensures
        nondecreasing(final(array)@),
        permutes(final(array)@, old(array)@),
{
    let ghost s = array@;
    let mut div: usize = 1;
    proof {
        assert forall|i: int, j: int|
            0 <= i < j < s.len() && (s[i] < 0) == (s[j] < 0) implies rank(#[trigger] s[i], 1) <= rank(
            #[trigger] s[j],
            1,
        ) by {
            assert(magnitude(s[i] as int) % 1 == 0);
            assert(magnitude(s[j] as int) % 1 == 0);
        }
    }
    radix_pass(array, radix, div);
    proof {
        let bounded = |x: isize| magnitude(x as int) <= max_mag;
        assert forall|k: int| 0 <= k < s.len() implies #[trigger] bounded(s[k]) by {}
        lemma_permutes_all(array@, s, bounded);
        assert forall|k: int| 0 <= k < array@.len() implies magnitude(#[trigger] array@[k] as int) <= max_mag by {
            assert(bounded(array@[k]));
        }
    }
    while div <= max_mag / radix
        invariant
            radix >= 2,
            1 <= div <= max_mag || div == 1,
            permutes(array@, s),
            forall|j: int| 0 <= j < array@.len() ==> magnitude(#[trigger] array@[j] as int) <= max_mag,
            forall|i: int, j: int|
                0 <= i < j < array@.len() ==> rank(#[trigger] array@[i], div * radix) <= rank(
                    #[trigger] array@[j],
                    div * radix,
                ),
        decreases max_mag - div,
    {
        assert(div * radix <= max_mag) by (nonlinear_arith)
            requires
                div <= max_mag / radix,
                radix >= 2,
        ;
        assert(div * radix > div) by (nonlinear_arith)
            requires
                div >= 1,
                radix >= 2,
        ;
        div = div * radix;
        let ghost before = array@;
        radix_pass(array, radix, div);
        proof {
            let bounded = |x: isize| magnitude(x as int) <= max_mag;
            assert forall|k: int| 0 <= k < before.len() implies #[trigger] bounded(before[k]) by {}
            lemma_permutes_all(array@, before, bounded);
            assert forall|k: int| 0 <= k < array@.len() implies magnitude(#[trigger] array@[k] as int) <= max_mag by {
                assert(bounded(array@[k]));
            }
        }
    }
    proof {
        let p = div * radix;
        assert(p > max_mag) by (nonlinear_arith)
            requires
                div > max_mag / radix,
                radix >= 2,
                p == div * radix,
        ;
        assert forall|i: int, j: int| 0 <= i < j < array@.len() implies #[trigger] array@[i]
            <= #[trigger] array@[j] by {
            let a = array@[i];
            let b = array@[j];
            assert(rank(a, p) <= rank(b, p));
            vstd::arithmetic::div_mod::lemma_small_mod(magnitude(a as int) as nat, p as nat);
            vstd::arithmetic::div_mod::lemma_small_mod(magnitude(b as int) as nat, p as nat);
        }
    }
}

/// One stable distribution pass on the digit that `div` selects.
fn radix_pass(array: &mut [isize], radix: usize, div: usize)
    requires
        radix >= 2,
        div >= 1,
        forall|i: int, j: int|
            0 <= i < j < old(array)@.len() && (old(array)@[i] < 0) == (old(array)@[j] < 0) ==> rank(
                #[trigger] old(array)@[i],
                div as int,
            ) <= rank(#[trigger] old(array)@[j], div as int),
    ensures
        permutes(final(array)@, old(array)@),
        forall|i: int, j: int|
            0 <= i < j < final(array)@.len() ==> rank(#[trigger] final(array)@[i], div * radix) <= rank(
                #[trigger] final(array)@[j],
                div * radix,
            ),
{
    let ghost s = array@;
    let ghost ms = s.to_multiset();
    let len = array.len();
    let mut out: Vec<isize> = Vec::new();
    let mut d = radix;
    proof {
        broadcast use vstd::seq_lib::group_to_multiset_ensures;

        assert forall|v: isize| #[trigger] out@.to_multiset().count(v) == 0 by {
            assert(!out@.contains(v));
        }
        assert forall|v: isize| bucket_key(v, div as int, radix as int) >= -(radix as int) by {
            lemma_mod_pos_bound(magnitude(v as int) / div as int, radix as int);
        }
    }
    while d > 0
        invariant
            s == array@,
            ms == s.to_multiset(),
            radix >= 2,
            div >= 1,
            d <= radix,
            forall|i: int, j: int|
                0 <= i < j < s.len() && (s[i] < 0) == (s[j] < 0) ==> rank(#[trigger] s[i], div as int) <= rank(
                    #[trigger] s[j],
                    div as int,
                ),
            forall|v: isize|
                #[trigger] out@.to_multiset().count(v) == if bucket_key(v, div as int, radix as int) < -(
                d as int) {
                    ms.count(v)
                } else {
                    0
                },
            forall|p: int| 0 <= p < out@.len() ==> bucket_key(#[trigger] out@[p], div as int, radix as int) < -(d as int),
            forall|p: int, q: int|
                0 <= p < q < out@.len() ==> rank(#[trigger] out@[p], div * radix) <= rank(
                    #[trigger] out@[q],
                    div * radix,
                ),
        decreases d,
    {
        d -= 1;
        collect(array, &mut out, true, d, div, radix, Ghost(ms));
    }
    let mut d: usize = 0;
    while d < radix
        invariant
            s == array@,
            ms == s.to_multiset(),
            radix >= 2,
            div >= 1,
            d <= radix,
            forall|i: int, j: int|
                0 <= i < j < s.len() && (s[i] < 0) == (s[j] < 0) ==> rank(#[trigger] s[i], div as int) <= rank(
                    #[trigger] s[j],
                    div as int,
                ),
            forall|v: isize|
                #[trigger] out@.to_multiset().count(v) == if bucket_key(v, div as int, radix as int) < d {
                    ms.count(v)
                } else {
                    0
                },
            forall|p: int| 0 <= p < out@.len() ==> bucket_key(#[trigger] out@[p], div as int, radix as int) < d,
            forall|p: int, q: int|
                0 <= p < q < out@.len() ==> rank(#[trigger] out@[p], div * radix) <= rank(
                    #[trigger] out@[q],
                    div * radix,
                ),
        decreases radix - d,
    {
        collect(array, &mut out, false, d, div, radix, Ghost(ms));
        d += 1;
    }
    proof {
        broadcast use vstd::seq_lib::group_to_multiset_ensures;

        assert forall|v: isize| #[trigger] out@.to_multiset().count(v) == ms.count(v) by {
            lemma_mod_pos_bound(magnitude(v as int) / div as int, radix as int);
        }
        assert(out@.to_multiset() =~= ms);
        out@.to_multiset_ensures();
        s.to_multiset_ensures();
        assert(out@.len() == len);
    }
    let mut k: usize = 0;
    while k < len
        invariant
            len == array@.len() == out@.len(),
            k <= len,
            forall|p: int| 0 <= p < k ==> #[trigger] array@[p] == out@[p],
        decreases len - k,
    {
        array[k] = out[k];
        k += 1;
    }
    proof {
        assert(array@ =~= out@);
    }
}

/// Appends to `out`, in their order in `array`, the elements of the bucket of the
/// non-negative (or, when `negative`, negative) elements whose digit is `d`.
fn collect(
    array: &[isize],
    out: &mut Vec<isize>,
    negative: bool,
    d: usize,
    div: usize,
    radix: usize,
    Ghost(ms): Ghost<Multiset<isize>>,
)
    requires
        radix >= 2,
        div >= 1,
        d < radix,
        ms == array@.to_multiset(),
        forall|i: int, j: int|
            0 <= i < j < array@.len() && (array@[i] < 0) == (array@[j] < 0) ==> rank(
                #[trigger] array@[i],
                div as int,
            ) <= rank(#[trigger] array@[j], div as int),
        forall|v: isize|
            #[trigger] old(out)@.to_multiset().count(v) == if bucket_key(v, div as int, radix as int) < (
            if negative {
                -d - 1
            } else {
                d as int
            }) {
                ms.count(v)
            } else {
                0
            },
        forall|p: int|
            0 <= p < old(out)@.len() ==> bucket_key(#[trigger] old(out)@[p], div as int, radix as int) < (
            if negative {
                -d - 1
            } else {
                d as int
            }),
        forall|p: int, q: int|
            0 <= p < q < old(out)@.len() ==> rank(#[trigger] old(out)@[p], div * radix) <= rank(
                #[trigger] old(out)@[q],
                div * radix,
            ),
    ensures
        forall|v: isize|
            #[trigger] final(out)@.to_multiset().count(v) == if bucket_key(v, div as int, radix as int) <= (
            if negative {
                -d - 1
            } else {
                d as int
            }) {
                ms.count(v)
            } else {
                0
            },
        forall|p: int|
            0 <= p < final(out)@.len() ==> bucket_key(#[trigger] final(out)@[p], div as int, radix as int) <= (
            if negative {
                -d - 1
            } else {
                d as int
            }),
        forall|p: int, q: int|
            0 <= p < q < final(out)@.len() ==> rank(#[trigger] final(out)@[p], div * radix) <= rank(
                #[trigger] final(out)@[q],
                div * radix,
            ),
{
    broadcast use vstd::seq_lib::group_to_multiset_ensures;

    let ghost key: int = if negative {
        -d - 1
    } else {
        d as int
    };
    let ghost s = array@;
    let len = array.len();
    let mut j: usize = 0;
    proof {
        assert(s.subrange(0, 0) =~= Seq::<isize>::empty());
    }
    while j < len
        invariant
            radix >= 2,
            div >= 1,
            d < radix,
            s == array@,
            len == s.len(),
            j <= len,
            ms == s.to_multiset(),
            key == if negative {
                -d - 1
            } else {
                d as int
            },
            forall|i: int, j: int|
                0 <= i < j < s.len() && (s[i] < 0) == (s[j] < 0) ==> rank(#[trigger] s[i], div as int) <= rank(
                    #[trigger] s[j],
                    div as int,
                ),
            forall|v: isize|
                #[trigger] out@.to_multiset().count(v) == if bucket_key(v, div as int, radix as int) < key {
                    ms.count(v)
                } else if bucket_key(v, div as int, radix as int) == key {
                    s.subrange(0, j as int).to_multiset().count(v)
                } else {
                    0
                },
            forall|p: int| 0 <= p < out@.len() ==> bucket_key(#[trigger] out@[p], div as int, radix as int) <= key,
            forall|p: int, q: int|
                0 <= p < q < out@.len() ==> rank(#[trigger] out@[p], div * radix) <= rank(
                    #[trigger] out@[q],
                    div * radix,
                ),
            forall|p: int, i: int|
                0 <= p < out@.len() && j <= i < len && bucket_key(#[trigger] out@[p], div as int, radix as int)
                    == key && bucket_key(#[trigger] s[i], div as int, radix as int) == key ==> rank(
                    out@[p],
                    div as int,
                ) <= rank(s[i], div as int),
        decreases len - j,
    {
        let e = array[j];
        let m = magnitude_of(e);
        let dig = (m / div) % radix;
        let ghost before = out@;
        proof {
            assert(s.subrange(0, j + 1) =~= s.subrange(0, j as int).push(e));
            s.subrange(0, j as int).to_multiset_ensures();
            assert(dig == digit(e, div as int, radix as int));
        }
        if (e < 0) == negative && dig == d {
            proof {
                assert(bucket_key(e, div as int, radix as int) == key);
                assert forall|p: int| 0 <= p < before.len() implies rank(#[trigger] before[p], div * radix) <= rank(
                    e,
                    div * radix,
                ) by {
                    lemma_rank_step(before[p], e, div as int, radix as int);
                }
            }
            out.push(e);
            proof {
                before.to_multiset_ensures();
                assert forall|p: int, i: int|
                    0 <= p < out@.len() && j + 1 <= i < len && bucket_key(#[trigger] out@[p], div as int, radix as int)
                        == key && bucket_key(#[trigger] s[i], div as int, radix as int) == key implies rank(
                    out@[p],
                    div as int,
                ) <= rank(s[i], div as int) by {
                    if p == before.len() {
                        assert((s[j as int] < 0) == (s[i] < 0));
                    }
                }
            }
        }
        j += 1;
    }
    proof {
        assert(s.subrange(0, len as int) =~= s);
    }
}

} // verus!
