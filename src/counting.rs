//! Counting sort over integers: one histogram for the non-negative values and one
//! for the negative ones, each indexed by magnitude. O(N + M), M the magnitude bound.

use crate::error::SortError;
use crate::order::{magnitude, nondecreasing, nonincreasing, permutes};
use vstd::multiset::Multiset;
use vstd::prelude::*;

verus! {

/// The first refusal that a scan of `s` from the left meets, under the magnitude
/// bound `max`, with negative elements accepted only when `signed`.
pub open spec fn violation(s: Seq<isize>, max: int, signed: bool) -> Option<SortError>
    decreases s.len(),
{
    if s.len() == 0 {
        None
    } else if magnitude(s[0] as int) > max {
        Some(SortError::OutOfRange)
    } else if s[0] < 0 && !signed {
        Some(SortError::Negative)
    } else {
        violation(s.drop_first(), max, signed)
    }
}

/// `s` is ordered upwards when `up`, downwards otherwise.
pub open spec fn in_order(s: Seq<isize>, up: bool) -> bool {
    if up {
        nondecreasing(s)
    } else {
        nonincreasing(s)
    }
}

/// `v` comes before `w` when ordering upwards (`up`) or downwards.
pub open spec fn precedes(v: int, w: int, up: bool) -> bool {
    if up {
        v < w
    } else {
        v > w
    }
}

/// The largest magnitude among the elements of `array`, or `None` when one of them
/// has no magnitude that `isize` can hold.
pub fn max_magnitude(array: &[isize]) -> (m: Option<usize>)
    ensures
        m matches Some(b) ==> b <= isize::MAX && forall|j: int|
            0 <= j < array@.len() ==> magnitude(#[trigger] array@[j] as int) <= b,
        m matches Some(b) ==> (array@.len() == 0 && b == 0) || exists|j: int|
            0 <= j < array@.len() && magnitude(#[trigger] array@[j] as int) == b,
        m is None <==> exists|j: int| 0 <= j < array@.len() && #[trigger] array@[j] == isize::MIN,
{
    let mut best: usize = 0;
    let mut i: usize = 0;
    while i < array.len()
        invariant
            i <= array@.len(),
            best <= isize::MAX,
            forall|j: int| 0 <= j < i ==> #[trigger] array@[j] != isize::MIN,
            forall|j: int| 0 <= j < i ==> magnitude(#[trigger] array@[j] as int) <= best,
            (i == 0 && best == 0) || exists|j: int|
                0 <= j < i && magnitude(#[trigger] array@[j] as int) == best,
        decreases array@.len() - i,
    {
        let e = array[i];
        if e == isize::MIN {
            return None;
        }
        let mag: usize = if e < 0 {
            (-e) as usize
        } else {
            e as usize
        };
        if mag > best {
            best = mag;
        }
        i += 1;
    }
    Some(best)
}

/// Sorts `array` in ascending order with counting sort, taking the magnitude bound
/// from the data. Fails only when an element is `isize::MIN`, whose magnitude
/// `isize` cannot hold.
pub fn sort(array: &mut [isize]) -> (res: Result<(), SortError>)
    ensures
        res is Err <==> exists|j: int| 0 <= j < old(array)@.len() && #[trigger] old(array)@[j] == isize::MIN,
        res is Err ==> res == Err::<(), SortError>(SortError::OutOfRange) && final(array)@ == old(array)@,
        res is Ok ==> nondecreasing(final(array)@) && permutes(final(array)@, old(array)@),
{
    counting_scan_impl(array, true)
}

/// Sorts `array` in descending order with counting sort, taking the magnitude bound
/// from the data. Fails only when an element is `isize::MIN`.
pub fn sort_reverse(array: &mut [isize]) -> (res: Result<(), SortError>)
    ensures
        res is Err <==> exists|j: int| 0 <= j < old(array)@.len() && #[trigger] old(array)@[j] == isize::MIN,
        res is Err ==> res == Err::<(), SortError>(SortError::OutOfRange) && final(array)@ == old(array)@,
        res is Ok ==> nonincreasing(final(array)@) && permutes(final(array)@, old(array)@),
{
    counting_scan_impl(array, false)
}

fn counting_scan_impl(array: &mut [isize], ascending: bool) -> (res: Result<(), SortError>)
    ensures
        res is Err <==> exists|j: int| 0 <= j < old(array)@.len() && #[trigger] old(array)@[j] == isize::MIN,
        res is Err ==> res == Err::<(), SortError>(SortError::OutOfRange) && final(array)@ == old(array)@,
        res is Ok ==> in_order(final(array)@, ascending) && permutes(final(array)@, old(array)@),
{
    match max_magnitude(array) {
        None => Err(SortError::OutOfRange),
        Some(max) => {
            proof {
                lemma_violation(array@, max as int, true);
            }
            sort_within(array, max, ascending, true)
        },
    }
}

/// Whether a scan of `s` under the bound `max` fails, and how, when negative
/// elements are accepted.
pub proof fn lemma_violation(s: Seq<isize>, max: int, signed: bool)
    ensures
        violation(s, max, signed) is None <==> forall|j: int|
            0 <= j < s.len() ==> magnitude(#[trigger] s[j] as int) <= max && (signed || s[j] >= 0),
        signed ==> (violation(s, max, signed) is None || violation(s, max, signed) == Some(
            SortError::OutOfRange,
        )),
    decreases s.len(),
{
    if s.len() > 0 {
        let d = s.drop_first();
        lemma_violation(d, max, signed);
        if violation(s, max, signed) is None {
            assert forall|j: int| 0 <= j < s.len() implies magnitude(#[trigger] s[j] as int) <= max
                && (signed || s[j] >= 0) by {
                if j > 0 {
                    assert(s[j] == d[j - 1]);
                }
            }
        }
        if forall|j: int|
            0 <= j < s.len() ==> magnitude(#[trigger] s[j] as int) <= max && (signed || s[j] >= 0) {
            assert(magnitude(s[0] as int) <= max && (signed || s[0] >= 0));
            assert forall|j: int| 0 <= j < d.len() implies magnitude(#[trigger] d[j] as int) <= max
                && (signed || d[j] >= 0) by {
                assert(d[j] == s[j + 1]);
            }
        }
    }
}

/// Sorts `array` with counting sort under the magnitude bound `max`, upwards when
/// `ascending`, accepting negative elements only when `signed`. When an element is
/// refused, fails with the first refusal met and leaves `array` as it was.
pub fn sort_within(array: &mut [isize], max: usize, ascending: bool, signed: bool) -> (res: Result<
    (),
    SortError,
>)
    requires
        max <= isize::MAX,
    ensures
        violation(old(array)@, max as int, signed) matches Some(e) ==> res == Err::<(), SortError>(e)
            && final(array)@ == old(array)@,
        violation(old(array)@, max as int, signed) is None ==> res is Ok && in_order(
            final(array)@,
            ascending,
        ) && permutes(final(array)@, old(array)@),
{
    broadcast use vstd::seq_lib::group_to_multiset_ensures;

    let ghost s = array@;
    let len = array.len();
    let mut pos: Vec<usize> = vec![0; max + 1];
    let mut neg: Vec<usize> = if signed {
        vec![0; max]
    } else {
        Vec::new()
    };
    let mut i: usize = 0;
    proof {
        assert(s.subrange(0, len as int) =~= s);
    }
    while i < len
        invariant
            s == array@,
            len == s.len(),
            i <= len,
            max <= isize::MAX,
            pos@.len() == max + 1,
            neg@.len() == if signed {
                max as int
            } else {
                0
            },
            violation(s, max as int, signed) == violation(s.subrange(i as int, len as int), max as int, signed),
            forall|k: int|
                0 <= k <= max ==> #[trigger] pos@[k] == s.subrange(0, i as int).to_multiset().count(
                    k as isize,
                ),
            forall|k: int|
                0 <= k < neg@.len() ==> #[trigger] neg@[k] == s.subrange(0, i as int).to_multiset().count(
                    (-k - 1) as isize,
                ),
            forall|j: int|
                0 <= j < i ==> magnitude(#[trigger] s[j] as int) <= max && (signed || s[j] >= 0),
        decreases len - i,
    {
        let e = array[i];
        proof {
            assert(s.subrange(i as int, len as int).drop_first() =~= s.subrange(i + 1, len as int));
            assert(s.subrange(0, i + 1) =~= s.subrange(0, i as int).push(e));
            s.subrange(0, i as int).to_multiset_ensures();
            assert(s.subrange(0, i as int).to_multiset().count(e) <= i) by {
                vstd::multiset::axiom_count_le_len(s.subrange(0, i as int).to_multiset(), e);
            }
        }
        if e >= 0 {
            let mag = e as usize;
            if mag > max {
                return Err(SortError::OutOfRange);
            }
            let c = pos[mag];
            pos.set(mag, c + 1);
        } else {
            if e < -(max as isize) {
                return Err(SortError::OutOfRange);
            }
            if !signed {
                return Err(SortError::Negative);
            }
            let mag = (-(e + 1)) as usize;
            let c = neg[mag];
            neg.set(mag, c + 1);
        }
        i += 1;
    }
    proof {
        assert(s.subrange(0, len as int) =~= s);
        assert(violation(s.subrange(len as int, len as int), max as int, signed) is None);
        assert forall|v: isize|
            (v as int) < -(max as int) || (v as int) > max || (!signed && v < 0) implies s.to_multiset().count(v) == 0 by {
            if s.to_multiset().count(v) > 0 {
                assert(s.contains(v));
            }
        }
    }
    let ghost ms = s.to_multiset();
    let mut t: usize = 0;
    if ascending {
        if signed {
            let mut m = max;
            while m > 0
                invariant
                    ms == s.to_multiset(),
                    len == s.len() == array@.len() == ms.len(),
                    t <= len,
                    m <= max <= isize::MAX,
                    signed,
                    neg@.len() == max,
                    forall|k: int| 0 <= k < neg@.len() ==> #[trigger] neg@[k] == ms.count((-k - 1) as isize),
                    forall|v: isize| (v as int) < -(max as int) ==> ms.count(v) == 0,
                    forall|v: isize|
                        #[trigger] array@.subrange(0, t as int).to_multiset().count(v) == if (v as int) < -(m as int) {
                            ms.count(v)
                        } else {
                            0
                        },
                    nondecreasing(array@.subrange(0, t as int)),
                    forall|p: int| 0 <= p < t ==> (#[trigger] array@[p] as int) < -(m as int),
                decreases m,
            {
                m -= 1;
                let value = -(m as isize) - 1;
                let c = neg[m];
                t = emit_run(array, t, value, c, true, Ghost(ms));
            }
        }
        let mut k: usize = 0;
        while k <= max
            invariant
                ms == s.to_multiset(),
                len == s.len() == array@.len() == ms.len(),
                t <= len,
                k <= max + 1,
                max <= isize::MAX,
                pos@.len() == max + 1,
                forall|k: int| 0 <= k <= max ==> #[trigger] pos@[k] == ms.count(k as isize),
                forall|v: isize|
                    #[trigger] array@.subrange(0, t as int).to_multiset().count(v) == if (v as int) < k {
                        ms.count(v)
                    } else {
                        0
                    },
                nondecreasing(array@.subrange(0, t as int)),
                forall|p: int| 0 <= p < t ==> (#[trigger] array@[p] as int) < k,
            decreases max + 1 - k,
        {
            let c = pos[k];
            t = emit_run(array, t, k as isize, c, true, Ghost(ms));
            k += 1;
        }
    } else {
        let mut k: usize = max + 1;
        while k > 0
            invariant
                ms == s.to_multiset(),
                len == s.len() == array@.len() == ms.len(),
                t <= len,
                k <= max + 1,
                max <= isize::MAX,
                pos@.len() == max + 1,
                forall|k: int| 0 <= k <= max ==> #[trigger] pos@[k] == ms.count(k as isize),
                forall|v: isize| (v as int) > max ==> ms.count(v) == 0,
                forall|v: isize|
                    #[trigger] array@.subrange(0, t as int).to_multiset().count(v) == if (v as int) >= k {
                        ms.count(v)
                    } else {
                        0
                    },
                nonincreasing(array@.subrange(0, t as int)),
                forall|p: int| 0 <= p < t ==> (#[trigger] array@[p] as int) >= k,
            decreases k,
        {
            k -= 1;
            let c = pos[k];
            t = emit_run(array, t, k as isize, c, false, Ghost(ms));
        }
        if signed {
            let mut m: usize = 0;
            while m < max
                invariant
                    ms == s.to_multiset(),
                    len == s.len() == array@.len() == ms.len(),
                    t <= len,
                    m <= max <= isize::MAX,
                    signed,
                    neg@.len() == max,
                    forall|k: int| 0 <= k < neg@.len() ==> #[trigger] neg@[k] == ms.count((-k - 1) as isize),
                    forall|v: isize|
                        #[trigger] array@.subrange(0, t as int).to_multiset().count(v) == if (v as int) >= -(m as int) {
                            ms.count(v)
                        } else {
                            0
                        },
                    nonincreasing(array@.subrange(0, t as int)),
                    forall|p: int| 0 <= p < t ==> (#[trigger] array@[p] as int) >= -(m as int),
                decreases max - m,
            {
                let value = -(m as isize) - 1;
                let c = neg[m];
                t = emit_run(array, t, value, c, false, Ghost(ms));
                m += 1;
            }
        }
    }
    proof {
        let out = array@.subrange(0, t as int);
        assert(out.to_multiset() =~= ms);
        assert(out.len() == t);
        assert(t == len);
        assert(out =~= array@);
    }
    Ok(())
}

/// Writes `count` copies of `value` from position `t` on, where `count` is how often
/// `value` occurs in `ms` and the positions before `t` hold exactly the elements of
/// `ms` that precede `value`.
fn emit_run(
    array: &mut [isize],
    t: usize,
    value: isize,
    count: usize,
    up: bool,
    Ghost(ms): Ghost<Multiset<isize>>,
) -> (t2: usize)
    requires
        t <= old(array)@.len() == ms.len(),
        count == ms.count(value),
        forall|v: isize|
            #[trigger] old(array)@.subrange(0, t as int).to_multiset().count(v) == if precedes(
                v as int,
                value as int,
                up,
            ) {
                ms.count(v)
            } else {
                0
            },
        in_order(old(array)@.subrange(0, t as int), up),
        forall|p: int| 0 <= p < t ==> precedes(#[trigger] old(array)@[p] as int, value as int, up),
    ensures
        t2 == t + count <= final(array)@.len() == old(array)@.len(),
        forall|v: isize|
            #[trigger] final(array)@.subrange(0, t2 as int).to_multiset().count(v) == if precedes(
                v as int,
                value as int,
                up,
            ) || v == value {
                ms.count(v)
            } else {
                0
            },
        in_order(final(array)@.subrange(0, t2 as int), up),
        forall|p: int| 0 <= p < t2 ==> #[trigger] final(array)@[p] == value || precedes(final(array)@[p] as int, value as int, up),
{
    broadcast use vstd::seq_lib::group_to_multiset_ensures;

    let mut t2 = t;
    let mut k: usize = 0;
    while k < count
        invariant
            array@.len() == ms.len(),
            count == ms.count(value),
            k <= count,
            t2 == t + k <= array@.len(),
            forall|v: isize|
                #[trigger] array@.subrange(0, t2 as int).to_multiset().count(v) == if precedes(
                    v as int,
                    value as int,
                    up,
                ) {
                    ms.count(v)
                } else if v == value {
                    k as nat
                } else {
                    0
                },
            in_order(array@.subrange(0, t2 as int), up),
            forall|p: int| 0 <= p < t2 ==> #[trigger] array@[p] == value || precedes(array@[p] as int, value as int, up),
        decreases count - k,
    {
        let ghost out = array@.subrange(0, t2 as int);
        proof {
            out.to_multiset_ensures();
            assert(out.to_multiset().insert(value).subset_of(ms));
            vstd::multiset::axiom_len_sub(ms, out.to_multiset().insert(value));
        }
        array[t2] = value;
        proof {
            assert(array@.subrange(0, t2 + 1) =~= out.push(value));
        }
        t2 += 1;
        k += 1;
    }
    t2
}

} // verus!
