//! Bead (gravity) sort over non-negative integers: each element is a row of beads
//! as long as its value, the beads fall down each column, and the rows are read
//! back. O(M·N) cells for the largest value M.

use crate::error::SortError;
use crate::order::{nondecreasing, nonincreasing, permutes};
use vstd::prelude::*;

verus! {

/// How many elements of `s` are greater than `w`.
pub open spec fn count_above(s: Seq<isize>, w: int) -> nat
    decreases s.len(),
{
    if s.len() == 0 {
        0
    } else {
        count_above(s.drop_last(), w) + if s.last() > w {
            1nat
        } else {
            0nat
        }
    }
}

/// The index of the cell in row `i` and column `j` of a grid `w` columns wide.
pub open spec fn cell(i: int, j: int, w: int) -> int {
    i * w + j
}

/// Every element of `s` lies in `0..=m`.
pub open spec fn bounded_by(s: Seq<isize>, m: int) -> bool {
    forall|i: int| 0 <= i < s.len() ==> 0 <= #[trigger] s[i] <= m
}

/// The cells of an `n` by `w` grid are distinct and lie below `n * w`.
proof fn lemma_cells(n: int, w: int)
    requires
        n >= 0,
        w >= 0,
    ensures
        forall|i: int, j: int| 0 <= i < n && 0 <= j < w ==> 0 <= #[trigger] cell(i, j, w) < n * w,
        forall|i: int, j: int, i2: int, j2: int|
            0 <= i < n && 0 <= j < w && 0 <= i2 < n && 0 <= j2 < w && #[trigger] cell(i, j, w) == #[trigger] cell(
                i2,
                j2,
                w,
            ) ==> i == i2 && j == j2,
{
    assert forall|i: int, j: int| 0 <= i < n && 0 <= j < w implies 0 <= #[trigger] cell(i, j, w) < n * w by {
        assert(0 <= i * w + j < n * w) by (nonlinear_arith)
            requires
                0 <= i < n,
                0 <= j < w,
        ;
    }
    assert forall|i: int, j: int, i2: int, j2: int|
        0 <= i < n && 0 <= j < w && 0 <= i2 < n && 0 <= j2 < w && #[trigger] cell(i, j, w) == #[trigger] cell(
            i2,
            j2,
            w,
        ) implies i == i2 && j == j2 by {
        if i < i2 {
            assert(i * w + j < i2 * w + j2) by (nonlinear_arith)
                requires
                    i < i2,
                    0 <= j < w,
                    0 <= j2,
            ;
        } else if i2 < i {
            assert(i2 * w + j2 < i * w + j) by (nonlinear_arith)
                requires
                    i2 < i,
                    0 <= j2 < w,
                    0 <= j,
            ;
        }
    }
}

/// Fewer elements exceed a higher threshold.
proof fn lemma_count_above_mono(s: Seq<isize>, w1: int, w2: int)
    requires
        w1 <= w2,
    ensures
        count_above(s, w2) <= count_above(s, w1),
        count_above(s, w1) <= s.len(),
    decreases s.len(),
{
    if s.len() > 0 {
        lemma_count_above_mono(s.drop_last(), w1, w2);
    }
}

/// When the elements above `w` are exactly those from position `s.len() - c` on,
/// there are `c` of them.
proof fn lemma_count_above_suffix(s: Seq<isize>, w: int, c: int)
    requires
        0 <= c <= s.len(),
        forall|i: int| 0 <= i < s.len() ==> (#[trigger] s[i] > w <==> i >= s.len() - c),
    ensures
        count_above(s, w) == c,
    decreases s.len(),
{
    if s.len() > 0 {
        let d = s.drop_last();
        if c > 0 {
            lemma_count_above_suffix(d, w, c - 1);
        } else {
            lemma_count_above_suffix(d, w, 0);
        }
    }
}

/// How often `v` occurs, from how many elements exceed `v - 1` and `v`.
proof fn lemma_count_from_above(s: Seq<isize>, v: isize)
    ensures
        s.to_multiset().count(v) == count_above(s, v - 1) - count_above(s, v as int),
    decreases s.len(),
{
    broadcast use vstd::seq_lib::group_to_multiset_ensures;

    if s.len() > 0 {
        let d = s.drop_last();
        lemma_count_from_above(d, v);
        assert(s =~= d.push(s.last()));
        lemma_count_above_mono(d, v - 1, v as int);
    } else {
        assert(s.to_multiset() =~= vstd::multiset::Multiset::empty());
    }
}

/// Sorts `array` in ascending order with bead sort. Fails when an element is
/// negative, or when the grid of beads (largest element times length cells) does not
/// fit in memory addresses; either way `array` is left as it was.
pub fn sort(array: &mut [isize]) -> (res: Result<(), SortError>)
    ensures
        (exists|i: int| 0 <= i < old(array)@.len() && #[trigger] old(array)@[i] < 0) ==> res
            == Err::<(), SortError>(SortError::Negative),
        res is Ok <==> exists|m: int|
            bounded_by(old(array)@, m) && #[trigger] (m * old(array)@.len()) <= usize::MAX,
        res is Err ==> final(array)@ == old(array)@,
        res is Err ==> res == Err::<(), SortError>(SortError::Negative) || res == Err::<(), SortError>(SortError::OutOfRange),
        res is Ok ==> nondecreasing(final(array)@) && permutes(final(array)@, old(array)@),
{
    gravity_sort_impl(array, true)
}

/// Sorts `array` in descending order with bead sort, failing as [`sort`] does.
pub fn sort_reverse(array: &mut [isize]) -> (res: Result<(), SortError>)
    ensures
        (exists|i: int| 0 <= i < old(array)@.len() && #[trigger] old(array)@[i] < 0) ==> res
            == Err::<(), SortError>(SortError::Negative),
        res is Ok <==> exists|m: int|
            bounded_by(old(array)@, m) && #[trigger] (m * old(array)@.len()) <= usize::MAX,
        res is Err ==> final(array)@ == old(array)@,
        res is Err ==> res == Err::<(), SortError>(SortError::Negative) || res == Err::<(), SortError>(SortError::OutOfRange),
        res is Ok ==> nonincreasing(final(array)@) && permutes(final(array)@, old(array)@),
{
    gravity_sort_impl(array, false)
}

fn gravity_sort_impl(array: &mut [isize], ascending: bool) -> (res: Result<(), SortError>)
    ensures
        (exists|i: int| 0 <= i < old(array)@.len() && #[trigger] old(array)@[i] < 0) ==> res
            == Err::<(), SortError>(SortError::Negative),
        res is Ok <==> exists|m: int|
            bounded_by(old(array)@, m) && #[trigger] (m * old(array)@.len()) <= usize::MAX,
        res is Err ==> final(array)@ == old(array)@,
        res is Err ==> res == Err::<(), SortError>(SortError::Negative) || res == Err::<(), SortError>(SortError::OutOfRange),
        res is Ok ==> (if ascending {
            nondecreasing(final(array)@)
        } else {
            nonincreasing(final(array)@)
        }) && permutes(final(array)@, old(array)@),
{
    let ghost s = array@;
    let n = array.len();
    // The largest element; negative elements are refused.
    let mut max: usize = 0;
    let mut i: usize = 0;
    while i < n
        invariant
            n == s.len() == array@.len(),
            s == array@,
            i <= n,
            max <= isize::MAX,
            forall|k: int| 0 <= k < i ==> 0 <= #[trigger] s[k] <= max,
            (i == 0 && max == 0) || exists|k: int| 0 <= k < i && #[trigger] s[k] == max,
        decreases n - i,
    {
        let e = array[i];
        if e < 0 {
            return Err(SortError::Negative);
        }
        if e as usize > max {
            max = e as usize;
        }
        proof {
            if max == e {
                assert(s[i as int] == max);
            } else if i == 0 {
                assert(e == 0 && max == 0);
                assert(s[0] == max);
            }
        }
        i += 1;
    }
    let cells = match max.checked_mul(n) {
        None => {
            proof {
                assert forall|m: int| bounded_by(s, m) implies #[trigger] (m * s.len()) > usize::MAX by {
                    if n > 0 {
                        let k = choose|k: int| 0 <= k < n && #[trigger] s[k] == max;
                        assert(s[k] <= m);
                        assert(m * n >= max * n) by (nonlinear_arith)
                            requires
                                m >= max,
                                n >= 0,
                        ;
                    }
                }
            }
            return Err(SortError::OutOfRange);
        },
        Some(c) => c,
    };
    proof {
        assert(bounded_by(s, max as int));
        assert((max as int) * s.len() <= usize::MAX);
        lemma_cells(n as int, max as int);
        assert(cells == n * max) by (nonlinear_arith)
            requires
                cells == max * n,
        ;
    }
    let ghost w = max as int;
    let mut beads: Vec<bool> = vec![false; cells];
    // Lay each element out as a row of beads.
    let mut i: usize = 0;
    while i < n
        invariant
            n == s.len() == array@.len(),
            s == array@,
            i <= n,
            w == max,
            beads@.len() == cells == n * w,
            bounded_by(s, w),
            forall|i: int, j: int| 0 <= i < n && 0 <= j < w ==> 0 <= #[trigger] cell(i, j, w) < n * w,
            forall|i: int, j: int, i2: int, j2: int|
                0 <= i < n && 0 <= j < w && 0 <= i2 < n && 0 <= j2 < w && #[trigger] cell(i, j, w)
                    == #[trigger] cell(i2, j2, w) ==> i == i2 && j == j2,
            forall|r: int, j: int|
                0 <= r < n && 0 <= j < w ==> #[trigger] beads@[cell(r, j, w)] == (r < i && j < s[r]),
        decreases n - i,
    {
        let len = array[i] as usize;
        let mut j: usize = 0;
        while j < len
            invariant
                n == s.len() == array@.len(),
                s == array@,
                i < n,
                j <= len == s[i as int] <= w,
                w == max,
                beads@.len() == cells == n * w,
                forall|i: int, j: int| 0 <= i < n && 0 <= j < w ==> 0 <= #[trigger] cell(i, j, w) < n * w,
                forall|i: int, j: int, i2: int, j2: int|
                    0 <= i < n && 0 <= j < w && 0 <= i2 < n && 0 <= j2 < w && #[trigger] cell(i, j, w)
                        == #[trigger] cell(i2, j2, w) ==> i == i2 && j == j2,
                forall|r: int, c: int|
                    0 <= r < n && 0 <= c < w ==> #[trigger] beads@[cell(r, c, w)] == ((r < i && c < s[r]) || (
                    r == i && c < j)),
            decreases len - j,
        {
            proof {
                assert(cell(i as int, j as int, w) < n * w);
            }
            beads.set(i * max + j, true);
            j += 1;
        }
        i += 1;
    }
    // Let the beads of each column fall to its bottom rows.
    let mut j: usize = 0;
    while j < max
        invariant
            n == s.len() == array@.len(),
            s == array@,
            j <= max,
            w == max,
            beads@.len() == cells == n * w,
            forall|i: int, j: int| 0 <= i < n && 0 <= j < w ==> 0 <= #[trigger] cell(i, j, w) < n * w,
            forall|i: int, j: int, i2: int, j2: int|
                0 <= i < n && 0 <= j < w && 0 <= i2 < n && 0 <= j2 < w && #[trigger] cell(i, j, w)
                    == #[trigger] cell(i2, j2, w) ==> i == i2 && j == j2,
            forall|r: int, c: int|
                0 <= r < n && 0 <= c < w ==> #[trigger] beads@[cell(r, c, w)] == if c < j {
                    r >= n - (count_above(s, c) as int)
                } else {
                    c < s[r]
                },
        decreases max - j,
    {
        let mut sum: usize = 0;
        let mut i: usize = 0;
        while i < n
            invariant
                n == s.len() == array@.len(),
                s == array@,
                j < max,
                i <= n,
                w == max,
                beads@.len() == cells == n * w,
                sum == count_above(s.subrange(0, i as int), j as int),
                sum <= i,
                forall|i: int, j: int| 0 <= i < n && 0 <= j < w ==> 0 <= #[trigger] cell(i, j, w) < n * w,
                forall|i: int, j: int, i2: int, j2: int|
                    0 <= i < n && 0 <= j < w && 0 <= i2 < n && 0 <= j2 < w && #[trigger] cell(i, j, w)
                        == #[trigger] cell(i2, j2, w) ==> i == i2 && j == j2,
                forall|r: int, c: int|
                    0 <= r < n && 0 <= c < w ==> #[trigger] beads@[cell(r, c, w)] == if c < j {
                        r >= n - (count_above(s, c) as int)
                    } else if c == j && r < i {
                        false
                    } else {
                        c < s[r]
                    },
            decreases n - i,
        {
            proof {
                assert(cell(i as int, j as int, w) < n * w);
                assert(s.subrange(0, i + 1).drop_last() =~= s.subrange(0, i as int));
            }
            if beads[i * max + j] {
                sum += 1;
            }
            beads.set(i * max + j, false);
            i += 1;
        }
        proof {
            assert(s.subrange(0, n as int) =~= s);
            assert(count_above(s.subrange(0, n as int), j as int) == count_above(s, j as int));
            assert(sum == (count_above(s, j as int) as int));
        }
        let mut i: usize = n - sum;
        while i < n
            invariant
                n == s.len() == array@.len(),
                s == array@,
                j < max,
                n - sum <= i <= n,
                sum == (count_above(s, j as int) as int),
                w == max,
                beads@.len() == cells == n * w,
                forall|i: int, j: int| 0 <= i < n && 0 <= j < w ==> 0 <= #[trigger] cell(i, j, w) < n * w,
                forall|i: int, j: int, i2: int, j2: int|
                    0 <= i < n && 0 <= j < w && 0 <= i2 < n && 0 <= j2 < w && #[trigger] cell(i, j, w)
                        == #[trigger] cell(i2, j2, w) ==> i == i2 && j == j2,
                forall|r: int, c: int|
                    0 <= r < n && 0 <= c < w ==> #[trigger] beads@[cell(r, c, w)] == if c < j {
                        r >= n - (count_above(s, c) as int)
                    } else if c == j {
                        n - sum <= r < i
                    } else {
                        c < s[r]
                    },
            decreases n - i,
        {
            proof {
                assert(cell(i as int, j as int, w) < n * w);
            }
            beads.set(i * max + j, true);
            i += 1;
        }
        j += 1;
    }
    // Read each row back: its value is the number of beads it holds.
    let ghost mut vals: Seq<isize> = Seq::empty();
    let mut i: usize = 0;
    while i < n
        invariant
            n == s.len() == array@.len(),
            i <= n,
            w == max,
            max <= isize::MAX,
            beads@.len() == cells == n * w,
            vals.len() == i,
            forall|i: int, j: int| 0 <= i < n && 0 <= j < w ==> 0 <= #[trigger] cell(i, j, w) < n * w,
            forall|r: int, c: int|
                0 <= r < n && 0 <= c < w ==> #[trigger] beads@[cell(r, c, w)] == (r >= n - (count_above(s, c) as int)),
            forall|k: int|
                0 <= k < i ==> 0 <= #[trigger] vals[k] <= w && (forall|c: int|
                    0 <= c < vals[k] ==> #[trigger] (count_above(s, c) as int) >= n - k) && (vals[k] < w ==> (count_above(s, 
                    vals[k] as int,
                ) as int) < n - k),
            forall|k: int|
                0 <= k < i ==> array@[if ascending {
                    k
                } else {
                    n - 1 - k
                }] == #[trigger] vals[k],
            forall|k: int|
                0 <= k < n && !(if ascending {
                    k < i
                } else {
                    k >= n - i
                }) ==> #[trigger] array@[k] == s[k],
        decreases n - i,
    {
        let mut j: usize = 0;
        let mut stop = false;
        while j < max && !stop
            invariant
                i < n,
                j <= max,
                w == max,
                beads@.len() == cells == n * w,
                forall|i: int, j: int| 0 <= i < n && 0 <= j < w ==> 0 <= #[trigger] cell(i, j, w) < n * w,
                forall|r: int, c: int|
                    0 <= r < n && 0 <= c < w ==> #[trigger] beads@[cell(r, c, w)] == (r >= n - (count_above(s, c) as int)),
                forall|c: int| 0 <= c < j ==> #[trigger] (count_above(s, c) as int) >= n - i,
                stop ==> j < max && (count_above(s, j as int) as int) < n - i,
            decreases max - j, if stop { 0int } else { 1int },
        {
            proof {
                assert(cell(i as int, j as int, w) < n * w);
            }
            if beads[i * max + j] {
                j += 1;
            } else {
                stop = true;
            }
        }
        proof {
            vals = vals.push(j as isize);
        }
        if ascending {
            array[i] = j as isize;
        } else {
            array[n - 1 - i] = j as isize;
        }
        i += 1;
    }
    proof {
        // The rows read back ascend.
        assert forall|a: int, b: int| 0 <= a < b < n implies #[trigger] vals[a] <= #[trigger] vals[b] by {
            if vals[b] < w {
                lemma_count_above_mono(s, vals[b] as int, vals[b] as int);
                if vals[a] > vals[b] {
                    assert((count_above(s, vals[b] as int) as int) >= n - a);
                }
            }
        }
        // They hold the elements: as many exceed each threshold as in the input.
        assert forall|t: int| -1 <= t implies #[trigger] count_above(vals, t) == count_above(s, t) by {
            if t >= w {
                lemma_count_above_suffix(vals, t, 0);
                lemma_count_above_suffix(s, t, 0);
            } else if t == -1 {
                lemma_count_above_suffix(vals, t, n as int);
                lemma_count_above_suffix(s, t, n as int);
            } else {
                lemma_count_above_mono(s, t, t);
                assert forall|k: int| 0 <= k < n implies (#[trigger] vals[k] > t <==> k >= n - (count_above(s, t) as int)) by {
                    if vals[k] > t {
                        assert((count_above(s, t) as int) >= n - k);
                    } else if k >= n - (count_above(s, t) as int) {
                        if vals[k] < w {
                            lemma_count_above_mono(s, vals[k] as int, t);
                        }
                    }
                }
                lemma_count_above_suffix(vals, t, (count_above(s, t) as int));
            }
        }
        assert forall|v: isize| #[trigger] vals.to_multiset().count(v) == s.to_multiset().count(v) by {
            lemma_count_from_above(vals, v);
            lemma_count_from_above(s, v);
            if v < 0 {
                lemma_count_above_mono(s, v - 1, -1);
                lemma_count_above_mono(s, v as int, -1);
                lemma_count_above_mono(vals, v - 1, -1);
                lemma_count_above_mono(vals, v as int, -1);
                lemma_count_above_suffix(vals, v - 1, n as int);
                lemma_count_above_suffix(s, v - 1, n as int);
                lemma_count_above_suffix(vals, v as int, n as int);
                lemma_count_above_suffix(s, v as int, n as int);
            }
        }
        assert(vals.to_multiset() =~= s.to_multiset());
        if ascending {
            assert(array@ =~= vals);
        } else {
            assert(array@ =~= vals.reverse());
            vals.lemma_reverse_to_multiset();
        }
        assert(exists|m: int| bounded_by(s, m) && #[trigger] (m * s.len()) <= usize::MAX) by {
            assert(bounded_by(s, max as int));
            assert((max as int) * s.len() <= usize::MAX);
        }
    }
    Ok(())
}

} // verus!
