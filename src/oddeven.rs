//! Odd-even transposition sort: alternates passes over the neighbours starting at odd
//! and at even positions until a round exchanges nothing. O(N²).

use crate::order::{
    compares_by, is_total_order, le, lemma_natural_comparators, lemma_total, lt, natural,
    natural_compare, ordering_of, permutes, reversed, reversed_compare, sorted, sorted_range, total_preorder,
};
use crate::laws::lemma_sorted_iff_neighbours;
use crate::perm::lemma_filter_len_permutes;
use crate::stable::{keeps_ties, lemma_keeps_ties_trans, lemma_swap_neighbours};
use crate::swap::swap;
use core::cmp::Ordering;
use vstd::laws_cmp::obeys_cmp;
use vstd::prelude::*;

verus! {

/// Sorts `array` in ascending order with odd-even transposition sort.
pub fn sort<T: Ord>(array: &mut [T])
    requires
        obeys_cmp::<T>(),
    ensures
        sorted(natural::<T>(), final(array)@),
        permutes(final(array)@, old(array)@),
        keeps_ties(natural::<T>(), final(array)@, old(array)@),
{
    proof {
        lemma_natural_comparators::<T>();
    }
    oddeven_sort_impl(array, &natural_compare::<T>, Ghost(natural::<T>()));
}

/// Sorts `array` in descending order with odd-even transposition sort.
pub fn sort_reverse<T: Ord>(array: &mut [T])
    requires
        obeys_cmp::<T>(),
    ensures
        sorted(reversed::<T>(), final(array)@),
        permutes(final(array)@, old(array)@),
        keeps_ties(reversed::<T>(), final(array)@, old(array)@),
{
    proof {
        lemma_natural_comparators::<T>();
    }
    oddeven_sort_impl(array, &reversed_compare::<T>, Ghost(reversed::<T>()));
}

/// Sorts `array` into the order that `compare` gives, with odd-even transposition sort.
pub fn sort_by<T, F: Fn(&T, &T) -> Ordering>(array: &mut [T], compare: F)
    requires
        is_total_order(compare),
    ensures
        sorted(ordering_of(compare), final(array)@),
        permutes(final(array)@, old(array)@),
        keeps_ties(ordering_of(compare), final(array)@, old(array)@),
{
    oddeven_sort_impl(array, &compare, Ghost(ordering_of(compare)))
}

/// The elements of `s` that `r` places strictly after `y`.
pub open spec fn after<T>(r: spec_fn(T, T) -> Ordering, y: T) -> spec_fn(T) -> bool {
    |z: T| r(y, z) == Ordering::Less
}

/// The number of pairs of positions of `s` whose elements are out of order under `r`.
pub open spec fn inversions<T>(r: spec_fn(T, T) -> Ordering, s: Seq<T>) -> nat
    decreases s.len(),
{
    if s.len() == 0 {
        0
    } else {
        inversions(r, s.drop_last()) + s.drop_last().filter(after(r, s.last())).len()
    }
}

/// Exchanging two neighbours that are out of order removes exactly one inversion.
proof fn lemma_swap_removes_inversion<T>(r: spec_fn(T, T) -> Ordering, s: Seq<T>, k: int)
    requires
        total_preorder(r),
        0 <= k,
        k + 1 < s.len(),
        lt(r, s[k + 1], s[k]),
    ensures
        inversions(r, s.update(k, s[k + 1]).update(k + 1, s[k])) + 1 == inversions(r, s),
    decreases s.len(),
{
    let t = s.update(k, s[k + 1]).update(k + 1, s[k]);
    let n = s.len();
    if k + 2 < n {
        let ds = s.drop_last();
        let dt = t.drop_last();
        assert(dt =~= ds.update(k, ds[k + 1]).update(k + 1, ds[k]));
        lemma_swap_removes_inversion(r, ds, k);
        crate::swap::lemma_swap_permutes(ds, k, k + 1);
        lemma_filter_len_permutes(dt, ds, after(r, s.last()));
        assert(t.last() == s.last());
        assert(inversions(r, s) == inversions(r, ds) + ds.filter(after(r, s.last())).len());
        assert(inversions(r, t) == inversions(r, dt) + dt.filter(after(r, t.last())).len());
    } else {
        let p = s.subrange(0, k);
        let a = s[k];
        let b = s[k + 1];
        assert(s.drop_last() =~= p.push(a));
        assert(t.drop_last() =~= p.push(b));
        assert(s.drop_last().drop_last() =~= p);
        assert(t.drop_last().drop_last() =~= p);
        p.lemma_filter_push(a, after(r, b));
        p.lemma_filter_push(b, after(r, a));
        assert(r(a, b) != Ordering::Less);
        assert(s.drop_last().drop_last() == p && s.drop_last().last() == a);
        assert(t.drop_last().drop_last() == p && t.drop_last().last() == b);
        assert(inversions(r, s.drop_last()) == inversions(r, p) + p.filter(after(r, a)).len());
        assert(inversions(r, t.drop_last()) == inversions(r, p) + p.filter(after(r, b)).len());
        assert(s.last() == b && t.last() == a);
        assert(inversions(r, s) == inversions(r, s.drop_last()) + s.drop_last().filter(after(r, b)).len());
        assert(inversions(r, t) == inversions(r, t.drop_last()) + t.drop_last().filter(after(r, a)).len());
    }
}

fn oddeven_sort_impl<T, F: Fn(&T, &T) -> Ordering>(
    array: &mut [T],
    compare: &F,
    Ghost(r): Ghost<spec_fn(T, T) -> Ordering>,
)
    requires
        compares_by(*compare, r),
    ensures
        sorted(r, final(array)@),
        permutes(final(array)@, old(array)@),
        keeps_ties(r, final(array)@, old(array)@),
{
    let ghost initial = array@;
    let len = array.len();
    if len <= 1 {
        proof {
            lemma_sorted_iff_neighbours(r, array@);
        }
        return;
    }
    let mut done = false;
    while !done
        invariant
            compares_by(*compare, r),
            len == array@.len() >= 2,
            permutes(array@, initial),
            keeps_ties(r, array@, initial),
            done ==> sorted(r, array@),
        decreases inversions(r, array@), if done { 0int } else { 1int },
    {
        let ghost start = array@;
        done = true;
        let odd_clean = transposition_pass(array, 1, compare, Ghost(r));
        let ghost middle = array@;
        let even_clean = transposition_pass(array, 0, compare, Ghost(r));
        proof {
            lemma_keeps_ties_trans(r, middle, start, initial);
            lemma_keeps_ties_trans(r, array@, middle, initial);
        }
        if !odd_clean || !even_clean {
            done = false;
        } else {
            proof {
                assert forall|i: int| 0 <= i < len - 1 implies le(r, #[trigger] array@[i], array@[i + 1]) by {
                    assert(i % 2 == 0 || i % 2 == 1);
                }
                lemma_sorted_iff_neighbours(r, array@);
            }
        }
    }
}

/// Compares each pair of neighbours that starts at a position of the parity of
/// `first`, exchanging those out of order. Says whether it exchanged none, in which
/// case all those pairs were in order.
fn transposition_pass<T, F: Fn(&T, &T) -> Ordering>(
    array: &mut [T],
    first: usize,
    compare: &F,
    Ghost(r): Ghost<spec_fn(T, T) -> Ordering>,
) -> (clean: bool)
    requires
        compares_by(*compare, r),
        first <= 1,
        old(array)@.len() >= 2,
    ensures
        final(array)@.len() == old(array)@.len(),
        permutes(final(array)@, old(array)@),
        keeps_ties(r, final(array)@, old(array)@),
        clean ==> final(array)@ == old(array)@,
        clean ==> forall|i: int|
            0 <= i < final(array)@.len() - 1 && i % 2 == first ==> le(r, #[trigger] final(array)@[i], final(array)@[i + 1]),
        !clean ==> inversions(r, final(array)@) < inversions(r, old(array)@),
        inversions(r, final(array)@) <= inversions(r, old(array)@),
{
    let ghost s0 = array@;
    let len = array.len();
    let mut clean = true;
    let mut i = first;
    while i < len - 1
        invariant
            compares_by(*compare, r),
            first <= 1,
            len == array@.len() >= 2,
            i % 2 == first,
            first <= i <= len,
            permutes(array@, s0),
            keeps_ties(r, array@, s0),
            clean ==> array@ == s0,
            clean ==> forall|j: int| 0 <= j < i && j < len - 1 && j % 2 == first ==> le(r, #[trigger] array@[j], array@[j + 1]),
            !clean ==> inversions(r, array@) < inversions(r, s0),
            inversions(r, array@) <= inversions(r, s0),
        decreases len - i,
    {
        let o = compare(&array[i], &array[i + 1]);
        proof {
            lemma_total(r, array@[i as int], array@[i + 1]);
        }
        match o {
            Ordering::Greater => {
                let ghost before = array@;
                proof {
                    lemma_swap_removes_inversion(r, before, i as int);
                    lemma_swap_neighbours(r, before, i as int);
                }
                swap(array, i, i + 1);
                proof {
                    lemma_keeps_ties_trans(r, array@, before, s0);
                }
                clean = false;
            },
            _ => {},
        }
        i += 2;
    }
    clean
}

} // verus!
