//! Stalin sort: a single pass that keeps each element not smaller than the last one
//! kept and drops the others. Lossy: the result is an ordered subsequence of the
//! input, not a permutation of it. O(N).

use crate::order::{
    clones_exactly, compares_by, is_total_order, le, lemma_natural_comparators, lemma_total,
    natural, natural_compare, ordering_of, reversed, reversed_compare, sorted, total_preorder,
};
use core::cmp::Ordering;
use vstd::laws_cmp::obeys_cmp;
use vstd::prelude::*;

verus! {

/// What a left-to-right scan of `s` keeps: each element not smaller under `r` than
/// the last element kept before it (the first element is always kept).
pub open spec fn survivors<T>(r: spec_fn(T, T) -> Ordering, s: Seq<T>) -> Seq<T>
    decreases s.len(),
{
    if s.len() == 0 {
        s
    } else {
        let kept = survivors(r, s.drop_last());
        if kept.len() == 0 || le(r, kept.last(), s.last()) {
            kept.push(s.last())
        } else {
            kept
        }
    }
}

/// `idx` lists, in increasing order, positions of `s` that hold the elements of `t`.
pub open spec fn picks<T>(t: Seq<T>, s: Seq<T>, idx: Seq<int>) -> bool {
    &&& idx.len() == t.len()
    &&& forall|k: int| 0 <= k < t.len() ==> 0 <= #[trigger] idx[k] < s.len() && s[idx[k]] == t[k]
    &&& forall|k: int, l: int| 0 <= k < l < t.len() ==> #[trigger] idx[k] < #[trigger] idx[l]
}

/// `t` is `s` with some elements left out, the others in their order.
pub open spec fn is_subsequence<T>(t: Seq<T>, s: Seq<T>) -> bool {
    exists|idx: Seq<int>| #[trigger] picks(t, s, idx)
}

/// What a scan keeps is ordered, keeps the relative order of the input, is no
/// longer than it, and keeps the first element of a non-empty input.
pub proof fn lemma_survivors<T>(r: spec_fn(T, T) -> Ordering, s: Seq<T>)
    requires
        total_preorder(r),
    ensures
        sorted(r, survivors(r, s)),
        is_subsequence(survivors(r, s), s),
        survivors(r, s).len() <= s.len(),
        s.len() > 0 ==> survivors(r, s).len() > 0 && survivors(r, s)[0] == s[0],
    decreases s.len(),
{
    if s.len() > 0 {
        let d = s.drop_last();
        let kept = survivors(r, d);
        lemma_survivors(r, d);
        let idx = choose|idx: Seq<int>| picks(kept, d, idx);
        if kept.len() == 0 || le(r, kept.last(), s.last()) {
            let out = kept.push(s.last());
            let idx2 = idx.push(s.len() - 1);
            assert forall|k: int| 0 <= k < out.len() implies 0 <= #[trigger] idx2[k] < s.len()
                && s[idx2[k]] == out[k] by {
                if k < kept.len() {
                    assert(d[idx[k]] == s[idx[k]]);
                }
            }
            assert forall|k: int, l: int| 0 <= k < l < out.len() implies #[trigger] idx2[k]
                < #[trigger] idx2[l] by {
                if l < kept.len() {
                    assert(idx2[k] == idx[k] && idx2[l] == idx[l]);
                }
            }
            assert forall|i: int, j: int| 0 <= i < j < out.len() implies le(
                r,
                #[trigger] out[i],
                #[trigger] out[j],
            ) by {
                if j == kept.len() {
                    if i < kept.len() - 1 {
                        assert(le(r, kept[i], kept[kept.len() - 1]));
                    } else {
                        assert(out[i] == kept.last());
                    }
                }
            }
            assert(picks(out, s, idx2));
            if d.len() == 0 {
                assert(kept.len() == 0);
            }
        } else {
            assert forall|k: int| 0 <= k < kept.len() implies 0 <= #[trigger] idx[k] < s.len()
                && s[idx[k]] == kept[k] by {
                assert(d[idx[k]] == s[idx[k]]);
            }
            assert(picks(kept, s, idx));
        }
    } else {
        assert(picks(survivors(r, s), s, Seq::<int>::empty()));
    }
}

/// Keeps the elements of `array` that a scan in ascending order accepts.
pub fn sort<T: Ord + Clone>(array: &mut Vec<T>)
    requires
        obeys_cmp::<T>(),
        clones_exactly::<T>(),
    ensures
        final(array)@ == survivors(natural::<T>(), old(array)@),
        sorted(natural::<T>(), final(array)@),
        is_subsequence(final(array)@, old(array)@),
        final(array)@.len() <= old(array)@.len(),
{
    proof {
        lemma_natural_comparators::<T>();
    }
    stalin_sort_impl(array, &natural_compare::<T>, Ghost(natural::<T>()));
}

/// Keeps the elements of `array` that a scan in descending order accepts.
pub fn sort_reverse<T: Ord + Clone>(array: &mut Vec<T>)
    requires
        obeys_cmp::<T>(),
        clones_exactly::<T>(),
    ensures
        final(array)@ == survivors(reversed::<T>(), old(array)@),
        sorted(reversed::<T>(), final(array)@),
        is_subsequence(final(array)@, old(array)@),
        final(array)@.len() <= old(array)@.len(),
{
    proof {
        lemma_natural_comparators::<T>();
    }
    stalin_sort_impl(array, &reversed_compare::<T>, Ghost(reversed::<T>()));
}

/// Keeps the elements of `array` that a scan in the order of `compare` accepts.
pub fn sort_by<T: Clone, F: Fn(&T, &T) -> Ordering>(array: &mut Vec<T>, compare: F)
    requires
        is_total_order(compare),
        clones_exactly::<T>(),
    ensures
        final(array)@ == survivors(ordering_of(compare), old(array)@),
        sorted(ordering_of(compare), final(array)@),
        is_subsequence(final(array)@, old(array)@),
        final(array)@.len() <= old(array)@.len(),
{
    stalin_sort_impl(array, &compare, Ghost(ordering_of(compare)))
}

fn stalin_sort_impl<T: Clone, F: Fn(&T, &T) -> Ordering>(
    array: &mut Vec<T>,
    compare: &F,
    Ghost(r): Ghost<spec_fn(T, T) -> Ordering>,
)
    requires
        compares_by(*compare, r),
        clones_exactly::<T>(),
    ensures
        final(array)@ == survivors(r, old(array)@),
        sorted(r, final(array)@),
        is_subsequence(final(array)@, old(array)@),
        final(array)@.len() <= old(array)@.len(),
{
    let ghost s = array@;
    proof {
        lemma_survivors(r, s);
    }
    let len = array.len();
    if len == 0 {
        return;
    }
    let mut kept: Vec<T> = Vec::new();
    let mut last: usize = 0;
    let mut i: usize = 0;
    proof {
        assert(s.subrange(0, 0) =~= Seq::<T>::empty());
    }
    while i < len
        invariant
            compares_by(*compare, r),
            clones_exactly::<T>(),
            s == array@,
            len == s.len(),
            i <= len,
            last < len,
            kept@ == survivors(r, s.subrange(0, i as int)),
            i > 0 ==> last < i && kept@.len() > 0 && kept@.last() == s[last as int],
            i == 0 ==> last == 0,
        decreases len - i,
    {
        let o = compare(&array[last], &array[i]);
        proof {
            assert(s.subrange(0, i + 1).drop_last() =~= s.subrange(0, i as int));
            lemma_total(r, s[i as int], s[i as int]);
        }
        match o {
            Ordering::Greater => {},
            _ => {
                let e = array[i].clone();
                proof {
                    assert(vstd::pervasive::strictly_cloned(s[i as int], e));
                }
                kept.push(e);
                last = i;
            },
        }
        i += 1;
    }
    proof {
        assert(s.subrange(0, len as int) =~= s);
    }
    *array = kept;
}

} // verus!
