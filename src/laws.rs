//! General facts about what the sorts guarantee, stated over their contracts.

use crate::counting::{lemma_violation, violation};
use crate::error::SortError;
use crate::order::{
    le, lemma_natural, lemma_total, magnitude, natural, permutes, reversed, sorted, total_preorder,
};
use crate::stable::{keeps_ties, ties};
use core::cmp::Ordering;
use vstd::laws_cmp::obeys_cmp;
use vstd::prelude::*;

verus! {

/// A sequence is sorted exactly when each element is in order with the next one.
pub proof fn lemma_sorted_iff_neighbours<T>(r: spec_fn(T, T) -> Ordering, s: Seq<T>)
    requires
        total_preorder(r),
    ensures
        sorted(r, s) <==> forall|i: int| 0 <= i < s.len() - 1 ==> le(r, #[trigger] s[i], s[i + 1]),
{
    if forall|i: int| 0 <= i < s.len() - 1 ==> le(r, #[trigger] s[i], s[i + 1]) {
        assert forall|i: int, j: int| 0 <= i < j < s.len() implies le(r, #[trigger] s[i], #[trigger] s[j]) by {
            lemma_neighbours_reach(r, s, i, j);
        }
    }
}

proof fn lemma_neighbours_reach<T>(r: spec_fn(T, T) -> Ordering, s: Seq<T>, i: int, j: int)
    requires
        total_preorder(r),
        forall|k: int| 0 <= k < s.len() - 1 ==> le(r, #[trigger] s[k], s[k + 1]),
        0 <= i < j < s.len(),
    ensures
        le(r, s[i], s[j]),
    decreases j - i,
{
    if j > i + 1 {
        lemma_neighbours_reach(r, s, i, j - 1);
        assert(le(r, s[j - 1], s[j]));
    }
}

/// Descending order is ascending order read backwards.
pub proof fn lemma_descending_is_reversed_ascending<T: Ord>(s: Seq<T>)
    requires
        obeys_cmp::<T>(),
    ensures
        sorted(reversed::<T>(), s) <==> sorted(natural::<T>(), s.reverse()),
{
    lemma_natural::<T>();
    let n = s.len();
    if sorted(reversed::<T>(), s) {
        assert forall|i: int, j: int| 0 <= i < j < n implies le(
            natural::<T>(),
            #[trigger] s.reverse()[i],
            #[trigger] s.reverse()[j],
        ) by {
            assert(le(reversed::<T>(), s[n - 1 - j], s[n - 1 - i]));
        }
    }
    if sorted(natural::<T>(), s.reverse()) {
        assert forall|i: int, j: int| 0 <= i < j < n implies le(reversed::<T>(), #[trigger] s[i], #[trigger] s[j]) by {
            assert(s.reverse()[n - 1 - j] == s[j]);
            assert(s.reverse()[n - 1 - i] == s[i]);
            assert(le(natural::<T>(), s.reverse()[n - 1 - j], s.reverse()[n - 1 - i]));
        }
    }
}

/// Elements that `r` deems equal are identical.
pub open spec fn ties_identical<T>(r: spec_fn(T, T) -> Ordering) -> bool {
    forall|a: T, b: T| #[trigger] r(a, b) == Ordering::Equal ==> a == b
}

/// Sorting a sorted sequence again changes nothing: a sorted permutation of a sorted
/// sequence is that sequence, when the sort keeps the order of equal elements or
/// when equal elements are identical.
pub proof fn lemma_sorted_permutation_unique<T>(r: spec_fn(T, T) -> Ordering, s: Seq<T>, t: Seq<T>)
    requires
        total_preorder(r),
        sorted(r, s),
        sorted(r, t),
        permutes(t, s),
        keeps_ties(r, t, s) || ties_identical(r),
    ensures
        t == s,
    decreases s.len(),
{
    broadcast use vstd::seq_lib::group_to_multiset_ensures;

    assert(t.len() == s.len()) by {
        assert(t.to_multiset().len() == s.to_multiset().len());
    }
    if s.len() > 0 {
        let x = s[0];
        let y = t[0];
        assert(s.contains(y)) by {
            assert(t.contains(y));
            assert(t.to_multiset().count(y) > 0);
        }
        assert(t.contains(x)) by {
            assert(s.to_multiset().count(x) > 0);
        }
        let ky = choose|k: int| 0 <= k < s.len() && s[k] == y;
        let kx = choose|k: int| 0 <= k < t.len() && t[k] == x;
        lemma_total(r, x, x);
        lemma_total(r, y, y);
        if ky > 0 {
            assert(le(r, s[0], s[ky]));
        }
        if kx > 0 {
            assert(le(r, t[0], t[kx]));
        }
        assert(r(y, x) == Ordering::Equal);
        let s1 = s.drop_first();
        let t1 = t.drop_first();
        assert(s =~= seq![x] + s1);
        assert(t =~= seq![y] + t1);
        if ties_identical(r) {
            assert(y == x);
        } else {
            let p = ties(r, x);
            Seq::filter_distributes_over_add(seq![x], s1, p);
            Seq::filter_distributes_over_add(seq![y], t1, p);
            assert(seq![x] =~= Seq::<T>::empty().push(x));
            assert(seq![y] =~= Seq::<T>::empty().push(y));
            Seq::<T>::empty().lemma_filter_push(x, p);
            Seq::<T>::empty().lemma_filter_push(y, p);
            assert(Seq::<T>::empty().filter(p) =~= Seq::<T>::empty()) by {
                reveal(Seq::filter);
            }
            assert(t.filter(p) == s.filter(p));
            assert(t.filter(p)[0] == y);
            assert(s.filter(p)[0] == x);
        }
        assert(y == x);
        assert(s1.to_multiset() =~= s.to_multiset().remove(x)) by {
            assert(s1 =~= s.remove(0));
        }
        assert(t1.to_multiset() =~= t.to_multiset().remove(x)) by {
            assert(t1 =~= t.remove(0));
        }
        assert(sorted(r, s1));
        assert(sorted(r, t1));
        if keeps_ties(r, t, s) {
            assert forall|z: T| #[trigger] t1.filter(ties(r, z)) == s1.filter(ties(r, z)) by {
                let p = ties(r, z);
                Seq::filter_distributes_over_add(seq![x], s1, p);
                Seq::filter_distributes_over_add(seq![x], t1, p);
                assert(seq![x] =~= Seq::<T>::empty().push(x));
                Seq::<T>::empty().lemma_filter_push(x, p);
                assert(Seq::<T>::empty().filter(p) =~= Seq::<T>::empty()) by {
                    reveal(Seq::filter);
                }
                assert(t.filter(p) == s.filter(p));
                if p(x) {
                    assert(t1.filter(p) =~= t.filter(p).drop_first());
                    assert(s1.filter(p) =~= s.filter(p).drop_first());
                } else {
                    assert(t1.filter(p) =~= t.filter(p));
                    assert(s1.filter(p) =~= s.filter(p));
                }
            }
        }
        lemma_sorted_permutation_unique(r, s1, t1);
    } else {
        assert(t =~= s);
    }
}

/// An empty or one-element sequence has no other arrangement.
pub proof fn lemma_short_unchanged<T>(s: Seq<T>, t: Seq<T>)
    requires
        s.len() <= 1,
        permutes(t, s),
    ensures
        t == s,
{
    broadcast use vstd::seq_lib::group_to_multiset_ensures;

    assert(t.len() == s.len()) by {
        assert(t.to_multiset().len() == s.to_multiset().len());
    }
    if s.len() == 1 {
        assert(t.contains(t[0]));
        assert(s.to_multiset().count(t[0]) > 0);
        assert(s.contains(t[0]));
        assert(t =~= s);
    } else {
        assert(t =~= s);
    }
}

/// Counting sort accepts a bound equal to the largest magnitude and refuses, as out
/// of range, any bound below it.
pub proof fn lemma_counting_bound(s: Seq<isize>, m: int, b: int)
    requires
        forall|j: int| 0 <= j < s.len() ==> magnitude(#[trigger] s[j] as int) <= m,
        exists|j: int| 0 <= j < s.len() && magnitude(#[trigger] s[j] as int) == m,
    ensures
        violation(s, m, true) is None,
        b < m ==> violation(s, b, true) == Some(SortError::OutOfRange),
{
    lemma_violation(s, m, true);
    lemma_violation(s, b, true);
}

} // verus!
