//! Stability: the order among elements that a comparator deems equal.

use crate::order::{lt, total_preorder};
use core::cmp::Ordering;
use vstd::prelude::*;

verus! {

/// The elements that `r` deems equal to `x`.
pub open spec fn ties<T>(r: spec_fn(T, T) -> Ordering, x: T) -> spec_fn(T) -> bool {
    |y: T| r(y, x) == Ordering::Equal
}

/// For every class of elements that `r` deems equal, `t` holds them in the order in
/// which `s` holds them.
pub open spec fn keeps_ties<T>(r: spec_fn(T, T) -> Ordering, t: Seq<T>, s: Seq<T>) -> bool {
    forall|x: T| #[trigger] t.filter(ties(r, x)) == s.filter(ties(r, x))
}

pub proof fn lemma_keeps_ties_trans<T>(r: spec_fn(T, T) -> Ordering, u: Seq<T>, t: Seq<T>, s: Seq<T>)
    requires
        keeps_ties(r, u, t),
        keeps_ties(r, t, s),
    ensures
        keeps_ties(r, u, s),
{
    assert forall|x: T| #[trigger] u.filter(ties(r, x)) == s.filter(ties(r, x)) by {
        assert(u.filter(ties(r, x)) == t.filter(ties(r, x)));
    }
}

/// Exchanging two neighbours of which the second must come first keeps the order
/// among equal elements.
pub proof fn lemma_swap_neighbours<T>(r: spec_fn(T, T) -> Ordering, s: Seq<T>, i: int)
    requires
        total_preorder(r),
        0 <= i,
        i + 1 < s.len(),
        lt(r, s[i + 1], s[i]),
    ensures
        keeps_ties(r, s.update(i, s[i + 1]).update(i + 1, s[i]), s),
{
    let t = s.update(i, s[i + 1]).update(i + 1, s[i]);
    let a = s[i];
    let b = s[i + 1];
    let head = s.subrange(0, i);
    let tail = s.subrange(i + 2, s.len() as int);
    assert(s =~= head + seq![a, b] + tail);
    assert(t =~= head + seq![b, a] + tail);
    assert forall|x: T| #[trigger] t.filter(ties(r, x)) == s.filter(ties(r, x)) by {
        let p = ties(r, x);
        Seq::filter_distributes_over_add(head + seq![a, b], tail, p);
        Seq::filter_distributes_over_add(head, seq![a, b], p);
        Seq::filter_distributes_over_add(head + seq![b, a], tail, p);
        Seq::filter_distributes_over_add(head, seq![b, a], p);
        assert(seq![a, b] =~= seq![a].push(b));
        assert(seq![b, a] =~= seq![b].push(a));
        assert(seq![a] =~= Seq::<T>::empty().push(a));
        assert(seq![b] =~= Seq::<T>::empty().push(b));
        Seq::<T>::empty().lemma_filter_push(a, p);
        Seq::<T>::empty().lemma_filter_push(b, p);
        seq![a].lemma_filter_push(b, p);
        seq![b].lemma_filter_push(a, p);
        assert(Seq::<T>::empty().filter(p) =~= Seq::<T>::empty()) by {
            reveal(Seq::filter);
        }
        if p(a) && p(b) {
            assert(r(a, x) == Ordering::Equal && r(b, x) == Ordering::Equal);
            assert(r(x, a) == Ordering::Equal);
            assert(r(b, a) != Ordering::Greater);
            assert(r(a, b) != Ordering::Greater);
        }
        assert(seq![a, b].filter(p) =~= seq![b, a].filter(p));
    }
}

/// Keeping the order of equal elements inside a range, and the rest in place, keeps it
/// over the whole.
pub proof fn lemma_keeps_ties_range<T>(r: spec_fn(T, T) -> Ordering, t: Seq<T>, s: Seq<T>, lo: int, hi: int)
    requires
        0 <= lo <= hi <= s.len() == t.len(),
        forall|k: int| 0 <= k < lo || hi <= k < s.len() ==> #[trigger] t[k] == s[k],
        keeps_ties(r, t.subrange(lo, hi), s.subrange(lo, hi)),
    ensures
        keeps_ties(r, t, s),
{
    assert(t.subrange(0, lo) =~= s.subrange(0, lo));
    assert(t.subrange(hi, t.len() as int) =~= s.subrange(hi, s.len() as int));
    assert(t =~= t.subrange(0, lo) + t.subrange(lo, hi) + t.subrange(hi, t.len() as int));
    assert(s =~= s.subrange(0, lo) + s.subrange(lo, hi) + s.subrange(hi, s.len() as int));
    assert forall|x: T| #[trigger] t.filter(ties(r, x)) == s.filter(ties(r, x)) by {
        let p = ties(r, x);
        Seq::filter_distributes_over_add(t.subrange(0, lo) + t.subrange(lo, hi), t.subrange(hi, t.len() as int), p);
        Seq::filter_distributes_over_add(t.subrange(0, lo), t.subrange(lo, hi), p);
        Seq::filter_distributes_over_add(s.subrange(0, lo) + s.subrange(lo, hi), s.subrange(hi, s.len() as int), p);
        Seq::filter_distributes_over_add(s.subrange(0, lo), s.subrange(lo, hi), p);
        assert(t.subrange(lo, hi).filter(p) == s.subrange(lo, hi).filter(p));
    }
}

/// Elements all strictly before `y` include none that `r` deems equal to `y`.
pub proof fn lemma_no_ties<T>(r: spec_fn(T, T) -> Ordering, s: Seq<T>, x: T, y: T)
    requires
        total_preorder(r),
        r(y, x) == Ordering::Equal,
        forall|k: int| 0 <= k < s.len() ==> lt(r, #[trigger] s[k], y),
    ensures
        s.filter(ties(r, x)) =~= Seq::<T>::empty(),
    decreases s.len(),
{
    reveal(Seq::filter);
    if s.len() > 0 {
        lemma_no_ties(r, s.drop_last(), x, y);
        let z = s.last();
        assert(lt(r, s[s.len() - 1], y));
        if r(z, x) == Ordering::Equal {
            assert(r(x, y) == Ordering::Equal);
            assert(r(y, z) != Ordering::Greater);
        }
    }
}

} // verus!
