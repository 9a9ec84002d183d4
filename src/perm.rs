//! Permutations confined to a range of positions.

use crate::order::permutes;
use crate::swap::lemma_swap_permutes;
use vstd::multiset::Multiset;
use vstd::prelude::*;

verus! {

/// `t` equals `s` outside `lo..hi`, and inside it holds the same elements, each as often.
pub open spec fn permutes_range<T>(t: Seq<T>, s: Seq<T>, lo: int, hi: int) -> bool {
    &&& 0 <= lo <= hi <= s.len()
    &&& t.len() == s.len()
    &&& forall|k: int| 0 <= k < lo || hi <= k < s.len() ==> #[trigger] t[k] == s[k]
    &&& permutes(t.subrange(lo, hi), s.subrange(lo, hi))
}

pub proof fn lemma_permutes_range_refl<T>(s: Seq<T>, lo: int, hi: int)
    requires
        0 <= lo <= hi <= s.len(),
    ensures
        permutes_range(s, s, lo, hi),
{
}

pub proof fn lemma_permutes_range_trans<T>(u: Seq<T>, t: Seq<T>, s: Seq<T>, lo: int, hi: int)
    requires
        permutes_range(u, t, lo, hi),
        permutes_range(t, s, lo, hi),
    ensures
        permutes_range(u, s, lo, hi),
{
}

/// A permutation of a range is one of any wider range.
pub proof fn lemma_permutes_range_widen<T>(t: Seq<T>, s: Seq<T>, lo: int, hi: int, lo2: int, hi2: int)
    requires
        permutes_range(t, s, lo, hi),
        0 <= lo2 <= lo,
        hi <= hi2 <= s.len(),
    ensures
        permutes_range(t, s, lo2, hi2),
{
    let ts = t.subrange(lo2, hi2);
    let ss = s.subrange(lo2, hi2);
    assert(ts =~= t.subrange(lo2, lo) + t.subrange(lo, hi) + t.subrange(hi, hi2));
    assert(ss =~= s.subrange(lo2, lo) + s.subrange(lo, hi) + s.subrange(hi, hi2));
    assert(t.subrange(lo2, lo) =~= s.subrange(lo2, lo));
    assert(t.subrange(hi, hi2) =~= s.subrange(hi, hi2));
    vstd::seq_lib::lemma_multiset_commutative(t.subrange(lo2, lo), t.subrange(lo, hi));
    vstd::seq_lib::lemma_multiset_commutative(s.subrange(lo2, lo), s.subrange(lo, hi));
    vstd::seq_lib::lemma_multiset_commutative(
        t.subrange(lo2, lo) + t.subrange(lo, hi),
        t.subrange(hi, hi2),
    );
    vstd::seq_lib::lemma_multiset_commutative(
        s.subrange(lo2, lo) + s.subrange(lo, hi),
        s.subrange(hi, hi2),
    );
}

/// A permutation of a range is a permutation of the whole.
pub proof fn lemma_permutes_range_whole<T>(t: Seq<T>, s: Seq<T>, lo: int, hi: int)
    requires
        permutes_range(t, s, lo, hi),
    ensures
        permutes(t, s),
{
    lemma_permutes_range_widen(t, s, lo, hi, 0, s.len() as int);
    assert(t.subrange(0, s.len() as int) =~= t);
    assert(s.subrange(0, s.len() as int) =~= s);
}

/// Swapping two positions inside a range permutes that range.
pub proof fn lemma_swap_range<T>(s: Seq<T>, i: int, j: int, lo: int, hi: int)
    requires
        0 <= lo <= i < hi <= s.len(),
        lo <= j < hi,
    ensures
        permutes_range(s.update(i, s[j]).update(j, s[i]), s, lo, hi),
{
    let t = s.update(i, s[j]).update(j, s[i]);
    let ss = s.subrange(lo, hi);
    lemma_swap_permutes(ss, i - lo, j - lo);
    assert(t.subrange(lo, hi) =~= ss.update(i - lo, ss[j - lo]).update(j - lo, ss[i - lo]));
}

/// What holds of every element of a range holds of them after they are permuted.
pub proof fn lemma_permutes_range_all<T>(
    t: Seq<T>,
    s: Seq<T>,
    lo: int,
    hi: int,
    p: spec_fn(T) -> bool,
)
    requires
        permutes_range(t, s, lo, hi),
        forall|k: int| lo <= k < hi ==> #[trigger] p(s[k]),
    ensures
        forall|k: int| lo <= k < hi ==> #[trigger] p(t[k]),
{
    broadcast use vstd::seq_lib::group_to_multiset_ensures;

    let ts = t.subrange(lo, hi);
    let ss = s.subrange(lo, hi);
    assert forall|k: int| lo <= k < hi implies #[trigger] p(t[k]) by {
        assert(ts[k - lo] == t[k]);
        assert(ts.contains(t[k]));
        assert(ts.to_multiset().count(t[k]) > 0);
        assert(ss.to_multiset().count(t[k]) > 0);
        assert(ss.contains(t[k]));
        let m = choose|m: int| 0 <= m < ss.len() && ss[m] == t[k];
        assert(s[m + lo] == ss[m]);
    }
}

/// What holds of every element holds of them after they are permuted.
pub proof fn lemma_permutes_all<T>(t: Seq<T>, s: Seq<T>, p: spec_fn(T) -> bool)
    requires
        permutes(t, s),
        forall|k: int| 0 <= k < s.len() ==> #[trigger] p(s[k]),
    ensures
        t.len() == s.len(),
        forall|k: int| 0 <= k < t.len() ==> #[trigger] p(t[k]),
{
    t.to_multiset_ensures();
    s.to_multiset_ensures();
    assert(t.subrange(0, t.len() as int) =~= t);
    assert(s.subrange(0, s.len() as int) =~= s);
    lemma_permutes_range_all(t, s, 0, s.len() as int, p);
}

/// Filtering a sequence and filtering its multiset keep as many elements.
pub proof fn lemma_filter_len_multiset<T>(s: Seq<T>, p: spec_fn(T) -> bool)
    ensures
        s.filter(p).len() == s.to_multiset().filter(p).len(),
    decreases s.len(),
{
    broadcast use vstd::seq_lib::group_to_multiset_ensures;
    broadcast use vstd::multiset::group_multiset_axioms;

    if s.len() == 0 {
        reveal(Seq::filter);
        assert(s.to_multiset().filter(p) =~= Multiset::empty());
    } else {
        let d = s.drop_last();
        let e = s.last();
        lemma_filter_len_multiset(d, p);
        assert(s =~= d.push(e));
        d.lemma_filter_push(e, p);
        if p(e) {
            assert(s.to_multiset().filter(p) =~= d.to_multiset().filter(p).insert(e));
        } else {
            assert(s.to_multiset().filter(p) =~= d.to_multiset().filter(p));
        }
    }
}

/// Every element of a sequence that satisfies `p` survives filtering by `p`.
pub proof fn lemma_filter_all<T>(s: Seq<T>, p: spec_fn(T) -> bool)
    requires
        forall|k: int| 0 <= k < s.len() ==> #[trigger] p(s[k]),
    ensures
        s.filter(p) == s,
    decreases s.len(),
{
    reveal(Seq::filter);
    if s.len() > 0 {
        lemma_filter_all(s.drop_last(), p);
        assert(s.drop_last().push(s.last()) =~= s);
    }
}

/// No element of a sequence satisfies `p`: filtering by `p` leaves nothing.
pub proof fn lemma_filter_none<T>(s: Seq<T>, p: spec_fn(T) -> bool)
    requires
        forall|k: int| 0 <= k < s.len() ==> !#[trigger] p(s[k]),
    ensures
        s.filter(p) =~= Seq::<T>::empty(),
    decreases s.len(),
{
    reveal(Seq::filter);
    if s.len() > 0 {
        lemma_filter_none(s.drop_last(), p);
    }
}

/// Permuting a sequence keeps how many of its elements satisfy `p`.
pub proof fn lemma_filter_len_permutes<T>(t: Seq<T>, s: Seq<T>, p: spec_fn(T) -> bool)
    requires
        permutes(t, s),
    ensures
        t.filter(p).len() == s.filter(p).len(),
{
    lemma_filter_len_multiset(t, p);
    lemma_filter_len_multiset(s, p);
}

} // verus!
