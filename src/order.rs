//! The comparator model shared by every comparison sort.

use core::cmp::Ordering;
use vstd::laws_cmp::obeys_cmp;
use vstd::std_specs::cmp::{OrdSpec, PartialEqSpec, PartialOrdSpec};
use vstd::prelude::*;

verus! {

/// `a` may stand before `b` in an ascending arrangement under the ordering `r`.
pub open spec fn le<T>(r: spec_fn(T, T) -> Ordering, a: T, b: T) -> bool {
    r(a, b) != Ordering::Greater
}

/// `a` must stand before `b` in an ascending arrangement under the ordering `r`.
pub open spec fn lt<T>(r: spec_fn(T, T) -> Ordering, a: T, b: T) -> bool {
    r(a, b) == Ordering::Less
}

/// `r` answers symmetrically and its "not greater" relation is transitive: it is a
/// total preorder (a weak order with ties).
pub open spec fn total_preorder<T>(r: spec_fn(T, T) -> Ordering) -> bool {
    &&& forall|a: T, b: T|
        #![trigger r(a, b)]
        #![trigger r(b, a)]
        (r(a, b) == Ordering::Less) == (r(b, a) == Ordering::Greater)
    &&& forall|a: T, b: T|
        #![trigger r(a, b)]
        #![trigger r(b, a)]
        r(a, b) == Ordering::Equal ==> r(b, a) == Ordering::Equal
    &&& forall|a: T, b: T, c: T|
        #![trigger r(a, b), r(b, c)]
        le(r, a, b) && le(r, b, c) ==> le(r, a, c)
}

/// `compare` can be called on any pair and answers as the total preorder `r` does.
pub open spec fn compares_by<T, F: Fn(&T, &T) -> Ordering>(
    compare: F,
    r: spec_fn(T, T) -> Ordering,
) -> bool {
    &&& forall|a: T, b: T| #[trigger] compare.requires((&a, &b))
    &&& forall|a: T, b: T, o: Ordering| #[trigger] compare.ensures((&a, &b), o) ==> o == r(a, b)
    &&& total_preorder(r)
}

/// `compare` answers as some total preorder does.
pub open spec fn is_total_order<T, F: Fn(&T, &T) -> Ordering>(compare: F) -> bool {
    exists|r: spec_fn(T, T) -> Ordering| compares_by(compare, r)
}

/// The total preorder that `compare` answers by.
pub open spec fn ordering_of<T, F: Fn(&T, &T) -> Ordering>(compare: F) -> spec_fn(T, T) -> Ordering {
    choose|r: spec_fn(T, T) -> Ordering| compares_by(compare, r)
}

/// The natural order of `T`.
pub open spec fn natural<T: Ord>() -> spec_fn(T, T) -> Ordering {
    |a: T, b: T| a.cmp_spec(&b)
}

/// The natural order of `T`, reversed.
pub open spec fn reversed<T: Ord>() -> spec_fn(T, T) -> Ordering {
    |a: T, b: T| b.cmp_spec(&a)
}

/// Every pair of positions of `s` is in order under `r`.
pub open spec fn sorted<T>(r: spec_fn(T, T) -> Ordering, s: Seq<T>) -> bool {
    forall|i: int, j: int| 0 <= i < j < s.len() ==> le(r, #[trigger] s[i], #[trigger] s[j])
}

/// Every pair of positions of `s` within `lo..hi` is in order under `r`.
pub open spec fn sorted_range<T>(r: spec_fn(T, T) -> Ordering, s: Seq<T>, lo: int, hi: int) -> bool {
    forall|i: int, j: int| lo <= i < j < hi ==> le(r, #[trigger] s[i], #[trigger] s[j])
}

/// The magnitude (absolute value) of `v`.
pub open spec fn magnitude(v: int) -> int {
    if v < 0 {
        -v
    } else {
        v
    }
}

/// No element of `s` is greater than one after it.
pub open spec fn nondecreasing(s: Seq<isize>) -> bool {
    forall|i: int, j: int| 0 <= i < j < s.len() ==> #[trigger] s[i] <= #[trigger] s[j]
}

/// No element of `s` is smaller than one after it.
pub open spec fn nonincreasing(s: Seq<isize>) -> bool {
    forall|i: int, j: int| 0 <= i < j < s.len() ==> #[trigger] s[i] >= #[trigger] s[j]
}

/// `t` holds the same elements as `s`, each as often.
pub open spec fn permutes<T>(t: Seq<T>, s: Seq<T>) -> bool {
    t.to_multiset() == s.to_multiset()
}

pub proof fn lemma_lt_le_trans<T>(r: spec_fn(T, T) -> Ordering, a: T, b: T, c: T)
    requires
        total_preorder(r),
        lt(r, a, b) || lt(r, b, c),
        le(r, a, b),
        le(r, b, c),
    ensures
        lt(r, a, c),
{
    if !lt(r, a, c) {
        assert(le(r, a, c));
        assert(r(c, a) == Ordering::Equal);
        if lt(r, a, b) {
            assert(le(r, b, a));
        } else {
            assert(le(r, c, b));
        }
    }
}

/// Any two elements are in order one way or the other.
pub proof fn lemma_total<T>(r: spec_fn(T, T) -> Ordering, a: T, b: T)
    requires
        total_preorder(r),
    ensures
        le(r, a, b) || le(r, b, a),
        !le(r, a, b) ==> lt(r, b, a),
        le(r, a, a),
{
    assert(r(a, a) != Ordering::Less);
}

/// The natural order of a type whose `cmp` obeys its laws is a total preorder, and
/// so is its reverse.
pub proof fn lemma_natural<T: Ord>()
    requires
        obeys_cmp::<T>(),
    ensures
        T::obeys_cmp_spec(),
        total_preorder(natural::<T>()),
        total_preorder(reversed::<T>()),
{
    lemma_cmp_laws::<T>();
    reveal(vstd::laws_cmp::obeys_cmp_ord);
    let r = natural::<T>();
    let q = reversed::<T>();
    assert forall|a: T, b: T, c: T|
        #![trigger q(a, b), q(b, c)]
        le(q, a, b) && le(q, b, c) implies le(q, a, c) by {
        assert(le(r, c, b) && le(r, b, a));
    }
}

/// Cloning a `T` yields an equal value.
pub open spec fn clones_exactly<T: Clone>() -> bool {
    forall|a: T, b: T| #[trigger] vstd::pervasive::strictly_cloned(a, b) ==> a == b
}

/// Compares by the natural order of `T`.
pub fn natural_compare<T: Ord>(l: &T, r: &T) -> (o: Ordering)
    requires
        T::obeys_cmp_spec(),
    ensures
        o == l.cmp_spec(r),
{
    l.cmp(r)
}

/// Compares by the natural order of `T`, reversed.
pub fn reversed_compare<T: Ord>(l: &T, r: &T) -> (o: Ordering)
    requires
        T::obeys_cmp_spec(),
    ensures
        o == r.cmp_spec(l),
{
    r.cmp(l)
}

/// The two natural comparators answer as `natural` and `reversed`.
pub proof fn lemma_natural_comparators<T: Ord>()
    requires
        obeys_cmp::<T>(),
    ensures
        compares_by(natural_compare::<T>, natural::<T>()),
        compares_by(reversed_compare::<T>, reversed::<T>()),
{
    lemma_natural::<T>();
}

/// What `obeys_cmp` gives: `cmp_spec` is a total preorder.
pub proof fn lemma_cmp_laws<T: Ord>()
    requires
        obeys_cmp::<T>(),
    ensures
        forall|a: T, b: T|
            #![trigger a.cmp_spec(&b)]
            #![trigger b.cmp_spec(&a)]
            (a.cmp_spec(&b) == Ordering::Less) == (b.cmp_spec(&a) == Ordering::Greater),
        forall|a: T, b: T|
            #![trigger a.cmp_spec(&b)]
            #![trigger b.cmp_spec(&a)]
            a.cmp_spec(&b) == Ordering::Equal ==> b.cmp_spec(&a) == Ordering::Equal,
        forall|a: T, b: T, c: T|
            #![trigger a.cmp_spec(&b), b.cmp_spec(&c)]
            a.cmp_spec(&b) != Ordering::Greater && b.cmp_spec(&c) != Ordering::Greater
                ==> a.cmp_spec(&c) != Ordering::Greater,
{
    reveal(vstd::laws_cmp::obeys_partial_cmp_spec_properties);
    reveal(vstd::laws_eq::obeys_eq_spec_properties);
    reveal(vstd::laws_cmp::obeys_cmp_ord);
    reveal(vstd::laws_cmp::obeys_cmp_partial_ord);
    assert forall|a: T, b: T|
        #![trigger a.cmp_spec(&b)]
        #![trigger b.cmp_spec(&a)]
        (a.cmp_spec(&b) == Ordering::Less) == (b.cmp_spec(&a) == Ordering::Greater) by {
        assert(a.partial_cmp_spec(&b) == Some(a.cmp_spec(&b)));
        assert(b.partial_cmp_spec(&a) == Some(b.cmp_spec(&a)));
    }
    assert forall|a: T, b: T|
        #![trigger a.cmp_spec(&b)]
        #![trigger b.cmp_spec(&a)]
        a.cmp_spec(&b) == Ordering::Equal ==> b.cmp_spec(&a) == Ordering::Equal by {
        assert(a.partial_cmp_spec(&b) == Some(a.cmp_spec(&b)));
        assert(b.partial_cmp_spec(&a) == Some(b.cmp_spec(&a)));
        if a.cmp_spec(&b) == Ordering::Equal {
            assert(a.eq_spec(&b));
            assert(b.eq_spec(&a));
        }
    }
    assert forall|a: T, b: T, c: T|
        #![trigger a.cmp_spec(&b), b.cmp_spec(&c)]
        a.cmp_spec(&b) != Ordering::Greater && b.cmp_spec(&c) != Ordering::Greater
            implies a.cmp_spec(&c) != Ordering::Greater by {
        assert(a.partial_cmp_spec(&b) == Some(a.cmp_spec(&b)));
        assert(b.partial_cmp_spec(&c) == Some(b.cmp_spec(&c)));
        assert(a.partial_cmp_spec(&c) == Some(a.cmp_spec(&c)));
        assert(c.partial_cmp_spec(&a) == Some(c.cmp_spec(&a)));
        assert(c.partial_cmp_spec(&b) == Some(c.cmp_spec(&b)));
        assert(b.partial_cmp_spec(&a) == Some(b.cmp_spec(&a)));
        if a.cmp_spec(&c) == Ordering::Greater {
            assert(c.partial_cmp_spec(&a) == Some(Ordering::Less));
            if a.cmp_spec(&b) == Ordering::Less {
                if b.cmp_spec(&c) == Ordering::Less {
                    assert(a.partial_cmp_spec(&c) == Some(Ordering::Less));
                } else {
                    assert(b.eq_spec(&c));
                    assert(c.eq_spec(&b));
                    // c < a < b with c == b
                    assert(c.partial_cmp_spec(&b) == Some(Ordering::Less));
                }
            } else {
                assert(a.eq_spec(&b));
                if b.cmp_spec(&c) == Ordering::Less {
                    // b < c < a with a == b
                    assert(b.partial_cmp_spec(&a) == Some(Ordering::Less));
                    assert(b.eq_spec(&a));
                } else {
                    assert(b.eq_spec(&c));
                    assert(a.eq_spec(&c));
                }
            }
        }
    }
}

} // verus!
