//! Exchanging two positions of a slice without copying its elements.

use crate::order::permutes;
use vstd::prelude::*;

verus! {

/// Swapping two positions of a sequence keeps its elements.
pub proof fn lemma_swap_permutes<T>(s: Seq<T>, i: int, j: int)
    requires
        0 <= i < s.len(),
        0 <= j < s.len(),
    ensures
        permutes(s.update(i, s[j]).update(j, s[i]), s),
{
    broadcast use vstd::seq_lib::group_to_multiset_ensures;

    lemma_update_multiset(s, i, s[j]);
    lemma_update_multiset(s.update(i, s[j]), j, s[i]);
    assert(s.to_multiset().remove(s[i]).insert(s[j]).remove(s[j]).insert(s[i]) =~= s.to_multiset());
}

/// Writing `v` at `i` trades one copy of the old element for one of `v`.
pub proof fn lemma_update_multiset<T>(s: Seq<T>, i: int, v: T)
    requires
        0 <= i < s.len(),
    ensures
        s.update(i, v).to_multiset() == s.to_multiset().remove(s[i]).insert(v),
        s.to_multiset().count(s[i]) > 0,
{
    broadcast use vstd::seq_lib::group_to_multiset_ensures;

    let left = s.subrange(0, i);
    let right = s.subrange(i + 1, s.len() as int);
    assert(s.update(i, v) =~= left.push(v) + right);
    assert(s =~= left.push(s[i]) + right);
    vstd::seq_lib::lemma_multiset_commutative(left.push(v), right);
    vstd::seq_lib::lemma_multiset_commutative(left.push(s[i]), right);
    assert(s.to_multiset() =~= left.to_multiset().insert(s[i]).add(right.to_multiset()));
    assert(s.update(i, v).to_multiset() =~= s.to_multiset().remove(s[i]).insert(v));
    assert(s.contains(s[i]));
}

/// Exchanges the elements at `i` and `j`; does nothing when they are equal.
pub fn swap<T>(x: &mut [T], i: usize, j: usize)
    requires
        i < old(x)@.len(),
        j < old(x)@.len(),
    ensures
        final(x)@ == old(x)@.update(i as int, old(x)@[j as int]).update(j as int, old(x)@[i as int]),
        permutes(final(x)@, old(x)@),
{
    proof {
        lemma_swap_permutes(x@, i as int, j as int);
    }
    if i == j {
        proof {
            assert(x@.update(i as int, x@[j as int]).update(j as int, x@[i as int]) =~= x@);
        }
        return;
    }
    let (lo, hi) = if i < j {
        (i, j)
    } else {
        (j, i)
    };
    let ghost s = x@;
    let (init, tail) = x.split_at_mut(hi);
    let (_, mid) = init.split_at_mut(lo);
    let a = mid.first_mut().unwrap();
    let b = tail.first_mut().unwrap();
    core::mem::swap(a, b);
    proof {
        assert(x@ =~= s.update(i as int, s[j as int]).update(j as int, s[i as int]));
    }
}

} // verus!
