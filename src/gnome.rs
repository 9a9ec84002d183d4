//! Gnome sort: steps forward while neighbours are in order, and carries an element back
//! one exchange at a time when they are not. Stable, O(N²).

use crate::order::{
    compares_by, is_total_order, le, lemma_natural_comparators, lemma_total, lt, natural,
    natural_compare, ordering_of, permutes, reversed, reversed_compare, sorted, sorted_range,
};
use crate::stable::{keeps_ties, lemma_keeps_ties_trans, lemma_swap_neighbours};
use crate::swap::swap;
use core::cmp::Ordering;
use vstd::laws_cmp::obeys_cmp;
use vstd::prelude::*;

verus! {

/// Sorts `array` in ascending order with gnome sort.
pub fn sort<T: Ord>(array: &mut [T])
    requires
        obeys_cmp::<T>(),
    ensures
        sorted(natural::<T>(), final(array)@),
        permutes(final(array)@, old(array)@),
        keeps_ties(natural::<T>(), final(array)@, old(array)@),
{
    proof {
        lemma_natural_comparators::<T>();
    }
    gnome_sort_impl(array, &natural_compare::<T>, Ghost(natural::<T>()));
}

/// Sorts `array` in descending order with gnome sort.
pub fn sort_reverse<T: Ord>(array: &mut [T])
    requires
        obeys_cmp::<T>(),
    ensures
        sorted(reversed::<T>(), final(array)@),
        permutes(final(array)@, old(array)@),
        keeps_ties(reversed::<T>(), final(array)@, old(array)@),
{
    proof {
        lemma_natural_comparators::<T>();
    }
    gnome_sort_impl(array, &reversed_compare::<T>, Ghost(reversed::<T>()));
}

/// Sorts `array` into the order that `compare` gives, with gnome sort.
pub fn sort_by<T, F: Fn(&T, &T) -> Ordering>(array: &mut [T], compare: F)
    requires
        is_total_order(compare),
    ensures
        sorted(ordering_of(compare), final(array)@),
        permutes(final(array)@, old(array)@),
        keeps_ties(ordering_of(compare), final(array)@, old(array)@),
{
    gnome_sort_impl(array, &compare, Ghost(ordering_of(compare)))
}

fn gnome_sort_impl<T, F: Fn(&T, &T) -> Ordering>(
    array: &mut [T],
    compare: &F,
    Ghost(r): Ghost<spec_fn(T, T) -> Ordering>,
)
    requires
        compares_by(*compare, r),
    ensures
        sorted(r, final(array)@),
        permutes(final(array)@, old(array)@),
        keeps_ties(r, final(array)@, old(array)@),
{
    let ghost initial = array@;
    let len = array.len();
    let mut pos: usize = 0;
    // `done` counts the positions already taken in; `sinking` tells whether the
    // element at `pos` is still on its way down among them.
    let ghost mut done: int = 0;
    let ghost mut sinking: bool = false;
    while pos < len
        invariant
            compares_by(*compare, r),
            len == array@.len(),
            permutes(array@, initial),
            keeps_ties(r, array@, initial),
            0 <= done <= len,
            !sinking ==> pos <= done && sorted_range(r, array@, 0, done),
            sinking ==> pos < done,
            sinking ==> sorted_range(r, array@, 0, pos as int),
            sinking ==> sorted_range(r, array@, pos + 1, done),
            sinking ==> forall|p: int, q: int|
                0 <= p < pos < q < done ==> le(r, #[trigger] array@[p], #[trigger] array@[q]),
            sinking ==> forall|q: int| pos < q < done ==> lt(r, array@[pos as int], #[trigger] array@[q]),
        decreases len - done, if sinking { 1int } else { 0int }, if sinking { pos as int } else { done - pos },
    {
        let advance = if pos == 0 {
            true
        } else {
            let o = compare(&array[pos], &array[pos - 1]);
            proof {
                lemma_total(r, array@[pos as int], array@[pos - 1]);
            }
            match o {
                Ordering::Less => false,
                _ => true,
            }
        };
        if advance {
            proof {
                if sinking || pos == done {
                    assert forall|i: int, j: int| 0 <= i < j < done + (if pos == done && !sinking { 1int } else { 0int }) implies le(
                        r,
                        #[trigger] array@[i],
                        #[trigger] array@[j],
                    ) by {
                        if pos > 0 && j == pos && i < pos - 1 {
                            assert(le(r, array@[i], array@[pos - 1]));
                        }
                        if i == pos && j > pos {
                            assert(lt(r, array@[pos as int], array@[j]));
                        }
                        if i < pos && j > pos && pos > 0 {
                            assert(le(r, array@[i], array@[j]));
                        }
                    }
                    if !sinking {
                        done = done + 1;
                    }
                }
                sinking = false;
            }
            pos += 1;
        } else {
            proof {
                if !sinking {
                    if pos < done {
                        assert(le(r, array@[pos - 1], array@[pos as int]));
                    }
                    done = pos + 1;
                }
                sinking = true;
            }
            proof {
                lemma_swap_neighbours(r, array@, pos - 1);
            }
            let ghost before_swap = array@;
            swap(array, pos - 1, pos);
            proof {
                lemma_keeps_ties_trans(r, array@, before_swap, initial);
            }
            pos -= 1;
        }
    }
}

} // verus!
