//! The steps of bogo sort: test whether the slice is in order, and shuffle it at
//! random when it is not. Repeating them until the test passes is left to the
//! caller, as nothing bounds how many shuffles it takes.

use crate::order::{compares_by, is_total_order, le, ordering_of, permutes, sorted};
use crate::laws::lemma_sorted_iff_neighbours;
use core::cmp::Ordering;
use rand::seq::SliceRandom;
use vstd::prelude::*;

verus! {

/// Relies on rand's `SliceRandom::shuffle` (rand 0.8): a Fisher-Yates shuffle, made
/// of exchanges of positions, so the slice keeps its elements.
#[verifier::external_body]
fn shuffle<T>(array: &mut [T])
    ensures
        final(array)@.len() == old(array)@.len(),
        permutes(final(array)@, old(array)@),
{
    let mut rng = rand::thread_rng();
    array.shuffle(&mut rng);
}

/// Whether each element of `array` is in order with the next one under `compare`.
pub fn is_sorted_by<T, F: Fn(&T, &T) -> Ordering>(array: &[T], compare: &F) -> (b: bool)
    requires
        is_total_order(*compare),
    ensures
        b == sorted(ordering_of(*compare), array@),
{
    let ghost r = ordering_of(*compare);
    proof {
        lemma_sorted_iff_neighbours(r, array@);
    }
    let len = array.len();
    if len == 0 {
        return true;
    }
    let mut i: usize = 0;
    while i + 1 < len
        invariant
            compares_by(*compare, r),
            len == array@.len() > 0,
            i < len,
            forall|k: int| 0 <= k < i ==> le(r, #[trigger] array@[k], array@[k + 1]),
        decreases len - i,
    {
        let o = compare(&array[i], &array[i + 1]);
        match o {
            Ordering::Greater => {
                return false;
            },
            _ => {},
        }
        i += 1;
    }
    true
}

/// Leaves `array` as it is when it is in order under `compare` and says so;
/// otherwise shuffles it at random and says that it was not in order.
pub fn shuffle_unless_sorted<T, F: Fn(&T, &T) -> Ordering>(array: &mut [T], compare: &F) -> (was_sorted: bool)
    requires
        is_total_order(*compare),
    ensures
        was_sorted == sorted(ordering_of(*compare), old(array)@),
        was_sorted ==> final(array)@ == old(array)@,
        permutes(final(array)@, old(array)@),
{
    if is_sorted_by(array, compare) {
        true
    } else {
        shuffle(array);
        false
    }
}

} // verus!
