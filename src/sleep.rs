//! The computing edges of sleep sort. Waiting out one delay per element, and
//! collecting the elements in the order in which their delays end, is left to the
//! caller; that order is ascending only with high probability.

use crate::error::SortError;
use vstd::prelude::*;

verus! {

/// The delay of each element: its value. Fails when an element is negative, as no
/// delay stands for it.
pub fn delays(array: &[isize]) -> (res: Result<Vec<u64>, SortError>)
    ensures
        res matches Ok(d) ==> d@.len() == array@.len() && forall|i: int|
            0 <= i < array@.len() ==> #[trigger] d@[i] as int == array@[i] as int,
        res is Ok <==> forall|i: int| 0 <= i < array@.len() ==> #[trigger] array@[i] >= 0,
        res is Err ==> res == Err::<Vec<u64>, SortError>(SortError::Negative),
{
    let mut out: Vec<u64> = Vec::with_capacity(array.len());
    let mut i: usize = 0;
    while i < array.len()
        invariant
            i <= array@.len(),
            out@.len() == i,
            forall|k: int| 0 <= k < i ==> #[trigger] array@[k] >= 0,
            forall|k: int| 0 <= k < i ==> #[trigger] out@[k] as int == array@[k] as int,
        decreases array@.len() - i,
    {
        let e = array[i];
        if e < 0 {
            return Err(SortError::Negative);
        }
        out.push(e as u64);
        i += 1;
    }
    Ok(out)
}

/// Writes the elements in the order in which they finished into `array`: as they
/// came when `ascending`, in reverse otherwise.
pub fn place(array: &mut [isize], finished: &Vec<isize>, ascending: bool)
    requires
        finished@.len() == old(array)@.len(),
    ensures
        ascending ==> final(array)@ == finished@,
        !ascending ==> final(array)@ == finished@.reverse(),
{
    let len = array.len();
    let mut i: usize = 0;
    while i < len
        invariant
            len == array@.len() == finished@.len(),
            i <= len,
            forall|k: int|
                0 <= k < i ==> #[trigger] array@[k] == if ascending {
                    finished@[k]
                } else {
                    finished@[len - 1 - k]
                },
        decreases len - i,
    {
        if ascending {
            array[i] = finished[i];
        } else {
            array[i] = finished[len - 1 - i];
        }
        i += 1;
    }
    proof {
        if ascending {
            assert(array@ =~= finished@);
        } else {
            assert(array@ =~= finished@.reverse());
        }
    }
}

} // verus!
