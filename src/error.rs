//! Why a sort that checks its input can refuse it.

use vstd::prelude::*;

verus! {

/// The reasons for which a sort leaves its input untouched and fails.
#[derive(Debug, Clone, Copy, PartialEq, Eq, Structural)]
pub enum SortError {
    /// An element's magnitude exceeds the declared bound.
    OutOfRange,
    /// A negative element was met while negative elements are not accepted.
    Negative,
    /// The length of the input is not a power of two.
    NotPowerOfTwo,
}

} // verus!
