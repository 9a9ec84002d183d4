//! Sorting algorithms over slices.
//!
//! The comparison sorts share one shape: `sort` orders a slice by the natural order
//! of its elements, `sort_reverse` by that order reversed, and `sort_by` by a
//! caller's comparator, which must behave as a total preorder
//! ([`order::is_total_order`]). Each leaves the slice a permutation of what it held,
//! sorted under the order used ([`order::sorted`], [`order::permutes`]); the stable
//! ones also keep the order among elements that compare equal
//! ([`stable::keeps_ties`]).
//!
//! Bitonic sort takes only lengths that are powers of two. The distribution sorts
//! (counting, radix, bead) work on `isize` values. A sort that refuses its input
//! fails with an [`error::SortError`] and leaves the slice untouched. Stalin sort is
//! lossy: it keeps an ordered subsequence. Bogo sort and sleep sort are given as
//! their steps, whose driving loops belong to the caller.
//!
//! [`laws`] states what the contracts imply together: sortedness checked on
//! neighbours, descending as ascending reversed, sorting twice, short inputs, and the
//! magnitude bound of counting sort.

// Shared model and building blocks.
pub mod error;
pub mod laws;
pub mod order;
pub mod perm;
pub mod stable;
pub mod swap;

// Comparison sorts.
pub mod binary_insertion;
pub mod bitonic;
pub mod bubble;
pub mod cocktail_shaker;
pub mod comb;
pub mod cycle;
pub mod double_selection;
pub mod gnome;
pub mod heap;
pub mod insertion;
pub mod intro;
pub mod merge;
pub mod oddeven;
pub mod pancake;
pub mod quick;
pub mod selection;
pub mod shell;
pub mod smart_bubble;
pub mod stooge;
pub mod tim;

// Distribution and other sorts.
pub mod bogo;
pub mod counting;
pub mod gravity;
pub mod radix;
pub mod sleep;
pub mod stalin;
