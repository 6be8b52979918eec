//! Sorting over N-dimensional arrays.
//!
//! This names a sibling capability of the searching core: the interface a
//! complete array library offers for ordering elements.  It is declared
//! only — no implementation or contract is provided, and the searching
//! module remains the sole implemented capability of this crate.

use vstd::prelude::*;

verus! {

/// Ordering an array's elements: the sorted elements themselves, or the
/// permutation of positions that would sort them.
pub trait Sorting {
    /// The elements in sorted order.
    fn sort(&self);

    /// The positions that would put the elements in sorted order.
    fn argsort(&self);
}

} // verus!
