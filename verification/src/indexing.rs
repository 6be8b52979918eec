//! Boolean-mask indexing and filtering over N-dimensional arrays.
//!
//! This names a sibling capability of the searching core: the interface a
//! complete array library offers for selecting elements by condition.  It
//! is declared only — no implementation or contract is provided, and the
//! searching module remains the sole implemented capability of this crate.

use vstd::prelude::*;

verus! {

/// Selecting parts of an array: by explicit indices, by a per-element
/// condition, or by locating the positions that satisfy a condition.
pub trait Indexing<A> {
    /// Selection by explicit indices.
    fn indexing(&self);

    /// Selection of the elements satisfying `cond`.
    fn cond_take<F: Fn(&A) -> bool>(&self, cond: F);

    /// Location of the positions whose elements satisfy a condition.
    fn cond_where(&self);
}

} // verus!
