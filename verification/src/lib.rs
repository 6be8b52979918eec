//! Axis-aware extremum search over dense N-dimensional arrays.
//!
//! The crate models a dense, row-major N-dimensional container
//! ([`array::NdArray`]) and provides a verified axis reduction that locates
//! the maximum or minimum element and its coordinate — either globally
//! (yielding a flat offset into the storage) or along one chosen axis
//! (yielding per-position slice indices).

pub mod array;

pub mod indexing;

pub mod searching;

pub mod sorting;
