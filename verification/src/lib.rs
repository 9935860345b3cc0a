//! Bit-addressable views over arrays of fixed-width unsigned integers.
//!
//! The crate treats ordinary memory -- a buffer of storage elements -- as an
//! individually addressable sequence of single bits, under a pluggable
//! *ordering policy* that maps each logical bit index to a physical bit
//! position within one storage element.  On top of that addressing core it
//! offers slice-like bulk operations: copy, fill, compare, count, invert,
//! reverse, shift, rotate, search, and a family of windowing and chunking
//! cursors driven purely by pointer arithmetic.
#![verifier::loop_isolation(false)]

pub mod bits;
pub mod cmp;
pub mod copy;
pub mod cursor;
pub mod index;
pub mod iter;
pub mod laws;
pub mod ops;
pub mod order;
pub mod ptr;

use vstd::prelude::*;

verus! {

/// The largest bit length any bit range may denote.  Chosen so that a bit
/// count can always be converted back to a byte offset without overflowing
/// the address space.
pub const MAX_BITS: usize = usize::MAX / 8;

} // verus!
