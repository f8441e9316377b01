//! A trait that every type has, so that traits bounded by it cannot be
//! implemented outside this crate's family.

use vstd::prelude::*;

verus! {

/// Implemented for every type.
pub trait Sealed {}

impl<T> Sealed for T {}

} // verus!
