//! Keeps the retaining trait closed to implementations outside this crate.
use vstd::prelude::*;

verus! {

/// Implemented only by the types that this crate extends.
pub trait Sealed {}

impl Sealed for String {}

} // verus!
