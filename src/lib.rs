//! In-place retaining of the characters of a `String`, with predicates that
//! may look at the text already retained and the text still to come.
use vstd::prelude::*;

pub mod encoding;
pub mod laws;
mod sealed;
pub mod string;

pub use string::RetainMoreString;


verus! {

/// A plain wrapper around a value, giving access to it by reference.
#[derive(Copy, Clone, Debug, Default, Eq, PartialEq, Hash, Ord, PartialOrd)]
pub struct SafeImpl<T>(pub T);

impl<T> From<T> for SafeImpl<T> {
    fn from(it: T) -> (r: Self)
        ensures
            r.0 == it,
    {
        SafeImpl(it)
    }
}

impl<T> vstd::std_specs::convert::FromSpecImpl<T> for SafeImpl<T> {
    open spec fn obeys_from_spec() -> bool {
        true
    }

    open spec fn from_spec(it: T) -> Self {
        SafeImpl(it)
    }
}

impl<T> core::ops::Deref for SafeImpl<T> {
    type Target = T;

    fn deref(&self) -> (r: &T)
        ensures
            *r == self.0,
    {
        &self.0
    }
}

impl<T> core::ops::DerefMut for SafeImpl<T> {
    fn deref_mut(&mut self) -> (r: &mut T)
        ensures
            *r == old(self).0,
            final(self).0 == *final(r),
    {
        &mut self.0
    }
}

} // verus!
