//! Non-zero identifiers as they appear in persisted records.

use std::marker::PhantomData;

use vstd::prelude::*;

verus! {

/// A non-zero identifier, typed by the kind of record it names.
#[derive(Copy, Debug, PartialOrd, Ord)]
pub struct Id<T> where T: Copy {
    id: usize,
    phantom: PhantomData<T>,
}

impl<T> Clone for Id<T> where T: Copy {
    fn clone(&self) -> (r: Self)
        ensures
            r == *self,
    {
        *self
    }
}

impl<T> PartialEq for Id<T> where T: Copy {
    fn eq(&self, other: &Self) -> (r: bool) {
        self.id == other.id
    }
}

impl<T> vstd::std_specs::cmp::PartialEqSpecImpl for Id<T> where T: Copy {
    open spec fn obeys_eq_spec() -> bool {
        true
    }

    open spec fn eq_spec(&self, other: &Self) -> bool {
        self@ == other@
    }
}

impl<T> Eq for Id<T> where T: Copy {}

impl<T> View for Id<T> where T: Copy {
    type V = usize;

    closed spec fn view(&self) -> usize {
        self.id
    }
}

impl<T> Id<T> where T: Copy {
    #[verifier::type_invariant]
    closed spec fn non_zero(self) -> bool {
        self.id != 0
    }

    /// Create a new `Id` object from a raw, non-zero integer.
    pub fn new(id: usize) -> (r: Self)
        requires
            id != 0,
        ensures
            r@ == id,
    {
        Self { id, phantom: PhantomData }
    }

    /// Retrieve the underlying integer value.
    pub fn get(&self) -> (r: usize)
        ensures
            r == self@,
            r != 0,
    {
        proof {
            use_type_invariant(self);
        }
        self.id
    }
}

} // verus!
