//! In-memory identities of tasks and the allocator that issues them.

use vstd::prelude::*;

verus! {

/// The identity of a task: a non-zero integer that never changes for the
/// lifetime of the task, whatever its position.
#[derive(Clone, Copy, Debug, PartialEq, Eq, Structural, PartialOrd, Ord, Hash)]
pub struct Id {
    id: usize,
}

impl View for Id {
    type V = usize;

    closed spec fn view(&self) -> usize {
        self.id
    }
}

impl Id {
    #[verifier::type_invariant]
    closed spec fn non_zero(self) -> bool {
        self.id != 0
    }

    /// Create an `Id` from an integer known to be unique, such as one read
    /// back from persisted records.
    pub fn from_unique_id(id: usize) -> (r: Self)
        requires
            id != 0,
        ensures
            r@ == id,
    {
        Id { id }
    }

    /// Retrieve the underlying integer value.
    pub fn get(&self) -> (r: usize)
        ensures
            r == self@,
            r != 0,
    {
        proof {
            use_type_invariant(self);
        }
        self.id
    }

    /// Two identities are equal exactly when their integers are.
    pub proof fn lemma_view_injective(a: Id, b: Id)
        ensures
            (a@ == b@) == (a == b),
    {
    }
}

/// A monotonic counter that issues identities: every identity it hands out
/// is larger than all the ones it handed out before.
#[derive(Debug)]
pub struct Ids {
    next: usize,
    exhausted: bool,
}

impl Ids {
    /// The value the next call of `allocate` hands out; past `usize::MAX`
    /// once the counter is spent.
    pub closed spec fn next(&self) -> nat {
        if self.exhausted {
            usize::MAX as nat + 1
        } else {
            self.next as nat
        }
    }

    #[verifier::type_invariant]
    closed spec fn non_zero(self) -> bool {
        self.next != 0
    }

    /// An allocator whose first identity is 1.
    pub fn new() -> (r: Self)
        ensures
            r.next() == 1,
    {
        Ids { next: 1, exhausted: false }
    }

    /// An allocator whose first identity is `max + 1`; used to stay clear of
    /// identities up to `max` that exist already.
    pub fn above(max: usize) -> (r: Self)
        ensures
            r.next() == max as nat + 1,
    {
        if max < usize::MAX {
            Ids { next: max + 1, exhausted: false }
        } else {
            Ids { next: max, exhausted: true }
        }
    }

    /// Whether the counter still has identities to issue.
    pub fn can_allocate(&self) -> (r: bool)
        ensures
            r == (self.next() < usize::MAX),
    {
        !self.exhausted && self.next < usize::MAX
    }

    /// Issue a fresh identity.
    pub fn allocate(&mut self) -> (r: Id)
        requires
            old(self).next() < usize::MAX,
        ensures
            r@ == old(self).next(),
            final(self).next() == old(self).next() + 1,
    {
        proof {
            use_type_invariant(&*self);
        }
        let id = Id { id: self.next };
        self.next = self.next + 1;
        id
    }
}

} // verus!
