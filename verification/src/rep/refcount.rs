//! Counting references, with a flag for what is never released.

use vstd::prelude::*;

verus! {

/// What one reference adds to the count; the lowest bit is the flag.
pub const REF_INCREMENT: i32 = 2;

/// A count from which on no reference is added.
pub const REF_LIMIT: i32 = 1431655764;

/// A reference count and a flag.
#[derive(Clone, Copy)]
pub struct Refcount {
    value: i32,
}

impl Refcount {
    #[verifier::type_invariant]
    spec fn inv(self) -> bool {
        self.value >= 0
    }

    /// The number of references.
    pub closed spec fn references(self) -> int {
        self.value as int / 2
    }

    /// The flag: what is counted is never released.
    pub closed spec fn immortal(self) -> bool {
        self.value % 2 == 1
    }

    /// A single reference.
    pub fn new() -> (r: Refcount)
        ensures
            r.references() == 1,
            !r.immortal(),
    {
        Refcount { value: REF_INCREMENT }
    }

    /// Adds a reference.
    pub fn increment(&mut self)
        requires
            old(self).references() < REF_LIMIT / 2,
        ensures
            final(self).references() == old(self).references() + 1,
            final(self).immortal() == old(self).immortal(),
    {
        proof {
            use_type_invariant(&*self);
        }
        self.value = self.value + REF_INCREMENT;
    }

    /// Drops a reference, unless it is the last one. Returns whether references are left.
    pub fn decrement(&mut self) -> (left: bool)
        requires
            old(self).references() >= 1,
        ensures
            left == (old(self).references() > 1 || old(self).immortal()),
            final(self).references() == if left { old(self).references() - 1 } else { old(self).references() },
            final(self).immortal() == old(self).immortal(),
    {
        proof {
            use_type_invariant(&*self);
        }
        if self.value == REF_INCREMENT {
            return false;
        }
        self.value = self.value - REF_INCREMENT;
        true
    }

    /// Drops a reference, also the last one. Returns whether references are left.
    pub fn decrement_expect_high_refcount(&mut self) -> (left: bool)
        requires
            old(self).references() >= 1,
        ensures
            left == (old(self).references() > 1 || old(self).immortal()),
            final(self).references() == old(self).references() - 1,
            final(self).immortal() == old(self).immortal(),
    {
        proof {
            use_type_invariant(&*self);
        }
        let before: i32 = self.value;
        self.value = before - REF_INCREMENT;
        before != REF_INCREMENT
    }

    /// The number of references.
    pub fn get(&self) -> (n: usize)
        ensures
            n == self.references(),
    {
        proof {
            use_type_invariant(self);
        }
        (self.value / 2) as usize
    }

    /// Whether there is exactly one reference and no flag.
    pub fn is_one(&self) -> (r: bool)
        ensures
            r == (self.references() == 1 && !self.immortal()),
    {
        proof {
            use_type_invariant(self);
        }
        self.value == REF_INCREMENT
    }

    /// Whether what is counted is never released.
    pub fn is_immortal(&self) -> (r: bool)
        ensures
            r == self.immortal(),
    {
        proof {
            use_type_invariant(self);
        }
        self.value % 2 == 1
    }
}

} // verus!
