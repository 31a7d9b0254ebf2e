//! Admission control: a counting-semaphore permit account.
//!
//! The engine bounds the number of connections handled at once. This module
//! holds the verified accounting: a permit count that never exceeds the
//! configured capacity and never goes negative. The blocking itself (a mutex
//! and a condition variable around this account, parking a thread while no
//! permit is free) lives with the embedding program, which calls
//! [`Semaphore::acquire`] only once [`Semaphore::try_acquire`] or the
//! condition wait says a permit is free.

use vstd::prelude::*;

verus! {

/// The permit account of the admission gate.
///
/// Invariant: `available <= capacity`; a permit can be released only when
/// one is outstanding, so releases never exceed acquires.
pub struct Semaphore {
    capacity: usize,
    available: usize,
}

impl Semaphore {
    /// The configured capacity: the bound on concurrently held permits.
    pub closed spec fn spec_capacity(&self) -> nat {
        self.capacity as nat
    }

    /// How many permits are free right now.
    pub closed spec fn spec_available(&self) -> nat {
        self.available as nat
    }

    /// The account is well formed: free permits never exceed capacity.
    pub open spec fn wf(&self) -> bool {
        self.spec_available() <= self.spec_capacity()
    }

    /// A fresh gate with all `count` permits free.
    pub fn new(count: usize) -> (s: Semaphore)
        ensures
            s.wf(),
            s.spec_capacity() == count as nat,
            s.spec_available() == count as nat,
    {
        Semaphore { capacity: count, available: count }
    }

    /// The configured capacity.
    pub fn capacity(&self) -> (c: usize)
        ensures
            c as nat == self.spec_capacity(),
    {
        self.capacity
    }

    /// How many permits are free.
    pub fn available(&self) -> (a: usize)
        ensures
            a as nat == self.spec_available(),
    {
        self.available
    }

    /// Take a permit. The caller has already waited until one is free;
    /// with none free, taking one would be the blocked case, which the
    /// embedding program expresses by waiting, not by calling this.
    pub fn acquire(&mut self)
        requires
            old(self).wf(),
            old(self).spec_available() >= 1,
        ensures
            final(self).wf(),
            final(self).spec_capacity() == old(self).spec_capacity(),
            final(self).spec_available() == old(self).spec_available() - 1,
    {
        self.available = self.available - 1;
    }

    /// Take a permit if one is free. Returns whether one was taken; when
    /// none is (the result is false), the caller must wait for a release
    /// before trying again — this is the blocking case.
    pub fn try_acquire(&mut self) -> (ok: bool)
        requires
            old(self).wf(),
        ensures
            final(self).wf(),
            final(self).spec_capacity() == old(self).spec_capacity(),
            ok == (old(self).spec_available() >= 1),
            ok ==> final(self).spec_available() == old(self).spec_available() - 1,
            !ok ==> final(self).spec_available() == old(self).spec_available(),
    {
        if self.available >= 1 {
            self.available = self.available - 1;
            true
        } else {
            false
        }
    }

    /// Return a permit. Only an outstanding permit can come back, so the
    /// count never climbs past the capacity.
    pub fn release(&mut self)
        requires
            old(self).wf(),
            old(self).spec_available() < old(self).spec_capacity(),
        ensures
            final(self).wf(),
            final(self).spec_capacity() == old(self).spec_capacity(),
            final(self).spec_available() == old(self).spec_available() + 1,
    {
        self.available = self.available + 1;
    }
}

/// Outstanding-permit accounting: in every well-formed gate state the
/// number of free permits stays within the configured capacity, and once
/// every permit is taken a further take is refused until a release.
pub proof fn lemma_admission_bounded(s: Semaphore)
    requires
        s.wf(),
    ensures
        s.spec_available() <= s.spec_capacity(),
        s.spec_available() == 0 ==> !(s.spec_available() >= 1),
{
}

} // verus!
