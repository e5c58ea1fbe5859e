//! Accounting for the concurrency limiter: a pool of permits with a
//! fixed capacity, one permit held by each running worker.
//!
//! The pool is the decision state of the limiter. Blocking until a
//! permit is free is the caller's concern: the caller checks
//! [`PermitPool::available`] and calls [`PermitPool::acquire`] only when
//! a permit is free.

use vstd::prelude::*;

verus! {

/// A counting permit pool. At any time `capacity - available` permits
/// are held; the pool starts full.
pub struct PermitPool {
    pub capacity: usize,
    pub available: usize,
}

impl PermitPool {
    /// The pool never hands out more than it was created with.
    pub open spec fn wf(self) -> bool {
        self.available <= self.capacity
    }

    /// How many permits are currently held.
    pub open spec fn in_use(self) -> int {
        self.capacity - self.available
    }

    /// Creates a pool with `capacity` permits, all free.
    pub fn new(capacity: usize) -> (p: PermitPool)
        ensures
            p.wf(),
            p.capacity == capacity,
            p.available == capacity,
            p.in_use() == 0,
    {
        PermitPool { capacity, available: capacity }
    }

    /// Executable accessor for the number of free permits.
    pub fn available(&self) -> (a: usize)
        ensures
            a == self.available,
    {
        self.available
    }

    /// Executable accessor for the pool's capacity.
    pub fn capacity(&self) -> (c: usize)
        ensures
            c == self.capacity,
    {
        self.capacity
    }

    /// Consumes one permit. The caller must have seen a free permit.
    pub fn acquire(&mut self)
        requires
            old(self).wf(),
            old(self).available > 0,
        ensures
            final(self).wf(),
            final(self).capacity == old(self).capacity,
            final(self).available == old(self).available - 1,
            final(self).in_use() == old(self).in_use() + 1,
    {
        self.available = self.available - 1;
    }

    /// Returns one permit. The caller must hold one: each worker calls
    /// this exactly once, after it was admitted through `acquire`.
    pub fn release(&mut self)
        requires
            old(self).wf(),
            old(self).in_use() > 0,
        ensures
            final(self).wf(),
            final(self).capacity == old(self).capacity,
            final(self).available == old(self).available + 1,
            final(self).in_use() == old(self).in_use() - 1,
    {
        self.available = self.available + 1;
    }

    /// Law: the concurrency cap holds — the permits held never exceed
    /// the pool's capacity.
    pub proof fn lemma_concurrency_cap(self)
        requires
            self.wf(),
        ensures
            0 <= self.in_use() <= self.capacity,
    {
    }
}

} // verus!
