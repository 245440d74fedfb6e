//! A quiescent point across the worker worlds: every worker parked between
//! turns while the calling world does something no task may run through, a
//! reload.

use vstd::prelude::*;

verus! {

/// How long to wait for the workers before going ahead without the ones still
/// out, in milliseconds: a worker inside a native call that blocks for longer
/// runs no task code meanwhile.
pub const PATIENCE: u64 = 1000;

/// What both sides of a quiescent point wait on.
pub struct Quiescence {
    /// Set while a quiescent point is wanted; workers park on seeing it.
    pub requested: bool,
    /// Workers parked so far.
    pub parked: usize,
}

impl Quiescence {
    pub fn new() -> (q: Quiescence)
        ensures
            !q.requested,
            q.parked == 0,
    {
        Quiescence { requested: false, parked: 0 }
    }

    /// Ask for a quiescent point of `workers` worlds: false where there are
    /// none to wait for.
    pub fn quiesce(&mut self, workers: usize) -> (wait: bool)
        ensures
            wait == (workers > 0),
            final(self).requested == (wait || old(self).requested),
            final(self).parked == old(self).parked,
    {
        if workers == 0 {
            return false;
        }
        self.requested = true;
        true
    }

    /// Whether the calling world may go ahead: every worker is parked, or its
    /// patience is over.
    pub fn reached(&self, workers: usize, waited: u64) -> (r: bool)
        ensures
            r == (self.parked >= workers || waited >= PATIENCE),
    {
        self.parked >= workers || waited >= PATIENCE
    }

    /// The quiescent point is over; the workers may go.
    pub fn end(&mut self)
        ensures
            !final(self).requested,
            final(self).parked == old(self).parked,
    {
        self.requested = false;
    }

    /// Whether every worker has left, and another point may be counted.
    pub fn is_over(&self) -> (r: bool)
        ensures
            r == (!self.requested && self.parked == 0),
    {
        !self.requested && self.parked == 0
    }

    /// Whether a worker should park now.
    pub fn requested(&self) -> (r: bool)
        ensures
            r == self.requested,
    {
        self.requested
    }

    /// A worker parks, between turns.
    pub fn park(&mut self)
        requires
            old(self).parked < usize::MAX,
        ensures
            final(self).parked == old(self).parked + 1,
            final(self).requested == old(self).requested,
    {
        self.parked = self.parked + 1;
    }

    /// A parked worker leaves, once the point is over: false to wait on.
    pub fn leave(&mut self) -> (left: bool)
        requires
            old(self).parked > 0,
        ensures
            left == !old(self).requested,
            final(self).requested == old(self).requested,
            final(self).parked == if left {
                old(self).parked - 1
            } else {
                old(self).parked as int
            },
    {
        if self.requested {
            return false;
        }
        self.parked = self.parked - 1;
        true
    }
}

} // verus!
