//! The poll epoch: the one word compiled loops read on every back-edge.

use vstd::prelude::*;

use crate::platform::Platform;

verus! {

/// The epoch changes only when the runtime needs attention: a quantum elapsed,
/// work reached a world, or the collector wants the world stopped.
pub struct Preemption {
    pub epoch: u64,
    /// Tasks alive across every world. The timer runs only while there are
    /// any: one task and the main context are already two parties that must
    /// take turns.
    pub live: usize,
}

impl Preemption {
    pub fn new() -> (p: Preemption)
        ensures
            p.epoch == 1,
            p.live == 0,
    {
        Preemption { epoch: 1, live: 0 }
    }

    /// Make every running compiled activation reach a safepoint. Monotonic but
    /// for the wrap, so one world cannot consume another's request.
    pub fn request_poll(&mut self)
        ensures
            final(self).epoch == next_epoch(old(self).epoch),
            final(self).live == old(self).live,
    {
        self.epoch = self.epoch.wrapping_add(1);
    }

    pub fn task_created(&mut self)
        requires
            old(self).live < usize::MAX,
        ensures
            final(self).live == old(self).live + 1,
            final(self).epoch == next_epoch(old(self).epoch),
    {
        self.live = self.live + 1;
        self.request_poll();
    }

    pub fn task_removed(&mut self)
        requires
            old(self).live > 0,
        ensures
            final(self).live == old(self).live - 1,
            final(self).epoch == old(self).epoch,
    {
        self.live = self.live - 1;
    }

    pub fn tasks_removed(&mut self, count: usize)
        requires
            count <= old(self).live,
        ensures
            final(self).live == old(self).live - count,
            final(self).epoch == old(self).epoch,
    {
        self.live = self.live - count;
    }

    pub fn any_live_tasks(&self) -> (r: bool)
        ensures
            r == (self.live != 0),
    {
        self.live != 0
    }

    /// Whether the timer of the quanta runs: while there are tasks, and not in a
    /// wasm module, which yields through its host.
    pub fn timer_runs(&self, platform: Platform) -> (r: bool)
        ensures
            r == (platform is Native && self.live != 0),
    {
        !platform.is_wasm() && self.any_live_tasks()
    }

    /// A quantum elapsed: a poll is asked for while there are tasks.
    pub fn quantum(&mut self)
        ensures
            final(self).live == old(self).live,
            final(self).epoch == if old(self).live != 0 {
                next_epoch(old(self).epoch)
            } else {
                old(self).epoch
            },
    {
        if self.any_live_tasks() {
            self.request_poll();
        }
    }
}

/// The epoch after one request.
pub open spec fn next_epoch(epoch: u64) -> u64 {
    if epoch == u64::MAX {
        0
    } else {
        (epoch + 1) as u64
    }
}

/// A request is always seen: the epoch changes.
pub proof fn law_a_request_is_seen(epoch: u64)
    ensures
        next_epoch(epoch) != epoch,
{
}

} // verus!
