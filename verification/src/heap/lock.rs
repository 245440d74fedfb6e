//! The reentrant lock over the heap, as the state its threads agree on. A
//! thread that must wait sleeps outside, and asks again when it is woken.

use vstd::prelude::*;

use crate::heap::deferred::{after_releases, times, Deferred};
use crate::heap::handles::Handle;
use crate::heap::immix::ImmixAllocator;

verus! {

/// Owner and depth: `owner` is a thread's token, zero when the lock is free.
pub struct ReentrantGcLock {
    pub owner: u64,
    pub depth: usize,
    /// Threads that wait for the lock; a release tells them only when there
    /// are any.
    pub waiters: usize,
}

/// How an attempt to take the lock ended.
#[derive(Clone, Copy, Debug, PartialEq, Eq, Structural)]
pub enum LockStep {
    /// The thread owned it already: one level deeper.
    Nested,
    /// The lock was free and is the thread's now.
    Taken,
    /// Another thread owns it.
    Busy,
}

/// How a release ended.
#[derive(Clone, Copy, Debug, PartialEq, Eq, Structural)]
pub enum Release {
    /// The thread still holds it.
    Held,
    /// The lock is free; `notify` when a thread waits for it.
    Freed { notify: bool },
}

/// A hold of the lock, given up with [`gc_lock_release`].
pub struct GcGuard {
    pub token: u64,
}

impl ReentrantGcLock {
    /// Free means not held.
    pub open spec fn inv(&self) -> bool {
        self.owner == 0 <==> self.depth == 0
    }

    /// How deep thread `me` holds the lock.
    pub open spec fn held_by(&self, me: u64) -> nat {
        if self.owner == me {
            self.depth as nat
        } else {
            0
        }
    }

    pub fn new() -> (l: ReentrantGcLock)
        ensures
            l.inv(),
            l.owner == 0,
            l.depth == 0,
            l.waiters == 0,
    {
        ReentrantGcLock { owner: 0, depth: 0, waiters: 0 }
    }

    /// One attempt to take the lock.
    pub fn acquire(&mut self, me: u64) -> (step: LockStep)
        requires
            old(self).inv(),
            me != 0,
            old(self).held_by(me) < usize::MAX,
        ensures
            final(self).inv(),
            final(self).waiters == old(self).waiters,
            step == if old(self).owner == me {
                LockStep::Nested
            } else if old(self).owner == 0 {
                LockStep::Taken
            } else {
                LockStep::Busy
            },
            step == LockStep::Busy ==> *final(self) == *old(self),
            step != LockStep::Busy ==> final(self).owner == me && final(self).depth == old(
                self,
            ).held_by(me) + 1,
    {
        if self.owner == me {
            self.depth = self.depth + 1;
            LockStep::Nested
        } else if self.owner == 0 {
            self.owner = me;
            self.depth = 1;
            LockStep::Taken
        } else {
            LockStep::Busy
        }
    }

    /// Note that a thread begins to wait.
    pub fn begin_wait(&mut self)
        requires
            old(self).waiters < usize::MAX,
        ensures
            *final(self) == (ReentrantGcLock {
                waiters: (old(self).waiters + 1) as usize,
                ..*old(self)
            }),
    {
        self.waiters = self.waiters + 1;
    }

    /// A waiting thread's further attempt; it stops waiting when this
    /// succeeds.
    pub fn retry(&mut self, me: u64) -> (taken: bool)
        requires
            old(self).inv(),
            me != 0,
            old(self).waiters > 0,
        ensures
            final(self).inv(),
            taken == (old(self).owner == 0),
            taken ==> final(self).owner == me && final(self).depth == 1 && final(self).waiters
                == old(self).waiters - 1,
            !taken ==> *final(self) == *old(self),
    {
        if self.owner != 0 {
            return false;
        }
        self.owner = me;
        self.depth = 1;
        self.waiters = self.waiters - 1;
        true
    }

    /// Give up one level, which thread `me` holds.
    pub fn release(&mut self, me: u64) -> (r: Release)
        requires
            old(self).inv(),
            old(self).held_by(me) > 0,
        ensures
            final(self).inv(),
            final(self).waiters == old(self).waiters,
            final(self).held_by(me) == old(self).held_by(me) - 1,
            final(self).owner == if old(self).depth == 1 {
                0
            } else {
                me
            },
            r == if old(self).depth == 1 {
                Release::Freed { notify: old(self).waiters != 0 }
            } else {
                Release::Held
            },
    {
        if self.depth > 1 {
            self.depth = self.depth - 1;
            return Release::Held;
        }
        self.depth = 0;
        self.owner = 0;
        Release::Freed { notify: self.waiters != 0 }
    }

    /// How deep thread `me` holds the lock; zero when it does not.
    pub fn held_depth(&self, me: u64) -> (d: usize)
        ensures
            d == self.held_by(me),
    {
        if self.owner == me {
            self.depth
        } else {
            0
        }
    }

    /// Force thread `me`'s hold down to `target`; true when that freed the
    /// lock, so that waiting threads must be told. For a throw past frames
    /// whose guards never run.
    pub fn unwind_to(&mut self, me: u64, target: usize) -> (notify: bool)
        requires
            old(self).inv(),
            me != 0,
        ensures
            final(self).inv(),
            final(self).waiters == old(self).waiters,
            final(self).held_by(me) == if old(self).held_by(me) <= target {
                old(self).held_by(me)
            } else {
                target as nat
            },
            old(self).owner != me ==> *final(self) == *old(self),
            old(self).owner == me ==> final(self).owner == if target == 0 {
                0
            } else {
                me
            },
            notify == (old(self).held_by(me) > 0 && target == 0),
    {
        if self.owner != me {
            return false;
        }
        if self.depth <= target {
            return false;
        }
        if target > 0 {
            self.depth = target;
            false
        } else {
            self.depth = 0;
            self.owner = 0;
            true
        }
    }
}

/// Take the lock for thread `me`; `None` when it must wait.
pub fn gc_guard(lock: &mut ReentrantGcLock, me: u64) -> (g: Option<GcGuard>)
    requires
        old(lock).inv(),
        me != 0,
        old(lock).held_by(me) < usize::MAX,
    ensures
        final(lock).inv(),
        final(lock).waiters == old(lock).waiters,
        g is Some <==> old(lock).owner == 0 || old(lock).owner == me,
        match g {
            Some(guard) => guard.token == me && final(lock).owner == me && final(lock).depth == old(
                lock,
            ).held_by(me) + 1,
            None => *final(lock) == *old(lock),
        },
{
    match lock.acquire(me) {
        LockStep::Busy => None,
        _ => Some(GcGuard { token: me }),
    }
}

/// What is left to drain once the lock was given up.
#[derive(Clone, Copy, Debug, PartialEq, Eq, Structural)]
pub enum Drain {
    /// Release the handles that are queued, and ask again.
    Releases,
    /// Run the finalizers that are due, outside the lock, and ask again.
    Finalizers,
    Done,
}

/// What a release that ended as `r` drains next. A finalizer may give up a
/// handle, and a handle's release may come with more to finalize, so the drains
/// go on until both queues are empty. What is queued while a batch of
/// finalizers runs waits for the end of the batch.
pub fn next_drain(r: Release, queue: &Deferred) -> (d: Drain)
    ensures
        d == if !(r is Freed) {
            Drain::Done
        } else if queue.releases@.len() > 0 {
            Drain::Releases
        } else if queue.finalizers@.len() > 0 && !queue.running {
            Drain::Finalizers
        } else {
            Drain::Done
        },
{
    match r {
        Release::Held => Drain::Done,
        Release::Freed { notify: _ } => if queue.releases.len() > 0 {
            Drain::Releases
        } else if queue.finalizers.len() > 0 && !queue.running {
            Drain::Finalizers
        } else {
            Drain::Done
        },
    }
}

/// `after` is `before` with every queued handle released; nothing else differs.
pub open spec fn drained_handles(before: &ImmixAllocator, after: &ImmixAllocator) -> bool {
    &&& *after == (ImmixAllocator {
        handles: after.handles,
        deferred: Deferred { releases: after.deferred.releases, ..before.deferred },
        ..*before
    })
    &&& after.deferred.releases@ == Seq::<Handle>::empty()
    &&& forall|h: Handle| #[trigger]
        after.handles.live(h) == after_releases(
            before.handles.live(h),
            times(before.deferred.releases@, h),
        )
}

/// Release the handles that are queued.
pub fn release_deferred_handles(gc: &mut ImmixAllocator)
    requires
        old(gc).wf(),
    ensures
        final(gc).wf(),
        drained_handles(old(gc), final(gc)),
{
    gc.deferred.release_deferred_handles(&mut gc.handles);
}

/// Give up a hold. The release that frees the lock releases the handles that
/// were queued under it; what else is due is asked of [`next_drain`].
pub fn gc_lock_release(lock: &mut ReentrantGcLock, gc: &mut ImmixAllocator, guard: GcGuard) -> (r:
    Release)
    requires
        old(lock).inv(),
        old(lock).held_by(guard.token) > 0,
        old(gc).wf(),
    ensures
        final(lock).inv(),
        final(lock).waiters == old(lock).waiters,
        final(lock).held_by(guard.token) == old(lock).held_by(guard.token) - 1,
        final(lock).owner == if old(lock).depth == 1 {
            0
        } else {
            guard.token
        },
        r == if old(lock).depth == 1 {
            (Release::Freed { notify: old(lock).waiters != 0 })
        } else {
            Release::Held
        },
        final(gc).wf(),
        r is Held ==> *final(gc) == *old(gc),
        r is Freed ==> drained_handles(old(gc), final(gc)),
{
    let r: Release = lock.release(guard.token);
    match r {
        Release::Held => {},
        Release::Freed { notify: _ } => {
            release_deferred_handles(gc);
        },
    }
    r
}

/// Depth of thread `me`'s hold on the lock, zero when it has none.
pub fn gc_lock_held_depth(lock: &ReentrantGcLock, me: u64) -> (d: usize)
    ensures
        d == lock.held_by(me),
{
    lock.held_depth(me)
}

/// Restore thread `me`'s depth to `target`, giving the lock up entirely when
/// that is zero; whether waiting threads must be told.
pub fn gc_lock_unwind_to(lock: &mut ReentrantGcLock, me: u64, target: usize) -> (notify: bool)
    requires
        old(lock).inv(),
        me != 0,
    ensures
        final(lock).inv(),
        final(lock).held_by(me) == if old(lock).held_by(me) <= target {
            old(lock).held_by(me)
        } else {
            target as nat
        },
        final(lock).waiters == old(lock).waiters,
        old(lock).owner != me ==> *final(lock) == *old(lock),
        old(lock).owner == me ==> final(lock).owner == if target == 0 {
            0
        } else {
            me
        },
        notify == (old(lock).held_by(me) > 0 && target == 0),
{
    lock.unwind_to(me, target)
}

/// The lock excludes: while a thread holds it no other thread does, and none
/// is given it.
pub proof fn law_lock_excludes(lock: ReentrantGcLock, me: u64, other: u64)
    requires
        lock.inv(),
        me != 0,
        other != 0,
        me != other,
        lock.held_by(me) > 0,
    ensures
        lock.held_by(other) == 0,
        !(lock.owner == 0 || lock.owner == other),
{
}

/// A handle queued for release while the lock is held stands until the release
/// that frees the lock, and is gone after it.
pub proof fn law_deferred_release_runs(before: &ImmixAllocator, after: &ImmixAllocator, h: Handle)
    requires
        before.handles.live(h) matches Some((_, refs)) && refs == 1,
        before.deferred.releases@.contains(h),
        drained_handles(before, after),
    ensures
        after.handles.live(h) is None,
{
    lemma_times(before.deferred.releases@, h);
}

proof fn lemma_times(s: Seq<Handle>, h: Handle)
    requires
        s.contains(h),
    ensures
        times(s, h) >= 1,
    decreases s.len(),
{
    if s.last() != h {
        let i = choose|i: int| 0 <= i < s.len() && s[i] == h;
        assert(s.drop_last()[i] == h);
        lemma_times(s.drop_last(), h);
    }
}

} // verus!
