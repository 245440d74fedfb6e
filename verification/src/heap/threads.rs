//! The threads that allocate: how one joins and leaves, and the ranges its
//! interpreter has the collector scan.

use vstd::prelude::*;

use crate::heap::grant::{
    law_a_deferring_thread_waits, Attempt, Grant, TriggerContext, TriggerEvent,
};
use crate::heap::immix::{ImmixAllocator, Trigger};
use crate::heap::mutators::{MutatorWorld, Register};
use crate::heap::roots::{fiber_ok, FiberStackInfo};
use crate::heap::space::Tlab;
use crate::heap::surface::thread_registered;

verus! {

impl ImmixAllocator {
    /// Collections wait for a safepoint from now on; nothing else differs.
    pub open spec fn waits_for_safepoints(&self, before: &ImmixAllocator) -> bool {
        *self == (ImmixAllocator {
            trigger: Trigger { safepoint_mode: true, ..before.trigger },
            ..*before
        })
    }

    /// Begin a fresh set of `thread`'s ranges.
    pub fn clear_scan_ranges(&mut self, world: &mut MutatorWorld, thread: u64)
        requires
            old(self).wf(),
            old(world).inv(),
        ensures
            final(self).wf(),
            final(world).inv(),
            final(self).waits_for_safepoints(old(self)),
            final(world).cleared(old(world), thread),
    {
        self.trigger.safepoint_mode = true;
        world.clear_scan_ranges(thread);
    }

    /// Add a range to the set. A collection that waits is not honoured here: a
    /// set spans several ranges, one per interpreter frame.
    pub fn add_scan_range(
        &mut self,
        world: &mut MutatorWorld,
        thread: u64,
        ptr: usize,
        size: usize,
    )
        requires
            old(self).wf(),
            old(world).inv(),
        ensures
            final(self).wf(),
            final(world).inv(),
            final(self).waits_for_safepoints(old(self)),
            final(world).staged(old(world), thread, ptr, size),
    {
        self.trigger.safepoint_mode = true;
        world.add_scan_range(thread, ptr, size);
    }

    /// The set is complete: publish it. True when a collection waits for it.
    pub fn scan_roots_done(&self, world: &mut MutatorWorld, thread: u64) -> (collect: bool)
        requires
            old(world).inv(),
        ensures
            final(world).inv(),
            final(world).published(old(world), thread),
            collect == self.trigger.collect_pending,
    {
        world.publish_scan_ranges(thread);
        self.trigger.collect_pending
    }

    /// The stacks of other threads than `thread`.
    pub open spec fn stacks_elsewhere(stacks: Seq<FiberStackInfo>, thread: u64) -> Seq<
        FiberStackInfo,
    >
        decreases stacks.len(),
    {
        if stacks.len() == 0 {
            stacks
        } else {
            let init = ImmixAllocator::stacks_elsewhere(stacks.drop_last(), thread);
            if stacks.last().thread != thread {
                init.push(stacks.last())
            } else {
                init
            }
        }
    }

    /// Forget the stacks `thread` registered.
    fn drop_stacks_of(&mut self, thread: u64)
        requires
            old(self).wf(),
        ensures
            final(self).wf(),
            final(self).only_stacks(old(self)),
            final(self).fiber_stacks@ == ImmixAllocator::stacks_elsewhere(
                old(self).fiber_stacks@,
                thread,
            ),
    {
        let mut left: Vec<FiberStackInfo> = Vec::new();
        let mut i: usize = 0;
        assert(self.fiber_stacks@.take(0) =~= Seq::<FiberStackInfo>::empty());
        while i < self.fiber_stacks.len()
            invariant
                *self == *old(self),
                old(self).wf(),
                i <= self.fiber_stacks.len(),
                left@ == ImmixAllocator::stacks_elsewhere(
                    self.fiber_stacks@.take(i as int),
                    thread,
                ),
                forall|k: int| 0 <= k < left.len() ==> fiber_ok(#[trigger] left[k]),
            decreases self.fiber_stacks.len() - i,
        {
            assert(self.fiber_stacks@.take(i + 1).drop_last() =~= self.fiber_stacks@.take(
                i as int,
            ));
            let f: FiberStackInfo = self.fiber_stacks[i];
            assert(fiber_ok(self.fiber_stacks[i as int]));
            if f.thread != thread {
                left.push(f);
            }
            i = i + 1;
        }
        assert(self.fiber_stacks@.take(i as int) =~= self.fiber_stacks@);
        self.fiber_stacks = left;
    }
}

/// Clear the ranges an interpreter has staged.
pub fn clear_scan_roots(gc: &mut ImmixAllocator, world: &mut MutatorWorld, thread: u64)
    requires
        old(gc).wf(),
        old(world).inv(),
    ensures
        final(gc).wf(),
        final(world).inv(),
        final(gc).waits_for_safepoints(old(gc)),
        final(world).cleared(old(world), thread),
{
    gc.clear_scan_ranges(world, thread);
}

/// Add a range of an interpreter's.
pub fn add_scan_root(
    gc: &mut ImmixAllocator,
    world: &mut MutatorWorld,
    thread: u64,
    ptr: usize,
    size: usize,
)
    requires
        old(gc).wf(),
        old(world).inv(),
    ensures
        final(gc).wf(),
        final(world).inv(),
        final(gc).waits_for_safepoints(old(gc)),
        final(world).staged(old(world), thread, ptr, size),
{
    gc.add_scan_range(world, thread, ptr, size);
}

/// Replace the published ranges of an interpreter in one step. True when a
/// collection waits for it.
pub fn set_scan_roots(
    gc: &mut ImmixAllocator,
    world: &mut MutatorWorld,
    thread: u64,
    ranges: &Vec<(usize, usize)>,
) -> (collect: bool)
    requires
        old(gc).wf(),
        old(world).inv(),
    ensures
        final(gc).wf(),
        final(world).inv(),
        final(gc).waits_for_safepoints(old(gc)),
        final(world).replaced(old(world), thread, ranges@),
        collect == old(gc).trigger.collect_pending,
{
    gc.trigger.safepoint_mode = true;
    world.set_scan_ranges(thread, ranges);
    gc.trigger.collect_pending
}

/// Hand the collector a live view of a mutator's range table: afterwards the
/// mutator maintains it, and the collector reads it when it stops the world.
pub fn set_scan_roots_live(
    gc: &mut ImmixAllocator,
    world: &mut MutatorWorld,
    thread: u64,
    ranges: usize,
    len: usize,
)
    requires
        old(gc).wf(),
        old(world).inv(),
    ensures
        final(gc).wf(),
        final(world).inv(),
        final(gc).waits_for_safepoints(old(gc)),
        final(world).keeps_own(old(world), thread, ranges, len),
{
    gc.trigger.safepoint_mode = true;
    world.set_scan_live(thread, ranges, len);
}

/// Register the host runtime's thread.
pub fn set_stack_top(world: &mut MutatorWorld, thread: u64, top: usize) -> (r: Register)
    requires
        old(world).inv(),
    ensures
        final(world).inv(),
        final(world).joined(old(world), thread, top, "runtime"@, r),
        final(world).stop_holds(old(world)),
{
    world.register(thread, top, "runtime")
}

/// Register a thread that a native library started.
pub fn register_thread(world: &mut MutatorWorld, thread: u64, stack_top: usize) -> (r: Register)
    requires
        old(world).inv(),
    ensures
        final(world).inv(),
        final(world).joined(old(world), thread, stack_top, "hdll"@, r),
        final(world).stop_holds(old(world)),
{
    world.register(thread, stack_top, "hdll")
}

/// Register a worker of the process's own.
pub fn gc_register_current_os_thread(world: &mut MutatorWorld, thread: u64, stack_top: usize) -> (r:
    Register)
    requires
        old(world).inv(),
    ensures
        final(world).inv(),
        final(world).joined(old(world), thread, stack_top, "os-worker"@, r),
        final(world).stop_holds(old(world)),
{
    world.register(thread, stack_top, "os-worker")
}

/// The threads whose collections are deferred: a trigger that fires inside such a
/// thread's allocation is recorded instead of run there.
pub struct Deferrals {
    pub threads: Vec<u64>,
}

impl Deferrals {
    /// Each thread once.
    pub open spec fn inv(&self) -> bool {
        self.threads@.no_duplicates()
    }

    /// Whether the collections of `thread` are deferred.
    pub open spec fn defers(&self, thread: u64) -> bool {
        self.threads@.contains(thread)
    }

    /// Only `thread` differs from `before`: it defers as `on` says.
    pub open spec fn set_to(&self, before: &Deferrals, thread: u64, on: bool) -> bool {
        forall|t: u64| #[trigger]
            self.defers(t) == if t == thread {
                on
            } else {
                before.defers(t)
            }
    }

    pub fn new() -> (d: Deferrals)
        ensures
            d.inv(),
            forall|t: u64| !#[trigger] d.defers(t),
    {
        Deferrals { threads: Vec::new() }
    }

    fn position(&self, thread: u64) -> (r: Option<usize>)
        ensures
            match r {
                Some(i) => i < self.threads.len() && self.threads@[i as int] == thread,
                None => !self.defers(thread),
            },
    {
        let mut i: usize = 0;
        while i < self.threads.len()
            invariant
                i <= self.threads.len(),
                forall|k: int| 0 <= k < i ==> self.threads@[k] != thread,
            decreases self.threads.len() - i,
        {
            if self.threads[i] == thread {
                return Some(i);
            }
            i = i + 1;
        }
        None
    }

    /// Whether the collections of `thread` are deferred.
    pub fn is_deferred(&self, thread: u64) -> (r: bool)
        ensures
            r == self.defers(thread),
    {
        match self.position(thread) {
            Some(i) => {
                assert(self.threads@[i as int] == thread);
                true
            },
            None => false,
        }
    }

    /// Defer the collections of `thread`, or do no longer.
    pub fn set_deferred_collection(&mut self, thread: u64, on: bool)
        requires
            old(self).inv(),
        ensures
            final(self).inv(),
            final(self).set_to(old(self), thread, on),
    {
        let ghost was = self.threads@;
        match self.position(thread) {
            Some(i) => {
                assert(was[i as int] == thread);
                if !on {
                    let _gone: u64 = self.threads.remove(i);
                    proof {
                        let now = self.threads@;
                        assert forall|t: u64| #[trigger] now.contains(t) == (was.contains(t) && t
                            != thread) by {
                            if now.contains(t) {
                                let k = choose|k: int| 0 <= k < now.len() && now[k] == t;
                                let o = if k < i { k } else { k + 1 };
                                assert(was[o] == t);
                            }
                            if was.contains(t) && t != thread {
                                let k = choose|k: int| 0 <= k < was.len() && was[k] == t;
                                let o = if k < i { k } else { k - 1 };
                                assert(now[o] == t);
                            }
                        }
                        assert forall|a: int, b: int|
                            0 <= a < now.len() && 0 <= b < now.len() && a != b implies now[a]
                            != now[b] by {
                            let oa = if a < i { a } else { a + 1 };
                            let ob = if b < i { b } else { b + 1 };
                            assert(now[a] == was[oa] && now[b] == was[ob]);
                        }
                    }
                }
            },
            None => {
                if on {
                    self.threads.push(thread);
                    proof {
                        let now = self.threads@;
                        assert(now[was.len() as int] == thread);
                        assert forall|t: u64| #[trigger] now.contains(t) == (was.contains(t) || t
                            == thread) by {
                            if was.contains(t) {
                                let k = choose|k: int| 0 <= k < was.len() && was[k] == t;
                                assert(now[k] == t);
                            }
                        }
                    }
                }
            },
        }
    }
}

/// What the trigger is asked with in an allocation of `thread`.
pub fn trigger_context(
    world: &MutatorWorld,
    deferrals: &Deferrals,
    thread: u64,
    stress: usize,
    quiet: bool,
    ceiling: u64,
    heap_max: u64,
) -> (ctx: TriggerContext)
    ensures
        ctx == (TriggerContext {
            registered: world.registered(thread),
            deferred: deferrals.defers(thread),
            stress,
            quiet,
            ceiling,
            heap_max,
        }),
{
    TriggerContext {
        registered: thread_registered(world, thread),
        deferred: deferrals.is_deferred(thread),
        stress,
        quiet,
        ceiling,
        heap_max,
    }
}

/// Forget a worker: its region goes back to the sweep with it, and its
/// collections are deferred no more.
pub fn gc_unregister_current_os_thread(
    gc: &mut ImmixAllocator,
    world: &mut MutatorWorld,
    deferrals: &mut Deferrals,
    thread: u64,
)
    requires
        old(gc).wf(),
        old(world).inv(),
        old(deferrals).inv(),
    ensures
        final(gc).wf(),
        final(world).inv(),
        final(deferrals).inv(),
        final(deferrals).set_to(old(deferrals), thread, false),
        final(world).parted(old(world), thread),
        final(world).stop_holds(old(world)),
        final(gc).same_registered(old(gc)),
        final(gc).trigger == old(gc).trigger,
        final(gc).stats == old(gc).stats,
        final(gc).space.tables == old(gc).space.tables,
        final(gc).space.memory == old(gc).space.memory,
        !final(gc).space.has_region(thread),
        final(gc).space.same_elsewhere(&old(gc).space),
        forall|o: Tlab| #[trigger]
            final(gc).space.has_tlab(o) <==> old(gc).space.has_tlab(o) && o.thread != thread,
{
    world.unregister(thread);
    deferrals.set_deferred_collection(thread, false);
    gc.space.release_tlab_region(thread);
}

/// Forget a thread, with its region and the stacks it registered, and with the
/// deferral of its collections.
pub fn unregister_thread(
    gc: &mut ImmixAllocator,
    world: &mut MutatorWorld,
    deferrals: &mut Deferrals,
    thread: u64,
)
    requires
        old(gc).wf(),
        old(world).inv(),
        old(deferrals).inv(),
    ensures
        final(gc).wf(),
        final(world).inv(),
        final(deferrals).inv(),
        final(deferrals).set_to(old(deferrals), thread, false),
        final(world).parted(old(world), thread),
        final(world).stop_holds(old(world)),
        final(gc).roots == old(gc).roots,
        final(gc).globals_range == old(gc).globals_range,
        final(gc).root_ranges == old(gc).root_ranges,
        final(gc).handles == old(gc).handles,
        final(gc).finalizables == old(gc).finalizables,
        final(gc).deferred == old(gc).deferred,
        final(gc).trigger == old(gc).trigger,
        final(gc).stats == old(gc).stats,
        final(gc).space.tables == old(gc).space.tables,
        final(gc).space.memory == old(gc).space.memory,
        !final(gc).space.has_region(thread),
        final(gc).space.same_elsewhere(&old(gc).space),
        forall|o: Tlab| #[trigger]
            final(gc).space.has_tlab(o) <==> old(gc).space.has_tlab(o) && o.thread != thread,
        final(gc).fiber_stacks@ == ImmixAllocator::stacks_elsewhere(
            old(gc).fiber_stacks@,
            thread,
        ),
{
    gc_unregister_current_os_thread(gc, world, deferrals, thread);
    gc.drop_stacks_of(thread);
}

/// A thread that defers is not stopped for a collection: while the pressure is
/// under the hard limit, a trigger that is due in its allocation, or in a refill
/// of its region, is recorded and the allocation goes on. `asked` is the heap once
/// the trigger was asked, `after` the heap with the attempt made: no collection
/// ran, and one is pending. Forgetting the thread ends the deferral.
pub proof fn law_deferral_lasts_until_unregistered(
    gc: &ImmixAllocator,
    asked: &ImmixAllocator,
    after: &ImmixAllocator,
    size: int,
    recycle: bool,
    r: Grant,
    before: Deferrals,
    set: Deferrals,
    gone: Deferrals,
    ctx: TriggerContext,
    thread: u64,
)
    requires
        set.set_to(&before, thread, true),
        gone.set_to(&set, thread, false),
        ctx.deferred == set.defers(thread),
        ctx.registered,
        gc.trigger.enabled,
        gc.trigger.due(ctx.stress, ctx.quiet),
        gc.trigger.pressure() < gc.trigger.hard_limit(ctx),
        asked.asked_from(gc, Attempt::First, ctx),
        after.grants(asked, size, Attempt::First, recycle, r),
    ensures
        !gc.stops_first(Attempt::First, ctx),
        after.stats.collections == gc.stats.collections,
        after.trigger.collect_pending,
        gc.trigger.records(TriggerEvent::Asked(ctx)),
        gc.trigger.records(TriggerEvent::Refilled(ctx)),
        !gone.defers(thread),
{
    law_a_deferring_thread_waits(gc.trigger, ctx);
}

} // verus!
