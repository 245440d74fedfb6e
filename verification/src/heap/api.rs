//! What is registered with the allocator: handles, ranges, stacks, and the
//! collector's switches.

use vstd::prelude::*;

use crate::heap::grant::reached;
use crate::heap::handles::Handle;
use crate::heap::immix::{GcStats, ImmixAllocator, Trigger};
use crate::heap::mutators::MutatorWorld;
use crate::heap::roots::{fiber_ok, FiberStackInfo};

verus! {

/// The flag that prints a census after every collection.
pub const GC_FLAG_PROFILE: i32 = 1;

impl ImmixAllocator {
    /// Nothing but the handles differs from `before`.
    pub open spec fn only_handles(&self, before: &ImmixAllocator) -> bool {
        *self == (ImmixAllocator { handles: self.handles, ..*before })
    }

    /// Nothing but the registered ranges differs from `before`.
    pub open spec fn only_ranges(&self, before: &ImmixAllocator) -> bool {
        *self == (ImmixAllocator { root_ranges: self.root_ranges, ..*before })
    }

    /// Nothing but the registered stacks differs from `before`.
    pub open spec fn only_stacks(&self, before: &ImmixAllocator) -> bool {
        *self == (ImmixAllocator { fiber_stacks: self.fiber_stacks, ..*before })
    }

    /// `bytes` outside the heap are charged; nothing else differs from `before`.
    pub open spec fn charged(&self, before: &ImmixAllocator, bytes: usize) -> bool {
        *self == (ImmixAllocator {
            trigger: Trigger {
                external_since_gc: if before.trigger.external_since_gc + bytes <= usize::MAX {
                    (before.trigger.external_since_gc + bytes) as usize
                } else {
                    usize::MAX
                },
                ..before.trigger
            },
            stats: GcStats {
                external_bytes: before.stats.external_bytes.wrapping_add(bytes as u64),
                ..before.stats
            },
            ..*before
        })
    }

    /// The pressure at which the next automatic collection is due, as the last
    /// collection set it.
    pub fn trigger_threshold(&self) -> (n: usize)
        ensures
            n == self.trigger.threshold,
    {
        self.trigger.threshold
    }

    /// A counted root for `ptr`; the null handle for null.
    pub fn handle_new(&mut self, ptr: usize) -> (h: Handle)
        requires
            old(self).wf(),
            ptr == 0 || old(self).handles.room(),
        ensures
            final(self).wf(),
            final(self).only_handles(old(self)),
            final(self).handles.inserted(&old(self).handles, ptr, h),
            ptr == 0 ==> h == Handle(0) && final(self).handles == old(self).handles,
            ptr != 0 ==> h != Handle(0) && old(self).handles.live(h) is None && final(
                self).handles.live(h) == Some((ptr, 1u32)),
            forall|g: Handle|
                g != h ==> #[trigger] final(self).handles.live(g) == old(self).handles.live(g),
    {
        self.handles.insert(ptr)
    }

    /// The address behind a live handle, zero for a released or null one.
    pub fn handle_get(&self, h: Handle) -> (ptr: usize)
        ensures
            ptr == match self.handles.live(h) {
                Some((p, _)) => p,
                None => 0,
            },
    {
        self.handles.get(h)
    }

    pub fn handle_retain(&mut self, h: Handle)
        requires
            old(self).wf(),
            old(self).handles.live(h) matches Some((_, refs)) ==> refs < u32::MAX,
        ensures
            final(self).wf(),
            final(self).only_handles(old(self)),
            final(self).handles.retained(&old(self).handles, h),
            final(self).handles.live(h) == match old(self).handles.live(h) {
                Some((p, refs)) => Some((p, (refs + 1) as u32)),
                None => None,
            },
            forall|g: Handle|
                g != h ==> #[trigger] final(self).handles.live(g) == old(self).handles.live(g),
    {
        self.handles.retain(h);
    }

    pub fn handle_release(&mut self, h: Handle)
        requires
            old(self).wf(),
        ensures
            final(self).wf(),
            final(self).only_handles(old(self)),
            final(self).handles.released(&old(self).handles, h),
            final(self).handles.live(h) == match old(self).handles.live(h) {
                Some((p, refs)) => if refs == 1 {
                    None
                } else {
                    Some((p, (refs - 1) as u32))
                },
                None => None,
            },
            forall|g: Handle|
                g != h ==> #[trigger] final(self).handles.live(g) == old(self).handles.live(g),
    {
        self.handles.release(h);
    }

    /// Scan `len` bytes from `start` at every collection until unregistered.
    /// Nothing for a null or empty range.
    pub fn register_root_range(&mut self, start: usize, len: usize)
        requires
            old(self).wf(),
            start + len <= usize::MAX,
            start + 7 <= usize::MAX,
        ensures
            final(self).wf(),
            final(self).only_ranges(old(self)),
            final(self).root_ranges@ == if start != 0 && len != 0 {
                old(self).root_ranges@.push((start, len))
            } else {
                old(self).root_ranges@
            },
    {
        if start != 0 && len != 0 {
            self.root_ranges.push((start, len));
            proof {
                assert forall|i: int| 0 <= i < self.root_ranges.len() implies (
                #[trigger] self.root_ranges[i]).0 + self.root_ranges[i].1 <= usize::MAX
                    && self.root_ranges[i].0 + 7 <= usize::MAX by {
                    if i < old(self).root_ranges.len() {
                        assert(self.root_ranges[i] == old(self).root_ranges[i]);
                    }
                }
            }
        }
    }

    /// Remove one registration of exactly `(start, len)`: the last takes its
    /// place.
    pub fn unregister_root_range(&mut self, start: usize, len: usize)
        requires
            old(self).wf(),
        ensures
            final(self).wf(),
            final(self).only_ranges(old(self)),
            !old(self).root_ranges@.contains((start, len)) ==> final(self).root_ranges@ == old(
                self,
            ).root_ranges@,
            old(self).root_ranges@.contains((start, len)) ==> final(
                self).root_ranges@.to_multiset() == old(self).root_ranges@.to_multiset().remove(
                (start, len),
            ),
    {
        let mut i: usize = 0;
        while i < self.root_ranges.len()
            invariant
                *self == *old(self),
                old(self).wf(),
                i <= self.root_ranges.len(),
                forall|k: int| 0 <= k < i ==> self.root_ranges@[k] != (start, len),
            decreases self.root_ranges.len() - i,
        {
            let (s, n) = self.root_ranges[i];
            if s == start && n == len {
                let ghost was = self.root_ranges@;
                let _gone: (usize, usize) = self.root_ranges.swap_remove(i);
                proof {
                    let now = self.root_ranges@;
                    assert(was[i as int] == (start, len));
                    assert forall|k: int| 0 <= k < self.root_ranges.len() implies (
                    #[trigger] self.root_ranges[k]).0 + self.root_ranges[k].1 <= usize::MAX
                        && self.root_ranges[k].0 + 7 <= usize::MAX by {
                        let o = if k == i { was.len() - 1 } else { k };
                        assert(now[k] == was[o]);
                        assert(old(self).root_ranges[o] == was[o]);
                    }
                    vstd::seq_lib::to_multiset_remove(was.update(i as int, was.last()), was.len() - 1);
                    vstd::seq_lib::to_multiset_update(was, i as int, was.last());
                    assert(now =~= was.update(i as int, was.last()).remove(was.len() - 1));
                    assert(now.to_multiset() =~= was.to_multiset().remove((start, len)));
                }
                return ;
            }
            i = i + 1;
        }
    }

    /// Register the array of globals.
    pub fn set_globals(&mut self, ptr: usize, count: usize)
        requires
            old(self).wf(),
            ptr + count * 8 <= usize::MAX,
        ensures
            final(self).wf(),
            *final(self) == (ImmixAllocator { globals_range: Some((ptr, count)), ..*old(self) }),
    {
        self.globals_range = Some((ptr, count));
    }

    /// Charge memory outside the heap as pressure on the trigger; it starts
    /// over at every collection.
    pub fn track_external(&mut self, bytes: usize)
        requires
            old(self).wf(),
        ensures
            final(self).wf(),
            final(self).charged(old(self), bytes),
    {
        self.trigger.external_since_gc = self.trigger.external_since_gc.saturating_add(bytes);
        self.stats.external_bytes = self.stats.external_bytes.wrapping_add(bytes as u64);
    }

    /// Whether a stack of thread `thread` under id `id` is registered.
    pub open spec fn has_stack(&self, thread: u64, id: u32) -> bool {
        exists|i: int|
            0 <= i < self.fiber_stacks.len() && (#[trigger] self.fiber_stacks[i]).thread == thread
                && self.fiber_stacks[i].id == id
    }

    /// Register a stack, and with a thread's first one also its main stack,
    /// under id zero.
    pub fn register_fiber_stack(&mut self, thread: u64, id: u32, base: usize, size: usize)
        requires
            old(self).wf(),
            base + size <= usize::MAX,
        ensures
            final(self).wf(),
            final(self).only_stacks(old(self)),
            final(self).fiber_stacks@ == (if old(self).has_stack(thread, 0) {
                old(self).fiber_stacks@
            } else {
                old(self).fiber_stacks@.push(
                    FiberStackInfo { thread, id: 0, base: 0, size: 0, saved_sp: 0 },
                )
            }).push(FiberStackInfo { thread, id, base, size, saved_sp: 0 }),
    {
        let mut known: bool = false;
        let mut i: usize = 0;
        while i < self.fiber_stacks.len()
            invariant
                *self == *old(self),
                i <= self.fiber_stacks.len(),
                known == exists|k: int|
                    0 <= k < i && (#[trigger] self.fiber_stacks[k]).thread == thread
                        && self.fiber_stacks[k].id == 0,
            decreases self.fiber_stacks.len() - i,
        {
            if self.fiber_stacks[i].thread == thread && self.fiber_stacks[i].id == 0 {
                known = true;
            }
            i = i + 1;
        }
        if !known {
            self.fiber_stacks.push(
                FiberStackInfo { thread, id: 0, base: 0, size: 0, saved_sp: 0 },
            );
        }
        self.fiber_stacks.push(FiberStackInfo { thread, id, base, size, saved_sp: 0 });
        proof {
            assert forall|k: int| 0 <= k < self.fiber_stacks.len() implies fiber_ok(
                #[trigger] self.fiber_stacks[k],
            ) by {
                if k < old(self).fiber_stacks.len() {
                    assert(self.fiber_stacks[k] == old(self).fiber_stacks[k]);
                }
            }
        }
    }

    /// The stack an update of `id` by thread `thread` is for: the first of
    /// that id, of the thread's own for a main stack.
    pub open spec fn names_stack(f: FiberStackInfo, thread: u64, id: u32) -> bool {
        f.id == id && (id != 0 || f.thread == thread)
    }

    /// Record where a stack was left.
    pub fn update_fiber_sp(&mut self, thread: u64, id: u32, sp: usize)
        requires
            old(self).wf(),
            sp + 7 <= usize::MAX,
        ensures
            final(self).wf(),
            final(self).only_stacks(old(self)),
            final(self).fiber_stacks.len() == old(self).fiber_stacks.len(),
            forall|i: int|
                0 <= i < final(self).fiber_stacks.len() ==> #[trigger] final(self).fiber_stacks[i]
                    == if ImmixAllocator::names_stack(old(self).fiber_stacks[i], thread, id) && (
                forall|k: int|
                    0 <= k < i ==> !ImmixAllocator::names_stack(
                        #[trigger] old(self).fiber_stacks[k],
                        thread,
                        id,
                    )) {
                    (FiberStackInfo { saved_sp: sp, ..old(self).fiber_stacks[i] })
                } else {
                    old(self).fiber_stacks[i]
                },
    {
        let mut i: usize = 0;
        while i < self.fiber_stacks.len()
            invariant
                *self == *old(self),
                old(self).wf(),
                sp + 7 <= usize::MAX,
                i <= self.fiber_stacks.len(),
                forall|k: int|
                    0 <= k < i ==> !ImmixAllocator::names_stack(
                        #[trigger] self.fiber_stacks[k],
                        thread,
                        id,
                    ),
            decreases self.fiber_stacks.len() - i,
        {
            let f: FiberStackInfo = self.fiber_stacks[i];
            if f.id == id && (id != 0 || f.thread == thread) {
                assert(fiber_ok(self.fiber_stacks[i as int]));
                self.fiber_stacks[i] = FiberStackInfo { saved_sp: sp, ..f };
                proof {
                    assert(ImmixAllocator::names_stack(
                        old(self).fiber_stacks[i as int],
                        thread,
                        id,
                    ));
                    assert forall|k: int| 0 <= k < self.fiber_stacks.len() implies fiber_ok(
                        #[trigger] self.fiber_stacks[k],
                    ) by {
                        if k != i {
                            assert(self.fiber_stacks[k] == old(self).fiber_stacks[k]);
                        }
                    }
                }
                return ;
            }
            i = i + 1;
        }
    }

    /// The stacks left once id `id` is unregistered by thread `thread`: all of
    /// another id, and the main stacks of other threads.
    pub open spec fn stacks_left(
        stacks: Seq<FiberStackInfo>,
        thread: u64,
        id: u32,
    ) -> Seq<FiberStackInfo>
        decreases stacks.len(),
    {
        if stacks.len() == 0 {
            stacks
        } else {
            let init = ImmixAllocator::stacks_left(stacks.drop_last(), thread, id);
            if !ImmixAllocator::names_stack(stacks.last(), thread, id) {
                init.push(stacks.last())
            } else {
                init
            }
        }
    }

    /// Unregister a stack, before its memory is freed.
    pub fn unregister_fiber_stack(&mut self, thread: u64, id: u32)
        requires
            old(self).wf(),
        ensures
            final(self).wf(),
            final(self).only_stacks(old(self)),
            final(self).fiber_stacks@ == ImmixAllocator::stacks_left(
                old(self).fiber_stacks@,
                thread,
                id,
            ),
    {
        let mut left: Vec<FiberStackInfo> = Vec::new();
        let mut i: usize = 0;
        assert(self.fiber_stacks@.take(0) =~= Seq::<FiberStackInfo>::empty());
        while i < self.fiber_stacks.len()
            invariant
                *self == *old(self),
                old(self).wf(),
                i <= self.fiber_stacks.len(),
                left@ == ImmixAllocator::stacks_left(
                    self.fiber_stacks@.take(i as int),
                    thread,
                    id,
                ),
                forall|k: int| 0 <= k < left.len() ==> fiber_ok(#[trigger] left[k]),
            decreases self.fiber_stacks.len() - i,
        {
            assert(self.fiber_stacks@.take(i + 1).drop_last() =~= self.fiber_stacks@.take(
                i as int,
            ));
            let f: FiberStackInfo = self.fiber_stacks[i];
            assert(fiber_ok(self.fiber_stacks[i as int]));
            if !(f.id == id && (id != 0 || f.thread == thread)) {
                left.push(f);
            }
            i = i + 1;
        }
        assert(self.fiber_stacks@.take(i as int) =~= self.fiber_stacks@);
        self.fiber_stacks = left;
    }
}

/// Root `ptr` behind a handle with one reference.
pub fn handle_new(gc: &mut ImmixAllocator, ptr: usize) -> (h: Handle)
    requires
        old(gc).wf(),
        ptr == 0 || old(gc).handles.room(),
    ensures
        final(gc).wf(),
        final(gc).only_handles(old(gc)),
        final(gc).handles.inserted(&old(gc).handles, ptr, h),
        ptr == 0 ==> h == Handle(0),
        ptr != 0 ==> h != Handle(0) && old(gc).handles.live(h) is None && final(gc).handles.live(h) == Some((ptr, 1u32)),
        forall|g: Handle|
            g != h ==> #[trigger] final(gc).handles.live(g) == old(gc).handles.live(g),
{
    gc.handle_new(ptr)
}

/// The address behind `h`; zero once every reference is released.
pub fn handle_get(gc: &ImmixAllocator, h: Handle) -> (ptr: usize)
    ensures
        ptr == match gc.handles.live(h) {
            Some((p, _)) => p,
            None => 0,
        },
{
    if h.is_null() {
        return 0;
    }
    gc.handle_get(h)
}

/// One more reference to `h`'s slot.
pub fn handle_retain(gc: &mut ImmixAllocator, h: Handle)
    requires
        old(gc).wf(),
        old(gc).handles.live(h) matches Some((_, refs)) ==> refs < u32::MAX,
    ensures
        final(gc).wf(),
        final(gc).only_handles(old(gc)),
        final(gc).handles.retained(&old(gc).handles, h),
        final(gc).handles.live(h) == match old(gc).handles.live(h) {
            Some((p, refs)) => Some((p, (refs + 1) as u32)),
            None => None,
        },
        forall|g: Handle|
            g != h ==> #[trigger] final(gc).handles.live(g) == old(gc).handles.live(g),
{
    if h.is_null() {
        return ;
    }
    gc.handle_retain(h);
}

/// One reference fewer; at zero the slot is free and roots nothing.
pub fn handle_release(gc: &mut ImmixAllocator, h: Handle)
    requires
        old(gc).wf(),
    ensures
        final(gc).wf(),
        final(gc).only_handles(old(gc)),
        final(gc).handles.released(&old(gc).handles, h),
        final(gc).handles.live(h) == match old(gc).handles.live(h) {
            Some((p, refs)) => if refs == 1 {
                None
            } else {
                Some((p, (refs - 1) as u32))
            },
            None => None,
        },
        forall|g: Handle|
            g != h ==> #[trigger] final(gc).handles.live(g) == old(gc).handles.live(g),
{
    if h.is_null() {
        return ;
    }
    gc.handle_release(h);
}

/// Charge memory outside the heap as pressure on the trigger.
pub fn track_external(gc: &mut ImmixAllocator, bytes: usize)
    requires
        old(gc).wf(),
    ensures
        final(gc).wf(),
        final(gc).charged(old(gc), bytes),
{
    gc.track_external(bytes);
}

/// Let triggers collect, or not. An explicit collection, and one for want of
/// memory, are not affected.
pub fn enable(trigger: &mut Trigger, b: bool)
    ensures
        *final(trigger) == (Trigger { enabled: b, ..*old(trigger) }),
{
    trigger.enabled = b;
}

/// The collector's flag word.
pub fn get_flags(trigger: &Trigger) -> (f: i32)
    ensures
        f == trigger.flags,
{
    trigger.flags
}

/// Set the flag word, kept whole.
pub fn set_flags(trigger: &mut Trigger, f: i32)
    ensures
        *final(trigger) == (Trigger { flags: f, ..*old(trigger) }),
{
    trigger.flags = f;
}

/// Set or clear the census flag, and no other.
pub fn profile(trigger: &mut Trigger, b: bool)
    ensures
        final(trigger).flags == if b {
            old(trigger).flags | GC_FLAG_PROFILE
        } else {
            old(trigger).flags & !GC_FLAG_PROFILE
        },
        *final(trigger) == (Trigger { flags: final(trigger).flags, ..*old(trigger) }),
{
    if b {
        trigger.flags = trigger.flags | GC_FLAG_PROFILE;
    } else {
        trigger.flags = trigger.flags & !GC_FLAG_PROFILE;
    }
}

/// Collections completed so far, given-up ones excluded.
pub fn collections(stats: &GcStats) -> (n: u64)
    ensures
        n == stats.collections,
{
    stats.collections
}

/// Whether a collector waits for the world to stop.
pub fn stop_requested(world: &MutatorWorld) -> (r: bool)
    ensures
        r == world.stop_requested,
{
    world.stop_requested
}

/// How long a collection took.
pub fn record_pause(stats: &mut GcStats, ns: u64)
    ensures
        *final(stats) == (GcStats {
            pause_ns_total: old(stats).pause_ns_total.wrapping_add(ns),
            pause_ns_max: if ns > old(stats).pause_ns_max {
                ns
            } else {
                old(stats).pause_ns_max
            },
            ..*old(stats)
        }),
{
    stats.pause_ns_total = stats.pause_ns_total.wrapping_add(ns);
    if ns > stats.pause_ns_max {
        stats.pause_ns_max = ns;
    }
}

/// The bytes of mark bits for `data_size` bytes of data: one bit a word, in
/// whole 32-bit words.
pub fn mark_size(data_size: i32) -> (r: i32)
    requires
        data_size >= 0,
    ensures
        r == ((data_size + 7) / 8 + 31) / 32 * 4,
{
    let words: i64 = (data_size as i64 + 7) / 8;
    ((words + 31) / 32 * 4) as i32
}

/// The census flag is one bit: the others keep their values, and setting then
/// clearing it leaves it clear.
pub proof fn law_profile_is_one_bit(flags: i32)
    ensures
        (flags | 1) & 1 == 1,
        (flags & !1i32) & 1 == 0,
        (flags | 1) & !1i32 == flags & !1i32,
        (flags & !1i32) | 1 == flags | 1,
{
    assert((flags | 1) & 1 == 1 && (flags & !1i32) & 1 == 0 && (flags | 1) & !1i32 == flags & !1i32
        && (flags & !1i32) | 1 == flags | 1) by (bit_vector);
}

/// Memory outside the heap counts. Charging it collects nothing and undoes
/// nothing that is due; once a threshold of it is charged, at whatever moment, a
/// collection is due by the counters. What the trigger itself goes by is due
/// once the charges since the last collection have reached the threshold.
pub proof fn law_external_pressure_is_due(
    before: &ImmixAllocator,
    after: &ImmixAllocator,
    bytes: usize,
    quiet: bool,
)
    requires
        before.paced(),
        after.charged(before, bytes),
        after.bytes_grew(before),
    ensures
        after.paced(),
        after.stats.collections == before.stats.collections,
        after.space == before.space,
        reached(before.trigger, before.stats, 0) ==> reached(after.trigger, after.stats, 0),
        bytes >= before.trigger.threshold ==> reached(after.trigger, after.stats, 0),
        before.trigger.external_since_gc + bytes >= before.trigger.threshold ==> after.trigger.due(
            0,
            quiet,
        ),
{
}

} // verus!
