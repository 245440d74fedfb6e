//! Allocation through the allocator: the trigger first, then a place, with
//! the accounts kept.

use vstd::prelude::*;

use crate::heap::immix::{GcStats, ImmixAllocator, Trigger};
use crate::heap::large::block_count;
use crate::heap::layout::{lemma_plain_code, quantum_up, round_quantum, BLOCK_SIZE, LINE_SIZE};
use crate::heap::sizing::{disabled_limit, triggered_collection_allowed};
use crate::heap::space::{last_fit, Space};

verus! {

/// Why a collection is started.
pub const ORIGIN_SNAPSHOT: u8 = 1;

pub const ORIGIN_TLAB: u8 = 2;

pub const ORIGIN_PRESSURE: u8 = 3;

pub const ORIGIN_EXHAUSTION: u8 = 4;

pub const ORIGIN_LARGE: u8 = 5;

pub const ORIGIN_EXPLICIT: u8 = 6;

/// The name of a collection's origin.
pub open spec fn origin_text(o: u8) -> Seq<char> {
    if o == 0 {
        "?"@
    } else if o == 1 {
        "snapshot-done"@
    } else if o == 2 {
        "tlab-safepoint"@
    } else if o == 3 {
        "hard-pressure"@
    } else if o == 4 {
        "exhaustion"@
    } else if o == 5 {
        "large-exhaustion"@
    } else {
        "explicit"@
    }
}

pub fn origin_name(o: u8) -> (s: &'static str)
    ensures
        s@ == origin_text(o),
{
    if o == 0 {
        "?"
    } else if o == 1 {
        "snapshot-done"
    } else if o == 2 {
        "tlab-safepoint"
    } else if o == 3 {
        "hard-pressure"
    } else if o == 4 {
        "exhaustion"
    } else if o == 5 {
        "large-exhaustion"
    } else {
        "explicit"
    }
}

/// What the trigger depends on beside the accounts.
#[derive(Clone, Copy, Debug)]
pub struct TriggerContext {
    /// The current thread is a registered mutator.
    pub registered: bool,
    /// Its roots are complete only at its own safepoints.
    pub deferred: bool,
    /// Collect at every allocation of this many; zero for off.
    pub stress: usize,
    /// The heartbeat interval has passed since the last collection.
    pub quiet: bool,
    pub ceiling: u64,
    pub heap_max: u64,
}

/// What the trigger asks for.
#[derive(Clone, Copy, Debug, PartialEq, Eq, Structural)]
pub enum Due {
    Nothing,
    /// A collection, at the next safepoint.
    Later,
    /// A collection, now.
    Now,
}

/// What may happen to the trigger.
#[derive(Clone, Copy, Debug)]
pub enum TriggerEvent {
    /// An allocation asked it.
    Asked(TriggerContext),
    /// A refill asked it.
    Refilled(TriggerContext),
    /// A collection completed.
    Collected,
    /// Anything else, a stop that was given up among it.
    Other,
}

impl Trigger {
    /// Whether this event records a collection to come.
    pub open spec fn records(&self, e: TriggerEvent) -> bool {
        match e {
            TriggerEvent::Asked(ctx) => self.asks(ctx) == Due::Later,
            TriggerEvent::Refilled(ctx) => self.refill_asks(ctx) == Due::Later,
            _ => false,
        }
    }

    /// What an event does to the collection to come: one that is recorded stays
    /// until a collection completes.
    pub open spec fn stepped(&self, before: &Trigger, e: TriggerEvent) -> bool {
        self.collect_pending == if e is Collected {
            false
        } else {
            before.collect_pending || before.records(e)
        }
    }

    /// Bytes allocated and charged since the last collection.
    pub open spec fn pressure(&self) -> usize {
        if self.bytes_since_gc + self.external_since_gc <= usize::MAX {
            (self.bytes_since_gc + self.external_since_gc) as usize
        } else {
            usize::MAX
        }
    }

    /// Whether an automatic collection is owed: under stress at every `n`th
    /// allocation; else once the pressure reaches the threshold, or when the
    /// heap has been quiet for a heartbeat, looked at every 1024 allocations.
    pub open spec fn due(&self, stress: usize, quiet: bool) -> bool {
        if stress > 0 {
            self.alloc_count + 1 >= stress
        } else {
            self.pressure() >= self.threshold || (self.alloc_count % 1024 == 0 && quiet)
        }
    }

    /// The pressure past which a collection is not put off.
    pub open spec fn hard_limit(&self, ctx: TriggerContext) -> int {
        let wide = if self.threshold * 4 > ctx.ceiling {
            self.threshold * 4
        } else {
            ctx.ceiling as int
        };
        if wide < ctx.heap_max / 2 {
            wide
        } else {
            (ctx.heap_max / 2) as int
        }
    }

    /// What an allocation's trigger asks for.
    pub open spec fn asks(&self, ctx: TriggerContext) -> Due {
        if !ctx.registered || !self.due(ctx.stress, ctx.quiet) || !(self.enabled || self.pressure()
            >= disabled_limit(ctx.ceiling as int, ctx.heap_max as int)) {
            Due::Nothing
        } else if (self.safepoint_mode || ctx.deferred) && self.pressure() < self.hard_limit(ctx) {
            Due::Later
        } else {
            Due::Now
        }
    }

    fn current_pressure(&self) -> (p: usize)
        ensures
            p == self.pressure(),
    {
        self.bytes_since_gc.saturating_add(self.external_since_gc)
    }

    /// Whether an automatic collection is owed.
    pub fn collection_due(&self, stress: usize, quiet: bool) -> (r: bool)
        ensures
            r == self.due(stress, quiet),
    {
        if stress > 0 {
            return self.alloc_count >= stress - 1;
        }
        self.current_pressure() >= self.threshold || (self.alloc_count % 1024 == 0 && quiet)
    }

    /// Decide at an allocation whether to collect. No automatic collection
    /// before the thread is a mutator: its pointers could not be seen. One that
    /// has to wait is recorded.
    pub fn maybe_collect(&mut self, ctx: TriggerContext) -> (r: Due)
        ensures
            r == old(self).asks(ctx),
            *final(self) == (Trigger {
                collect_pending: old(self).collect_pending || r == Due::Later,
                ..*old(self)
            }),
    {
        if !ctx.registered {
            return Due::Nothing;
        }
        if !self.collection_due(ctx.stress, ctx.quiet) {
            return Due::Nothing;
        }
        let pressure: usize = self.current_pressure();
        if !triggered_collection_allowed(self.enabled, pressure as u64, ctx.ceiling, ctx.heap_max) {
            return Due::Nothing;
        }
        if self.safepoint_mode || ctx.deferred {
            let wide: u64 = match (self.threshold as u64).checked_mul(4) {
                Some(n) => if n > ctx.ceiling {
                    n
                } else {
                    ctx.ceiling
                },
                None => u64::MAX,
            };
            let most: u64 = ctx.heap_max / 2;
            let hard: u64 = if wide < most {
                wide
            } else {
                most
            };
            if (pressure as u64) < hard {
                self.collect_pending = true;
                return Due::Later;
            }
        }
        Due::Now
    }

    /// What a refill of a thread's region asks for. A refill is a safepoint: what
    /// is due, or was put off, is collected there. The roots of a thread that
    /// defers are complete only where it polls, so for it a refill is an
    /// allocation like any other.
    pub open spec fn refill_asks(&self, ctx: TriggerContext) -> Due {
        if ctx.deferred {
            self.asks(ctx)
        } else if ctx.registered && (self.due(ctx.stress, ctx.quiet) || self.collect_pending) && (
        self.enabled || self.pressure() >= disabled_limit(
            ctx.ceiling as int,
            ctx.heap_max as int,
        )) {
            Due::Now
        } else {
            Due::Nothing
        }
    }

    /// Decide at a refill whether to collect; a collection that has to wait is
    /// recorded.
    pub fn maybe_collect_at_refill(&mut self, ctx: TriggerContext) -> (r: Due)
        ensures
            r == old(self).refill_asks(ctx),
            *final(self) == (Trigger {
                collect_pending: old(self).collect_pending || r == Due::Later,
                ..*old(self)
            }),
    {
        if ctx.deferred {
            return self.maybe_collect(ctx);
        }
        if self.maybe_collect_at_safepoint(ctx) {
            Due::Now
        } else {
            Due::Nothing
        }
    }

    /// Decide at a point known to be a safepoint: what is due, or was put off,
    /// is collected there.
    pub fn maybe_collect_at_safepoint(&self, ctx: TriggerContext) -> (collect: bool)
        ensures
            collect == (ctx.registered && (self.due(ctx.stress, ctx.quiet) || self.collect_pending)
                && (self.enabled || self.pressure() >= disabled_limit(
                ctx.ceiling as int,
                ctx.heap_max as int,
            ))),
    {
        if !ctx.registered {
            return false;
        }
        if !(self.collection_due(ctx.stress, ctx.quiet) || self.collect_pending) {
            return false;
        }
        triggered_collection_allowed(
            self.enabled,
            self.current_pressure() as u64,
            ctx.ceiling,
            ctx.heap_max,
        )
    }

    /// The accounts after an allocation.
    pub open spec fn charged(&self, before: &Trigger, bytes: int, counted: bool) -> bool {
        *self == (Trigger {
            alloc_count: if counted && before.alloc_count < usize::MAX {
                (before.alloc_count + 1) as usize
            } else {
                before.alloc_count
            },
            bytes_since_gc: if before.bytes_since_gc + bytes <= usize::MAX {
                (before.bytes_since_gc + bytes) as usize
            } else {
                usize::MAX
            },
            ..*before
        })
    }

    pub(crate) fn charge(&mut self, bytes: usize, counted: bool)
        ensures
            final(self).charged(old(self), bytes as int, counted),
    {
        if counted {
            self.alloc_count = self.alloc_count.saturating_add(1);
        }
        self.bytes_since_gc = self.bytes_since_gc.saturating_add(bytes);
    }
}

/// Whether the cumulative counters have reached the mark the last collection
/// set; under stress, whether anything was allocated since.
pub open spec fn reached(trigger: Trigger, stats: GcStats, stress: usize) -> bool {
    if stress > 0 {
        stats.bytes_allocated > trigger.allocated_at_collect
    } else {
        stats.bytes_allocated + stats.external_bytes >= trigger.next_trigger_at
    }
}

/// Whether the trigger is due, from the cumulative counters alone: see
/// [`reached`].
pub fn should_collect(trigger: &Trigger, stats: &GcStats, stress: usize) -> (r: bool)
    ensures
        r == reached(*trigger, *stats, stress),
{
    if stress > 0 {
        return stats.bytes_allocated > trigger.allocated_at_collect;
    }
    match stats.bytes_allocated.checked_add(stats.external_bytes) {
        Some(sum) => sum >= trigger.next_trigger_at,
        None => true,
    }
}

/// Whether a trigger fired where the collection had to wait, and none has run
/// since.
pub fn collect_pending(trigger: &Trigger) -> (r: bool)
    ensures
        r == trigger.collect_pending,
{
    trigger.collect_pending
}

/// How far an allocation has come.
#[derive(Clone, Copy, Debug, PartialEq, Eq, Structural)]
pub enum Attempt {
    /// Not tried: ask the trigger first.
    First,
    /// The trigger's collection has run.
    Triggered,
    /// A collection for want of memory has run.
    Exhausted,
}

impl Attempt {
    /// The attempt that follows a collection started for this reason: one for
    /// want of memory is the last, one the trigger asked for is not.
    pub open spec fn after(origin: u8) -> Attempt {
        if origin == ORIGIN_PRESSURE || origin == ORIGIN_TLAB {
            Attempt::Triggered
        } else {
            Attempt::Exhausted
        }
    }

    /// [`Self::after`].
    pub fn after_collect(origin: u8) -> (a: Attempt)
        ensures
            a == Attempt::after(origin),
    {
        if origin == ORIGIN_PRESSURE || origin == ORIGIN_TLAB {
            Attempt::Triggered
        } else {
            Attempt::Exhausted
        }
    }
}

/// What became of an attempt to allocate.
#[derive(Clone, Copy, Debug, PartialEq, Eq, Structural)]
pub enum Grant {
    /// The address of the new allocation.
    At(usize),
    /// Collect, for this reason, and try again.
    Collect(u8),
    OutOfMemory,
}

/// The bytes an allocation of `size` takes: at least a word, in quanta.
pub open spec fn granted(size: int) -> int {
    quantum_up(
        if size < 8 {
            8
        } else {
            size
        },
    )
}

impl ImmixAllocator {
    /// Whether this attempt asks the trigger and it wants a collection now.
    pub open spec fn stops_first(&self, attempt: Attempt, ctx: TriggerContext) -> bool {
        attempt == Attempt::First && self.trigger.asks(ctx) == Due::Now
    }

    /// Attempt to allocate `size` zeroed bytes. The trigger may ask for a
    /// collection first; for want of memory one is asked for once, or, for
    /// more than a block, for as long as enough blocks are free.
    #[verifier::rlimit(60)]
    #[verifier::spinoff_prover]
    pub fn allocate(
        &mut self,
        size: usize,
        attempt: Attempt,
        ctx: TriggerContext,
        recycle: bool,
    ) -> (r: Grant)
        requires
            old(self).wf(),
            size + 15 <= usize::MAX,
        ensures
            final(self).wf(),
            final(self).same_registered(old(self)),
            old(self).unclaimed() ==> final(self).unclaimed() && final(self).claims_ok(),
            final(self).space.tlabs@ == old(self).space.tlabs@,
            final(self).space.memory.base == old(self).space.memory.base,
            old(self).paced() && final(self).bytes_grew(old(self)) ==> final(self).paced(),
            final(self).trigger.stepped(
                &old(self).trigger,
                if attempt == Attempt::First {
                    TriggerEvent::Asked(ctx)
                } else {
                    TriggerEvent::Other
                },
            ),
            old(self).stops_first(attempt, ctx) ==> r == Grant::Collect(ORIGIN_PRESSURE)
                && *final(self) == *old(self),
            !old(self).stops_first(attempt, ctx) ==> exists|asked: ImmixAllocator| #[trigger]
                asked.asked_from(old(self), attempt, ctx) && final(self).grants(
                    &asked,
                    size as int,
                    attempt,
                    recycle,
                    r,
                ),
    {
        let wanted: usize = if size < 8 {
            8
        } else {
            size
        };
        let aligned: usize = round_quantum(wanted);
        match attempt {
            Attempt::First => {
                if let Due::Now = self.trigger.maybe_collect(ctx) {
                    proof {
                        if old(self).unclaimed() {
                            self.lemma_unclaimed_ok();
                        }
                    }
                    return Grant::Collect(ORIGIN_PRESSURE);
                }
            },
            _ => {},
        }
        assert(self.asked_from(old(self), attempt, ctx));
        let r: Grant = if aligned > BLOCK_SIZE {
            self.allocate_large(wanted, attempt)
        } else {
            self.allocate_in_block(aligned, attempt, recycle)
        };
        proof {
            if old(self).unclaimed() {
                self.lemma_unclaimed_ok();
            }
        }
        r
    }

    /// Attempt to allocate `aligned` bytes, at most a block.
    #[verifier::rlimit(60)]
    #[verifier::spinoff_prover]
    fn allocate_in_block(&mut self, aligned: usize, attempt: Attempt, recycle: bool) -> (r: Grant)
        requires
            old(self).wf(),
            aligned % 16 == 0,
            0 < aligned <= 32768,
        ensures
            final(self).wf(),
            final(self).same_registered(old(self)),
            old(self).unclaimed() ==> final(self).unclaimed(),
            final(self).space.tlabs@ == old(self).space.tlabs@,
            final(self).space.memory.base == old(self).space.memory.base,
            final(self).grants_small(old(self), aligned as int, attempt, recycle, r),
    {
        let last: bool = match attempt {
            Attempt::Exhausted => true,
            _ => false,
        };
        let fitted: bool = self.space.fits(aligned);
        let free_before: usize = self.space.free_blocks.len();
        let placed: Option<usize> = if last {
            self.space.allocate_in_free_block(aligned)
        } else {
            self.space.allocate_small(aligned, recycle)
        };
        match placed {
            Some(point) => {
                proof {
                    if old(self).unclaimed() {
                        ImmixAllocator::lemma_unclaimed_kept(
                            &self.space,
                            &old(self).space,
                            point as int / 16,
                        );
                    }
                }
                if !last && !fitted && self.space.free_blocks.len() == free_before {
                    let lines: usize = (self.space.current_block_end - point) / LINE_SIZE;
                    self.stats.lines_recycled =
                    self.stats.lines_recycled.wrapping_add(lines as u64);
                }
                self.trigger.charge(aligned, true);
                self.stats.bytes_allocated = self.stats.bytes_allocated.wrapping_add(
                    aligned as u64,
                );
                Grant::At(self.space.memory.base + point)
            },
            None => {
                match attempt {
                    Attempt::Exhausted => Grant::OutOfMemory,
                    _ => Grant::Collect(ORIGIN_EXHAUSTION),
                }
            },
        }
    }

    /// `before` once the trigger was asked: it may have recorded a collection
    /// to come.
    pub open spec fn asked_from(
        &self,
        before: &ImmixAllocator,
        attempt: Attempt,
        ctx: TriggerContext,
    ) -> bool {
        &&& self.space == before.space
        &&& self.same_registered(before)
        &&& self.stats == before.stats
        &&& self.trigger == (Trigger {
            collect_pending: before.trigger.collect_pending || (attempt == Attempt::First
                && before.trigger.asks(ctx) == Due::Later),
            ..before.trigger
        })
    }

    /// What an attempt gives once the trigger has been asked.
    pub open spec fn grants(
        &self,
        before: &ImmixAllocator,
        size: int,
        attempt: Attempt,
        recycle: bool,
        r: Grant,
    ) -> bool {
        let aligned = granted(size);
        if aligned > 32768 {
            self.grants_large(before, size, attempt, r)
        } else {
            self.grants_small(before, aligned, attempt, recycle, r)
        }
    }

    /// How many recycled lines an attempt at `aligned` bytes takes: the whole of
    /// the run it opens, and none where the bump region has room.
    pub open spec fn lines_taken(&self, aligned: int, recycle: bool) -> int {
        let at = last_fit(self.space.recycle_spans@, Space::want_lines(aligned));
        if !self.space.bump_fits(aligned) && recycle && at >= 0 {
            self.space.recycle_spans[at].2 as int
        } else {
            0
        }
    }

    /// Where an attempt at `aligned` bytes, no more than a block, puts them. One
    /// after a collection for want of memory asks for a whole free block only.
    pub open spec fn placed(
        &self,
        before: &ImmixAllocator,
        aligned: int,
        attempt: Attempt,
        recycle: bool,
        point: Option<usize>,
    ) -> bool {
        if attempt == Attempt::Exhausted {
            self.space.block_outcome(&before.space, point, aligned)
        } else {
            self.space.small_outcome(&before.space, point, aligned, recycle)
        }
    }

    /// What an attempt at no more than a block gives.
    pub open spec fn grants_small(
        &self,
        before: &ImmixAllocator,
        aligned: int,
        attempt: Attempt,
        recycle: bool,
        r: Grant,
    ) -> bool {
        match r {
            Grant::At(addr) => {
                let point = addr - before.space.memory.base;
                &&& point >= 0
                &&& self.placed(before, aligned, attempt, recycle, Some(point as usize))
                &&& self.trigger.charged(&before.trigger, aligned, true)
                &&& self.stats == (GcStats {
                    bytes_allocated: before.stats.bytes_allocated.wrapping_add(aligned as u64),
                    lines_recycled: if attempt == Attempt::Exhausted {
                        before.stats.lines_recycled
                    } else {
                        before.stats.lines_recycled.wrapping_add(
                            before.lines_taken(aligned, recycle) as u64,
                        )
                    },
                    ..before.stats
                })
            },
            Grant::Collect(o) => {
                &&& o == ORIGIN_EXHAUSTION
                &&& attempt != Attempt::Exhausted
                &&& self.placed(before, aligned, attempt, recycle, None)
                &&& self.trigger == before.trigger
                &&& self.stats == before.stats
            },
            Grant::OutOfMemory => {
                &&& attempt == Attempt::Exhausted
                &&& self.placed(before, aligned, attempt, recycle, None)
                &&& self.trigger == before.trigger
                &&& self.stats == before.stats
            },
        }
    }

    /// What an attempt at more than a block gives.
    pub open spec fn grants_large(
        &self,
        before: &ImmixAllocator,
        size: int,
        attempt: Attempt,
        r: Grant,
    ) -> bool {
        let n = Space::blocks_for(size);
        &&& self.space.recycle_spans == before.space.recycle_spans
        &&& self.space.allocation_point == before.space.allocation_point
        &&& self.space.current_block_end == before.space.current_block_end
        &&& match r {
            Grant::At(addr) => {
                let start = addr - before.space.memory.base;
                &&& start >= 0
                &&& self.space.large_at(&before.space, start, size)
                &&& forall|a: int| a < start ==> !#[trigger] before.space.run_free(a, n)
                &&& self.trigger.charged(&before.trigger, n * 32768, false)
                &&& self.stats == (GcStats {
                    bytes_allocated: before.stats.bytes_allocated.wrapping_add((n * 32768) as u64),
                    ..before.stats
                })
            },
            Grant::Collect(o) => {
                &&& o == ORIGIN_LARGE
                &&& attempt == Attempt::Exhausted ==> before.space.free_blocks.len() >= n
                &&& forall|a: int| !#[trigger] before.space.run_free(a, n)
                &&& self.space.tables == before.space.tables
                &&& self.space.memory == before.space.memory
                &&& forall|a: int| #[trigger] self.space.is_free(a) == before.space.is_free(a)
                &&& self.trigger == before.trigger
                &&& self.stats == before.stats
            },
            Grant::OutOfMemory => {
                &&& attempt == Attempt::Exhausted
                &&& before.space.free_blocks.len() < n
                &&& *self == *before
            },
        }
    }

    /// Attempt to allocate `size` bytes, more than a block. After a collection
    /// for it the search goes on only while enough blocks are free.
    #[verifier::rlimit(60)]
    #[verifier::spinoff_prover]
    fn allocate_large(&mut self, size: usize, attempt: Attempt) -> (r: Grant)
        requires
            old(self).wf(),
            32768 < size,
            size + 15 <= usize::MAX,
        ensures
            final(self).wf(),
            final(self).same_registered(old(self)),
            old(self).unclaimed() ==> final(self).unclaimed(),
            final(self).space.tlabs@ == old(self).space.tlabs@,
            final(self).space.memory.base == old(self).space.memory.base,
            final(self).grants_large(old(self), size as int, attempt, r),
    {
        let n: usize = block_count(size);
        match attempt {
            Attempt::Exhausted => {
                if self.space.free_blocks.len() < n {
                    return Grant::OutOfMemory;
                }
            },
            _ => {},
        }
        match self.space.allocate_large(size) {
            Some(start) => {
                proof {
                    if old(self).unclaimed() {
                        ImmixAllocator::lemma_unclaimed_kept(
                            &self.space,
                            &old(self).space,
                            start as int / 16,
                        );
                    }
                }
                assert(n * 32768 <= old(self).space.tables.size());
                self.trigger.charge(n * BLOCK_SIZE, false);
                self.stats.bytes_allocated = self.stats.bytes_allocated.wrapping_add(
                    (n * BLOCK_SIZE) as u64,
                );
                Grant::At(self.space.memory.base + start)
            },
            None => Grant::Collect(ORIGIN_LARGE),
        }
    }

    /// An allocation brings no claim.
    pub proof fn lemma_unclaimed_kept(now: &Space, was: &Space, q: int)
        requires
            forall|p: int| !#[trigger] was.tables.claimed(p),
            forall|b: int|
                0 <= b < was.tables.blocks.len() && (#[trigger] was.tables.blocks[b]).used
                    ==> was.tables.blocks[b].clear(),
            was.tables.marks_seen(),
            now.no_new_marks(was),
            forall|p: int|
                p != q && #[trigger] now.tables.is_start(p) ==> was.tables.is_start(p)
                    && now.tables.objects[p] == was.tables.objects[p],
            now.tables.objects[q] <= 9,
        ensures
            forall|p: int| !#[trigger] now.tables.claimed(p),
            forall|b: int|
                0 <= b < now.tables.blocks.len() && (#[trigger] now.tables.blocks[b]).used
                    ==> now.tables.blocks[b].clear(),
            now.tables.marks_seen(),
    {
        lemma_plain_code(now.tables.objects[q]);
        assert forall|p: int| !#[trigger] now.tables.claimed(p) by {
            if p != q && now.tables.is_start(p) {
                assert(!was.tables.claimed(p));
            }
        }
        assert forall|b: int| 0 <= b < now.tables.blocks.len() && (
        #[trigger] now.tables.blocks[b]).used implies now.tables.blocks[b].clear() by {
            if !now.tables.blocks[b].clear() {
                now.tables.blocks[b].lemma_same_bits(&was.tables.blocks[b]);
                assert(was.tables.blocks[b].clear());
            }
        }
        assert forall|b: int|
            0 <= b < now.tables.blocks.len()
                && !(#[trigger] now.tables.blocks[b]).any_marked implies now.tables.blocks[b].clear() by {
            if !now.tables.blocks[b].clear() {
                now.tables.blocks[b].lemma_same_bits(&was.tables.blocks[b]);
                assert(was.tables.blocks[b].clear());
            }
        }
    }
}

/// A trigger that fires inside a deferring thread's allocation is recorded, not
/// collected there, at a refill as anywhere else, while the pressure is under
/// the hard limit.
pub proof fn law_a_deferring_thread_waits(t: Trigger, ctx: TriggerContext)
    requires
        ctx.deferred,
        t.pressure() < t.hard_limit(ctx),
    ensures
        t.asks(ctx) != Due::Now,
        t.refill_asks(ctx) != Due::Now,
        ctx.registered && t.enabled && t.due(ctx.stress, ctx.quiet) ==> t.asks(ctx) == Due::Later
            && t.refill_asks(ctx) == Due::Later,
{
}

/// An allocation collects at most twice, once for the trigger and once for want
/// of memory: the attempt that follows a collection does not ask the trigger,
/// and the one that follows a collection for want of memory ends, for no more
/// than a block.
pub proof fn law_one_collection_for_want_of_memory(
    gc: &ImmixAllocator,
    after: &ImmixAllocator,
    size: int,
    origin: u8,
    ctx: TriggerContext,
    recycle: bool,
    r: Grant,
)
    requires
        granted(size) <= 32768,
        after.grants(gc, size, Attempt::after(origin), recycle, r),
    ensures
        !gc.stops_first(Attempt::after(origin), ctx),
        r matches Grant::Collect(o) ==> Attempt::after(o) == Attempt::Exhausted,
        Attempt::after(origin) == Attempt::Exhausted ==> !(r is Collect),
{
}

/// A collection is pending exactly when a trigger was recorded instead of run and
/// no collection has completed since. `history` is the trigger after each of the
/// events, from a fresh one on.
pub proof fn law_pending_until_collected(history: Seq<Trigger>, events: Seq<TriggerEvent>)
    requires
        history.len() == events.len() + 1,
        !history[0].collect_pending,
        forall|i: int|
            0 <= i < events.len() ==> (#[trigger] history[i + 1]).stepped(&history[i], events[i]),
    ensures
        history.last().collect_pending <==> exists|i: int|
            0 <= i < events.len() && #[trigger] history[i].records(events[i]) && forall|j: int|
                i < j < events.len() ==> !((#[trigger] events[j]) is Collected),
    decreases events.len(),
{
    if events.len() > 0 {
        let n = events.len() - 1;
        let h = history.drop_last();
        let e = events.drop_last();
        assert forall|i: int| 0 <= i < e.len() implies (#[trigger] h[i + 1]).stepped(
            &h[i],
            e[i],
        ) by {
            assert(history[i + 1].stepped(&history[i], events[i]));
        }
        law_pending_until_collected(h, e);
        assert(history[n + 1].stepped(&history[n], events[n]));
        assert(h.last() == history[n]);
        if history.last().collect_pending {
            if history[n].records(events[n]) {
                assert(history[n].records(events[n]));
            } else {
                let i = choose|i: int|
                    0 <= i < e.len() && #[trigger] h[i].records(e[i]) && forall|j: int|
                        i < j < e.len() ==> !((#[trigger] e[j]) is Collected);
                assert(history[i].records(events[i]));
                assert forall|j: int| i < j < events.len() implies !(
                (#[trigger] events[j]) is Collected) by {
                    if j < n {
                        assert(e[j] == events[j]);
                    }
                }
            }
        }
        if exists|i: int|
            0 <= i < events.len() && #[trigger] history[i].records(events[i]) && forall|j: int|
                i < j < events.len() ==> !((#[trigger] events[j]) is Collected) {
            let i = choose|i: int|
                0 <= i < events.len() && #[trigger] history[i].records(events[i]) && forall|j: int|
                    i < j < events.len() ==> !((#[trigger] events[j]) is Collected);
            if i < n {
                assert(h[i].records(e[i]));
                assert forall|j: int| i < j < e.len() implies !((#[trigger] e[j]) is Collected) by {
                    assert(e[j] == events[j]);
                }
                assert(!(events[n] is Collected));
            }
        }
    }
}

} // verus!
