//! The allocator's entry points: mutator allocation, allocation kinds, and
//! what a hosted collector asks of the side table.

use vstd::prelude::*;

use crate::heap::grant::{
    granted, Attempt, Due, Grant, TriggerContext, TriggerEvent, ORIGIN_EXHAUSTION, ORIGIN_PRESSURE, ORIGIN_TLAB,
};
use crate::heap::hooks::TypeHooks;
use crate::heap::immix::{GcStats, ImmixAllocator, Trigger};
use crate::heap::layout::{
    lemma_kind_bits, round_quantum, ALLOC_QUANTUM, BLOCK_SIZE, LINE_SIZE, OBJECT_KIND_NOPTR,
    OBJECT_KIND_TRACED,
};
use crate::heap::roots::RootSet;
use crate::heap::space::{last_fit, span_hi, span_lo, Space, Tlab};

verus! {

/// What a mutator's own region gives.
#[derive(Clone, Copy, Debug, PartialEq, Eq, Structural)]
pub enum Bump {
    /// The address of the new allocation, from the thread's region.
    At(usize),
    /// The region has no room: refill it.
    Refill,
    /// Allocate through the lock.
    Locked,
}

/// What an allocation is for, and so how the marker treats its words.
#[derive(Clone, Copy, Debug, PartialEq, Eq, Structural)]
pub enum AllocKind {
    /// Word zero is a type or a descriptor.
    Typed,
    Raw,
    /// Holds no pointers.
    NoPtr,
    /// Word zero is a callback, called once nothing reaches the block.
    Finalizer,
}

/// Whether an allocation of this kind needs the lock: a finalizer is
/// registered under it, and so is a drop hook.
pub fn needs_lock(kind: AllocKind, traced: bool, has_drop: bool) -> (r: bool)
    ensures
        r == (kind == AllocKind::Finalizer || (kind == AllocKind::Typed && traced && has_drop)),
{
    match kind {
        AllocKind::Finalizer => true,
        AllocKind::Typed => traced && has_drop,
        _ => false,
    }
}

impl ImmixAllocator {
    /// Nothing but the persistent roots differs from `before`.
    pub open spec fn only_persistent(&self, before: &ImmixAllocator) -> bool {
        *self == (ImmixAllocator {
            roots: RootSet { persistent_roots: self.roots.persistent_roots, ..before.roots },
            ..*before
        })
    }

    /// Nothing but the side tables differs from `before`.
    pub open spec fn only_tables(&self, before: &ImmixAllocator) -> bool {
        *self == (ImmixAllocator {
            space: Space { tables: self.space.tables, ..before.space },
            ..*before
        })
    }

    /// Nothing but the heap's words and the registered finalizers differs from
    /// `before`.
    pub open spec fn only_finalizables(&self, before: &ImmixAllocator) -> bool {
        *self == (ImmixAllocator {
            space: Space { memory: self.space.memory, ..before.space },
            finalizables: self.finalizables,
            ..*before
        })
    }

    /// The allocation entry point of thread `thread`: its own region when that
    /// serves the size and the thread is a mutator.
    #[verifier::rlimit(60)]
    #[verifier::spinoff_prover]
    pub fn gc_alloc(&mut self, thread: u64, registered: bool, tlab_on: bool, size: usize) -> (r:
        Bump)
        requires
            old(self).wf(),
            size + 15 <= usize::MAX,
        ensures
            final(self).wf(),
            final(self).same_registered(old(self)),
            final(self).trigger == old(self).trigger,
            final(self).stats == old(self).stats,
            final(self).space.memory == old(self).space.memory,
            final(self).space.same_elsewhere(&old(self).space),
            old(self).unclaimed() ==> final(self).unclaimed(),
            !(granted(size as int) <= 128 && tlab_on && registered) ==> r == Bump::Locked
                && *final(self) == *old(self),
            granted(size as int) <= 128 && tlab_on && registered ==> match r {
                Bump::At(addr) => exists|t: Tlab| #[trigger]
                    old(self).space.has_tlab(t) && t.thread == thread && Space::tlab_point(
                        t,
                        granted(size as int),
                    ) == Some(addr - old(self).space.memory.base) && final(self).space.bumped(
                        &old(self).space,
                        addr - old(self).space.memory.base,
                        granted(size as int),
                    ) && final(self).space.moved_tlab(
                        &old(self).space,
                        t,
                        (addr - old(self).space.memory.base + granted(size as int)) as usize,
                    ),
                Bump::Refill => {
                    &&& final(self).space.tables == old(self).space.tables
                    &&& forall|o: Tlab| #[trigger]
                        final(self).space.has_tlab(o) <==> old(self).space.has_tlab(o)
                    &&& forall|t: Tlab| #[trigger]
                        old(self).space.has_tlab(t) && t.thread == thread ==> Space::tlab_point(
                            t,
                            granted(size as int),
                        ) is None
                },
                Bump::Locked => false,
            },
    {
        let wanted: usize = if size < 8 {
            8
        } else {
            size
        };
        let aligned: usize = round_quantum(wanted);
        if aligned <= LINE_SIZE && tlab_on && registered {
            match self.space.tlab_bump(thread, aligned) {
                Some(point) => {
                    proof {
                        if old(self).unclaimed() {
                            assert(self.space.no_new_marks(&old(self).space));
                            ImmixAllocator::lemma_unclaimed_kept(
                                &self.space,
                                &old(self).space,
                                point as int / 16,
                            );
                        }
                    }
                    Bump::At(self.space.memory.base + point)
                },
                None => Bump::Refill,
            }
        } else {
            Bump::Locked
        }
    }

    /// What a refill asks the trigger: nothing but at the first attempt.
    pub open spec fn refill_asks(&self, attempt: Attempt, ctx: TriggerContext) -> Due {
        if attempt == Attempt::First {
            self.trigger.refill_asks(ctx)
        } else {
            Due::Nothing
        }
    }

    /// `self` with a collection to come recorded.
    pub open spec fn noting(&self, later: bool) -> ImmixAllocator {
        ImmixAllocator {
            trigger: Trigger {
                collect_pending: self.trigger.collect_pending || later,
                ..self.trigger
            },
            ..*self
        }
    }

    /// Whether a refill looks for recycled lines. One after a collection for
    /// want of memory asks for a whole free block only.
    pub open spec fn refills_lines(attempt: Attempt, recycle: bool) -> bool {
        recycle && attempt != Attempt::Exhausted
    }

    /// The region a refill takes, as offsets: the last run of recycled lines,
    /// else the last free block.
    pub open spec fn refill_region(&self, recycle: bool) -> Option<(int, int)> {
        let at = last_fit(self.space.recycle_spans@, 1);
        let free = self.space.free_blocks@;
        if recycle && at >= 0 {
            Some(
                (span_lo(self.space.recycle_spans[at]), span_hi(self.space.recycle_spans[at])),
            )
        } else if free.len() > 0 {
            Some((free.last() as int, free.last() + 32768))
        } else {
            None
        }
    }

    /// What a refill gives once nothing has to be collected first: a region of
    /// the thread's own, all of it accounted, with an allocation of `aligned`
    /// bytes at its front.
    pub open spec fn refill_outcome(
        &self,
        before: &ImmixAllocator,
        thread: u64,
        aligned: usize,
        attempt: Attempt,
        recycle: bool,
        r: Grant,
    ) -> bool {
        let recycle = ImmixAllocator::refills_lines(attempt, recycle);
        match before.refill_region(recycle) {
            Some((lo, hi)) => {
                let recycled = recycle && last_fit(before.space.recycle_spans@, 1) >= 0;
                &&& r == Grant::At((before.space.memory.base + lo) as usize)
                &&& self.space.refilled(
                    &before.space,
                    thread,
                    (lo / 32768 * 32768) as usize,
                    lo as usize,
                    hi as usize,
                    aligned,
                )
                &&& if recycled {
                    &&& self.space.free_blocks@ == before.space.free_blocks@
                    &&& self.space.recycle_spans@ == before.space.recycle_spans@.take(
                        last_fit(before.space.recycle_spans@, 1),
                    )
                    &&& self.space.same_marks(&before.space)
                    &&& self.space.reuse_due@ == before.space.reuse_due@
                } else {
                    &&& self.space.free_blocks@ == before.space.free_blocks@.drop_last()
                    &&& recycle ==> self.space.recycle_spans@.len() == 0
                    &&& !recycle ==> self.space.recycle_spans@ == before.space.recycle_spans@
                    &&& self.space.takes_blocks(&before.space, lo, hi)
                    &&& self.space.reuse_due@ == before.space.reuse_due_with(lo)
                }
                &&& self.space.allocation_point == before.space.allocation_point
                &&& self.space.current_block_end == before.space.current_block_end
                &&& self.trigger.charged(&before.trigger, hi - lo, true)
                &&& self.stats == (GcStats {
                    bytes_allocated: before.stats.bytes_allocated.wrapping_add((hi - lo) as u64),
                    lines_recycled: if recycled {
                        before.stats.lines_recycled.wrapping_add(((hi - lo) / 128) as u64)
                    } else {
                        before.stats.lines_recycled
                    },
                    ..before.stats
                })
            },
            None => {
                &&& r == match attempt {
                    Attempt::Exhausted => Grant::OutOfMemory,
                    _ => Grant::Collect(ORIGIN_EXHAUSTION),
                }
                &&& self.space.tables == before.space.tables
                &&& self.space.memory == before.space.memory
                &&& self.space.tlabs@ == before.space.tlabs@
                &&& self.space.free_blocks.len() == 0
                &&& self.space.allocation_point == before.space.allocation_point
                &&& self.space.current_block_end == before.space.current_block_end
                &&& self.trigger == before.trigger
                &&& self.stats == before.stats
            },
        }
    }

    /// Give thread `thread` a fresh region and allocate `aligned` bytes at its
    /// front. The whole region counts when it is carved.
    #[verifier::rlimit(60)]
    #[verifier::spinoff_prover]
    pub fn tlab_refill_then_alloc(
        &mut self,
        thread: u64,
        aligned: usize,
        attempt: Attempt,
        ctx: TriggerContext,
        recycle: bool,
    ) -> (r: Grant)
        requires
            old(self).wf(),
            aligned % 16 == 0,
            0 < aligned <= 128,
        ensures
            final(self).wf(),
            final(self).same_registered(old(self)),
            old(self).unclaimed() ==> final(self).unclaimed(),
            old(self).paced() && final(self).bytes_grew(old(self)) ==> final(self).paced(),
            final(self).trigger.stepped(
                &old(self).trigger,
                if attempt == Attempt::First {
                    TriggerEvent::Refilled(ctx)
                } else {
                    TriggerEvent::Other
                },
            ),
            old(self).refill_asks(attempt, ctx) == Due::Now ==> r == Grant::Collect(
                if ctx.deferred {
                    ORIGIN_PRESSURE
                } else {
                    ORIGIN_TLAB
                },
            ) && *final(self) == *old(self),
            old(self).refill_asks(attempt, ctx) != Due::Now ==> final(self).refill_outcome(
                &old(self).noting(old(self).refill_asks(attempt, ctx) == Due::Later),
                thread,
                aligned,
                attempt,
                recycle,
                r,
            ),
    {
        match attempt {
            Attempt::First => {
                if let Due::Now = self.trigger.maybe_collect_at_refill(ctx) {
                    return Grant::Collect(
                        if ctx.deferred {
                            ORIGIN_PRESSURE
                        } else {
                            ORIGIN_TLAB
                        },
                    );
                }
            },
            _ => {},
        }
        self.refill(thread, aligned, attempt, recycle)
    }

    /// Take a region for thread `thread`, and account for it.
    #[verifier::rlimit(60)]
    #[verifier::spinoff_prover]
    fn refill(&mut self, thread: u64, aligned: usize, attempt: Attempt, recycle: bool) -> (r: Grant)
        requires
            old(self).wf(),
            aligned % 16 == 0,
            0 < aligned <= 128,
        ensures
            final(self).wf(),
            final(self).same_registered(old(self)),
            old(self).unclaimed() ==> final(self).unclaimed(),
            final(self).refill_outcome(old(self), thread, aligned, attempt, recycle, r),
    {
        let lines: bool = match attempt {
            Attempt::Exhausted => false,
            _ => recycle,
        };
        let free_before: usize = self.space.free_blocks.len();
        proof {
            let at = last_fit(self.space.recycle_spans@, 1);
            crate::heap::space::lemma_last_fit(self.space.recycle_spans@, 1);
            if at >= 0 {
                assert(self.space.span_ok(self.space.recycle_spans[at]));
            }
            if self.space.free_blocks.len() > 0 {
                assert(self.space.free_blocks[self.space.free_blocks.len() - 1] % 32768 == 0);
            }
        }
        match self.space.tlab_refill(thread, aligned, lines) {
            Some((lo, hi)) => {
                if self.space.free_blocks.len() == free_before {
                    self.stats.lines_recycled =
                    self.stats.lines_recycled.wrapping_add(((hi - lo) / LINE_SIZE) as u64);
                }
                self.trigger.charge(hi - lo, true);
                self.stats.bytes_allocated = self.stats.bytes_allocated.wrapping_add(
                    (hi - lo) as u64,
                );
                let addr: usize = self.space.memory.base + lo;
                proof {
                    if old(self).unclaimed() {
                        ImmixAllocator::lemma_unclaimed_kept(
                            &self.space,
                            &old(self).space,
                            lo as int / 16,
                        );
                    }
                }
                Grant::At(addr)
            },
            None => match attempt {
                Attempt::Exhausted => Grant::OutOfMemory,
                _ => Grant::Collect(ORIGIN_EXHAUSTION),
            },
        }
    }

    /// Pin the allocation at `addr` for the life of the heap.
    pub fn make_immortal(&mut self, addr: usize)
        requires
            old(self).wf(),
        ensures
            final(self).wf(),
            final(self).only_persistent(old(self)),
            forall|x: u64| #[trigger]
                final(self).roots.persistent_roots@.contains(x) <==> old(
                    self,
                ).roots.persistent_roots@.contains(x) || x == addr as u64,
    {
        self.roots.register_persistent(addr as u64);
        proof {
            let was = old(self).roots.persistent_roots@;
            let now = self.roots.persistent_roots@;
            assert forall|x: u64| #[trigger] now.contains(x) <==> was.contains(x) || x
                == addr as u64 by {
                if was.contains(x) {
                    let k = choose|k: int| 0 <= k < was.len() && was[k] == x;
                    assert(now[k] == x);
                }
                if !was.contains(addr as u64) {
                    assert(now[now.len() - 1] == addr as u64);
                }
                if now.contains(x) && !was.contains(x) {
                    let k = choose|k: int| 0 <= k < now.len() && now[k] == x;
                    if k < was.len() {
                        assert(was[k] == x);
                    }
                }
            }
        }
    }

    /// Whether the block at `addr` has a finalizer registered.
    pub open spec fn is_finalizable(&self, offset: usize) -> bool {
        self.finalizables@.contains(offset)
    }

    /// Record that word zero of the block at `addr` is a callback for when it
    /// dies. Nothing for an address outside the heap.
    pub fn register_finalizable(&mut self, addr: usize)
        requires
            old(self).wf(),
        ensures
            final(self).wf(),
            *final(self) == (ImmixAllocator {
                finalizables: final(self).finalizables,
                ..*old(self)
            }),
            final(self).finalizables@ == if old(self).space.memory.contains(addr as int) && !old(
                self,
            ).is_finalizable((addr - old(self).space.memory.base) as usize) {
                old(self).finalizables@.push((addr - old(self).space.memory.base) as usize)
            } else {
                old(self).finalizables@
            },
    {
        if let Some(offset) = self.space.memory.offset_of(addr) {
            let mut i: usize = 0;
            while i < self.finalizables.len()
                invariant
                    *self == *old(self),
                    old(self).wf(),
                    old(self).space.memory.contains(addr as int),
                    offset == addr - old(self).space.memory.base,
                    i <= self.finalizables.len(),
                    forall|k: int| 0 <= k < i ==> self.finalizables@[k] != offset,
                decreases self.finalizables.len() - i,
            {
                if self.finalizables[i] == offset {
                    assert(self.finalizables@[i as int] == offset);
                    return ;
                }
                i = i + 1;
            }
            self.finalizables.push(offset);
            proof {
                assert forall|k: int| 0 <= k < self.finalizables.len() implies (
                #[trigger] self.finalizables[k]) < self.space.memory.size() by {
                    if k < old(self).finalizables.len() {
                        assert(self.finalizables[k] == old(self).finalizables[k]);
                    }
                }
            }
        }
    }

    /// Set the kind bits of the fresh, raw allocation at heap offset `offset`,
    /// and note in its block that it has a drop hook.
    #[verifier::rlimit(60)]
    #[verifier::spinoff_prover]
    pub fn set_allocation_kind(&mut self, offset: usize, kind: u8, has_drop: bool)
        requires
            old(self).wf(),
            old(self).space.tables.is_start(offset as int / 16),
            kind == 0x20 || kind == 0x40,
        ensures
            final(self).wf(),
            final(self).only_tables(old(self)),
            final(self).space.kind_set(&old(self).space, offset as int / 16, kind, has_drop),
            old(self).unclaimed() ==> final(self).unclaimed(),
    {
        let q: usize = offset / ALLOC_QUANTUM;
        let byte: u8 = self.space.tables.objects[q];
        proof {
            assert(self.space.tables.entry_ok(q as int));
            assert(0x20u8 & !0x60u8 == 0 && 0x40u8 & !0x60u8 == 0) by (bit_vector);
            lemma_kind_bits(byte, kind);
        }
        self.space.tables.objects[q] = byte | kind;
        if kind == OBJECT_KIND_TRACED && has_drop {
            let b: usize = offset / BLOCK_SIZE;
            self.space.tables.blocks[b].has_drop = true;
        }
        proof {
            self.space.lemma_kind_set(&old(self).space, q as int, kind, has_drop);
            if old(self).unclaimed() {
                self.lemma_kind_unclaimed(old(self));
            }
        }
    }

    /// A kind claims nothing.
    proof fn lemma_kind_unclaimed(&self, before: &ImmixAllocator)
        requires
            before.unclaimed(),
            self.space.tables.blocks.len() == before.space.tables.blocks.len(),
            forall|b: int|
                0 <= b < self.space.tables.blocks.len() ==> (
                #[trigger] self.space.tables.blocks[b]).mark_bits
                    == before.space.tables.blocks[b].mark_bits
                    && self.space.tables.blocks[b].any_marked
                    == before.space.tables.blocks[b].any_marked && self.space.tables.blocks[b].used
                    == before.space.tables.blocks[b].used,
            forall|p: int| #[trigger]
                self.space.tables.claimed(p) == before.space.tables.claimed(p),
        ensures
            self.unclaimed(),
    {
        assert forall|b: int|
            0 <= b < self.space.tables.blocks.len()
                && before.space.tables.blocks[b].clear() implies (
        #[trigger] self.space.tables.blocks[b]).clear() by {
            self.space.tables.blocks[b].lemma_same_bits(&before.space.tables.blocks[b]);
        }
    }

    /// What the fresh allocation at `addr` becomes: a typed one holds its
    /// type, a traced one is walked and dropped by its descriptor, one without
    /// pointers is never scanned, and one with a finalizer is registered.
    #[verifier::rlimit(60)]
    #[verifier::spinoff_prover]
    pub fn finish_alloc<H: TypeHooks>(
        &mut self,
        addr: usize,
        desc: u64,
        kind: AllocKind,
        traced: bool,
        hooks: &H,
    )
        requires
            old(self).wf(),
            old(self).space.memory.contains(addr as int),
            (addr - old(self).space.memory.base) % 16 == 0,
            old(self).space.tables.is_start((addr - old(self).space.memory.base) / 16),
        ensures
            final(self).wf(),
            old(self).unclaimed() ==> final(self).unclaimed(),
            *final(self) == (ImmixAllocator {
                space: Space {
                    tables: final(self).space.tables,
                    memory: final(self).space.memory,
                    ..old(self).space
                },
                finalizables: final(self).finalizables,
                ..*old(self)
            }),
            final(self).space.memory.base == old(self).space.memory.base,
            match kind {
                AllocKind::Typed => {
                    &&& final(self).space.memory.words@ == old(self).space.memory.words@.update(
                        (addr - old(self).space.memory.base) / 8,
                        desc,
                    )
                    &&& traced ==> final(self).space.kind_set(
                        &old(self).space,
                        (addr - old(self).space.memory.base) / 16,
                        0x40,
                        desc != 0 && hooks.drops(desc),
                    )
                    &&& !traced ==> final(self).space.tables == old(self).space.tables
                    &&& final(self).finalizables == old(self).finalizables
                },
                AllocKind::NoPtr => {
                    &&& final(self).space.memory == old(self).space.memory
                    &&& final(self).space.kind_set(
                        &old(self).space,
                        (addr - old(self).space.memory.base) / 16,
                        0x20,
                        false,
                    )
                    &&& final(self).finalizables == old(self).finalizables
                },
                AllocKind::Finalizer => {
                    &&& final(self).space == old(self).space
                    &&& final(self).finalizables@ == if old(self).is_finalizable(
                        (addr - old(self).space.memory.base) as usize,
                    ) {
                        old(self).finalizables@
                    } else {
                        old(self).finalizables@.push(
                            (addr - old(self).space.memory.base) as usize,
                        )
                    }
                },
                AllocKind::Raw => *final(self) == *old(self),
            },
    {
        let offset: usize = addr - self.space.memory.base;
        match kind {
            AllocKind::Typed => {
                assert(addr % 8 == 0);
                let _stored: bool = self.space.memory.write(addr, desc);
                proof {
                    self.space.lemma_only_memory(&old(self).space);
                }
                if traced {
                    let has_drop: bool = desc != 0 && hooks.has_drop(desc);
                    self.set_allocation_kind(offset, OBJECT_KIND_TRACED, has_drop);
                }
            },
            AllocKind::NoPtr => {
                self.set_allocation_kind(offset, OBJECT_KIND_NOPTR, false);
            },
            AllocKind::Finalizer => {
                self.register_finalizable(addr);
                proof {
                    let now = self.finalizables@;
                    if !old(self).is_finalizable(offset) {
                        assert(now[now.len() - 1] == offset);
                    }
                }
            },
            AllocKind::Raw => {},
        }
    }
}

impl Space {
    /// `self` is `before` with the kind of the allocation at `q` set, and a
    /// drop hook noted in its block.
    pub open spec fn kind_set(&self, before: &Space, q: int, kind: u8, has_drop: bool) -> bool {
        &&& self.tables.objects@ == before.tables.objects@.update(
            q,
            (before.tables.objects[q] | kind) as u8,
        )
        &&& self.tables.alloc_sizes == before.tables.alloc_sizes
        &&& self.tables.blocks.len() == before.tables.blocks.len()
        &&& forall|b: int|
            0 <= b < self.tables.blocks.len() ==> (#[trigger] self.tables.blocks[b]).mark_bits
                == before.tables.blocks[b].mark_bits && self.tables.blocks[b].any_marked
                == before.tables.blocks[b].any_marked && self.tables.blocks[b].has_span
                == before.tables.blocks[b].has_span && self.tables.blocks[b].used
                == before.tables.blocks[b].used && self.tables.blocks[b].reusable
                == before.tables.blocks[b].reusable && self.tables.blocks[b].has_drop == (
            before.tables.blocks[b].has_drop || (kind == 0x40 && has_drop && b == q / 2048))
    }

    /// A kind changes no size, no claim and no region.
    pub proof fn lemma_kind_set(&self, before: &Space, q: int, kind: u8, has_drop: bool)
        requires
            before.wf(),
            before.tables.is_start(q),
            kind & !0x60u8 == 0,
            self.kind_set(before, q, kind, has_drop),
            self.memory == before.memory,
            self.free_blocks == before.free_blocks,
            self.recycle_spans == before.recycle_spans,
            self.tlabs == before.tlabs,
            self.allocation_point == before.allocation_point,
            self.current_block_end == before.current_block_end,
        ensures
            self.wf(),
            forall|p: int| #[trigger] self.tables.is_start(p) == before.tables.is_start(p),
            forall|p: int| #[trigger] self.tables.claimed(p) == before.tables.claimed(p),
    {
        lemma_kind_bits(before.tables.objects[q], kind);
        let t = self.tables;
        let u = before.tables;
        assert forall|p: int| 0 <= p < t.objects.len() implies t.code(p) == u.code(p) by {
            if p != q {
                assert(t.objects[p] == u.objects[p]);
            }
        }
        assert forall|p: int| #[trigger] t.is_start(p) == u.is_start(p) by {
            if 0 <= p < t.objects.len() {
                assert(t.code(p) == u.code(p));
            }
        }
        assert forall|p: int| #[trigger] t.claimed(p) == u.claimed(p) by {
            assert(t.is_start(p) == u.is_start(p));
            if t.is_start(p) && p != q {
                assert(t.objects[p] == u.objects[p]);
            }
        }
        t.lemma_thinned(&u);
        assert forall|p: int, l: int| #[trigger] t.on_line(p, l) implies t.blocks[l / 256].used && (
        t.code(p) == 9 ==> t.blocks[l / 256].has_span) by {
            assert(u.is_start(p));
            assert(u.on_line(p, l));
            u.lemma_line_in_heap(p, l);
        }
        self.lemma_thinned_regions(before);
        assert forall|i: int| 0 <= i < self.recycle_spans.len() implies self.span_ok(
            #[trigger] self.recycle_spans[i],
        ) by {
            assert(before.span_ok(before.recycle_spans[i]));
        }
        assert forall|i: int| 0 <= i < self.tlabs.len() implies self.tlab_ok(
            #[trigger] self.tlabs[i],
        ) by {
            assert(before.tlab_ok(before.tlabs[i]));
        }
        assert(self.free_ok());
    }
}

} // verus!
