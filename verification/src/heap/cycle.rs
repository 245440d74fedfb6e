//! One whole cycle, and what it promises of every heap.

use vstd::prelude::*;

use crate::heap::collect::{by_claim, due_finalizers, next_threshold, offset_words, Collection};
use crate::heap::grant::{reached, TriggerEvent};
use crate::heap::hooks::TypeHooks;
use crate::heap::immix::{GcStats, ImmixAllocator};
use crate::heap::layout::{lemma_claim_bit, lemma_plain_code, BLOCK_SIZE};
use crate::heap::mutators::MutatorSnapshot;
use crate::heap::space::Space;
use crate::heap::swept::SweepReport;
use crate::heap::tables::Tables;

verus! {

impl ImmixAllocator {
    /// `self` is `before` after a cycle that marked to `m`, claimed the dead
    /// finalizable blocks to `f`, dropped to `d` and then swept.
    pub open spec fn cycled<H: TypeHooks>(
        &self,
        before: &ImmixAllocator,
        hooks: &H,
        mutators: Seq<MutatorSnapshot>,
        words: Seq<u64>,
        c: Collection,
        m: Tables,
        f: Tables,
        d: Space,
    ) -> bool {
        let mem = before.space.memory;
        let dead = by_claim(m, before.finalizables@, false);
        &&& m.marked_from(
            &before.space.tables,
            &mem,
            hooks,
            before.root_words(mutators, c.collector, words),
        )
        &&& f.marked_from(&m, &mem, hooks, offset_words(mem.base, dead))
        &&& d.tables.dropped_below(&f, f.objects.len() as int)
        &&& d.tables.drop_flags(&f, f.blocks.len() as int)
        &&& d.memory == mem
        &&& d.tlabs == before.space.tlabs
        &&& d.free_blocks == before.space.free_blocks
        &&& d.reuse_due == before.space.reuse_due
        &&& d.wf()
        &&& f.inv() && f.sound() && m.inv() && m.sound()
        &&& self.space.swept(&d, c.opts)
        &&& self.finalizables@ == by_claim(m, before.finalizables@, true)
        &&& self.deferred.finalizers@ == before.deferred.finalizers@ + due_finalizers(mem, dead)
        &&& self.deferred.releases == before.deferred.releases
        &&& self.deferred.running == before.deferred.running
        &&& self.roots == before.roots
        &&& self.handles == before.handles
        &&& self.globals_range == before.globals_range
        &&& self.root_ranges == before.root_ranges
        &&& self.fiber_stacks == before.fiber_stacks
    }

    /// The accounts after a cycle: the counters start over and the next
    /// trigger is set from what is live.
    pub open spec fn trigger_reset(&self, before: &ImmixAllocator, c: Collection) -> bool {
        let live = self.live() as int * 32768;
        let t = self.trigger;
        &&& t.alloc_count == 0
        &&& t.bytes_since_gc == 0
        &&& t.external_since_gc == 0
        &&& !t.collect_pending
        &&& t.threshold == if ImmixAllocator::next_threshold(live, c) <= usize::MAX {
            ImmixAllocator::next_threshold(live, c)
        } else {
            usize::MAX as int
        }
        &&& t.safepoint_mode == before.trigger.safepoint_mode
        &&& t.enabled == before.trigger.enabled
        &&& t.flags == before.trigger.flags
        &&& t.allocated_at_collect == before.stats.bytes_allocated
        &&& t.next_trigger_at == before.stats.bytes_allocated.wrapping_add(
            before.stats.external_bytes,
        ).wrapping_add(t.threshold as u64)
    }

    /// One collection more is counted, which gave back `freed` blocks.
    pub open spec fn counted(&self, before: &ImmixAllocator, freed: nat) -> bool {
        self.stats == (GcStats {
            collections: before.stats.collections.wrapping_add(1),
            blocks_reclaimed: before.stats.blocks_reclaimed.wrapping_add(freed as u64),
            live_blocks: self.live() as u64,
            ..before.stats
        })
    }

    /// Collect: mark, queue finalizers, drop, sweep, and set the next trigger.
    /// `None`, and nothing but a count changed, when a mutator did not stop.
    #[verifier::rlimit(60)]
    #[verifier::spinoff_prover]
    pub fn collect_garbage<H: TypeHooks>(
        &mut self,
        hooks: &mut H,
        mutators: &Vec<MutatorSnapshot>,
        words: &Vec<u64>,
        c: Collection,
    ) -> (r: Option<SweepReport>)
        requires
            old(self).wf(),
            old(self).claims_ok(),
        ensures
            final(self).legible(),
            final(self).registered_ok(),
            final(self).claims_ok(),
            !c.stopped || !(c.opts.no_reclaim && c.opts.recycle) ==> final(self).wf(),
            r is Some == c.stopped,
            c.stopped || old(self).paced() ==> final(self).paced(),
            final(self).trigger.stepped(
                &old(self).trigger,
                if c.stopped {
                    TriggerEvent::Collected
                } else {
                    TriggerEvent::Other
                },
            ),
            !c.stopped ==> {
                &&& final(self).space == old(self).space
                &&& final(self).same_registered(old(self))
                &&& final(self).trigger == old(self).trigger
                &&& final(self).stats == (GcStats {
                    stops_abandoned: if old(self).stats.stops_abandoned < u64::MAX {
                        (old(self).stats.stops_abandoned + 1) as u64
                    } else {
                        0
                    },
                    ..old(self).stats
                })
                &&& *final(hooks) == *old(hooks)
            },
            c.stopped ==> {
                &&& final(self).unclaimed()
                &&& exists|m: Tables, f: Tables, d: Space| #[trigger]
                    final(self).cycled(
                        old(self),
                        old(hooks),
                        mutators@,
                        words@,
                        c,
                        m,
                        f,
                        d,
                    ) && final(hooks).dropped() == old(hooks).dropped() + f.to_drop(
                        &old(self).space.memory,
                        old(hooks),
                        f.objects.len() as nat,
                    ) && r->0.tells(d, c.opts) && (d.reclaim_ok(c.opts) ==> final(self).wf())
                &&& final(hooks).same_types(old(hooks))
                &&& final(self).trigger_reset(old(self), c)
                &&& final(self).counted(old(self), r->0.freed@.len())
            },
    {
        if !c.stopped {
            self.stats.stops_abandoned = self.stats.stops_abandoned.wrapping_add(1);
            return None;
        }
        self.mark_roots(&*hooks, mutators, c.collector, words);
        let ghost m = self.space.tables;
        let ghost marked = *self;
        self.take_dead_finalizers(&*hooks);
        let ghost f = self.space.tables;
        let ghost finalized = *self;
        self.space.drop_dead_traced(hooks);
        let ghost d = self.space;
        proof {
            d.tables.lemma_dropped_claims(&f);
        }
        let report = self.space.sweep(c.opts);
        proof {
            assert(self.cycled(old(self), old(hooks), mutators@, words@, c, m, f, d));
            self.space.lemma_swept_unclaimed(&d, c.opts);
            self.lemma_unclaimed_ok();
            d.lemma_reclaims(c.opts);
            assert(self.registered_ok()) by {
                assert(finalized.registered_ok());
                assert(self.space.memory.size() == finalized.space.memory.size());
            }
        }
        let live: usize = self.live_blocks();
        let threshold: u64 = next_threshold(live as u64 * BLOCK_SIZE as u64, c);
        self.trigger.threshold = if threshold <= usize::MAX as u64 {
            threshold as usize
        } else {
            usize::MAX
        };
        let so_far: u64 = self.stats.bytes_allocated.wrapping_add(self.stats.external_bytes);
        self.trigger.next_trigger_at = so_far.wrapping_add(self.trigger.threshold as u64);
        self.trigger.allocated_at_collect = self.stats.bytes_allocated;
        self.trigger.bytes_since_gc = 0;
        self.trigger.external_since_gc = 0;
        self.trigger.alloc_count = 0;
        self.trigger.collect_pending = false;
        self.stats.collections = self.stats.collections.wrapping_add(1);
        self.stats.blocks_reclaimed = self.stats.blocks_reclaimed.wrapping_add(
            report.freed.len() as u64,
        );
        self.stats.live_blocks = live as u64;
        proof {
            assert(self.cycled(old(self), old(hooks), mutators@, words@, c, m, f, d));
        }
        Some(report)
    }
}

impl Tables {
    /// The drop pass leaves the claims of what it keeps as they were.
    pub proof fn lemma_dropped_claims(&self, before: &Tables)
        requires
            before.inv(),
            self.inv(),
            self.dropped_below(before, before.objects.len() as int),
            self.drop_flags(before, before.blocks.len() as int),
        ensures
            before.marks_whole() ==> self.marks_whole(),
            before.marks_seen() ==> self.marks_seen(),
            before.claims_held() ==> self.claims_held(),
            forall|q: int| #[trigger]
                self.is_start(q) <==> before.is_start(q) && !before.dead_traced(q),
            forall|q: int| #[trigger]
                self.is_start(q) ==> self.extent(q) == before.extent(q) && self.objects[q]
                    == before.objects[q],
            forall|q: int| #[trigger] self.claimed(q) == before.claimed(q),
    {
        lemma_plain_code(0);
        assert forall|q: int| #[trigger] self.is_start(q) <==> before.is_start(q)
            && !before.dead_traced(q) by {
            if 0 <= q < self.objects.len() {
                assert(self.objects[q] == if before.dead_traced(q) {
                    0
                } else {
                    before.objects[q]
                });
            }
        }
        assert forall|q: int| #[trigger] self.is_start(q) implies self.extent(q) == before.extent(q)
            && self.objects[q] == before.objects[q] by {
            assert(before.entry_ok(q));
            assert(!before.dead_traced(q));
            if self.code(q) == 9 {
                assert(q / 8 * 8 == q);
                assert(self.alloc_sizes[q / 8] == before.alloc_sizes[q / 8]);
            }
        }
        assert forall|q: int| #[trigger] self.claimed(q) == before.claimed(q) by {
            if before.claimed(q) {
                assert(!before.dead_traced(q));
                assert(self.is_start(q));
            }
            if self.is_start(q) {
                assert(before.is_start(q));
            }
        }
        assert forall|l: int| 0 <= l < self.alloc_sizes.len() implies #[trigger] self.marked_line(l)
            == before.marked_line(l) by {
            self.blocks[l / 256].lemma_same_bits(&before.blocks[l / 256]);
        }
        if before.marks_whole() {
            assert forall|q: int, l: int| #[trigger] self.on_line(q, l) implies self.marked_line(l)
                == self.marked_line(q / 8) by {
                assert(self.is_start(q));
                assert(before.on_line(q, l));
                before.lemma_line_in_heap(q, l);
                assert(before.entry_ok(q));
                assert(self.marked_line(l) == before.marked_line(l));
                assert(self.marked_line(q / 8) == before.marked_line(q / 8));
            }
        }
        if before.claims_held() {
            assert forall|q: int, l: int|
                #![trigger self.on_line(q, l)]
                self.claimed(q) && self.on_line(q, l) implies self.marked_line(l) by {
                assert(self.is_start(q));
                assert(before.claimed(q));
                assert(before.on_line(q, l));
                before.lemma_line_in_heap(q, l);
                assert(self.marked_line(l) == before.marked_line(l));
            }
        }
        if before.marks_seen() {
            assert forall|b: int|
                0 <= b < self.blocks.len()
                    && !(#[trigger] self.blocks[b]).any_marked implies self.blocks[b].clear() by {
                assert(!before.blocks[b].any_marked);
                self.blocks[b].lemma_same_bits(&before.blocks[b]);
            }
        }
    }
}

impl Space {
    /// Reclaiming, or not recycling, leaves nothing more to ask.
    proof fn lemma_reclaims(&self, opts: crate::heap::sweep::SweepOptions)
        ensures
            !(opts.no_reclaim && opts.recycle) ==> self.reclaim_ok(opts),
    {
    }

    /// A sweep clears every claim.
    pub proof fn lemma_swept_unclaimed(
        &self,
        before: &Space,
        opts: crate::heap::sweep::SweepOptions,
    )
        requires
            before.wf(),
            before.tables.marks_seen(),
            before.tables.claims_held(),
            self.swept(before, opts),
        ensures
            forall|q: int| !#[trigger] self.tables.claimed(q),
            forall|b: int|
                0 <= b < self.tables.blocks.len() && (#[trigger] self.tables.blocks[b]).used
                    ==> self.tables.blocks[b].clear(),
            self.tables.marks_seen(),
    {
        lemma_plain_code(0);
        assert forall|q: int| !#[trigger] self.tables.claimed(q) by {
            if 0 <= q < self.tables.objects.len() {
                let b = q / 2048;
                assert(self.block_swept(before, b, opts));
                lemma_claim_bit(before.tables.objects[q]);
                assert(self.tables.objects[q] == before.swept_byte(b, q, opts));
                if self.tables.claimed(q) {
                    assert(before.tables.claimed(q));
                    assert(before.tables.entry_ok(q));
                    assert(before.tables.on_line(q, q / 8));
                    before.tables.lemma_line_in_heap(q, q / 8);
                    assert(before.tables.marked_line(q / 8));
                    assert(before.tables.blocks[b].used);
                    if !before.tables.blocks[b].any_marked {
                        assert(before.tables.blocks[b].clear());
                        assert(!before.tables.blocks[b].marked((q / 8) % 256));
                    }
                }
            }
        }
        assert forall|b: int| 0 <= b < self.tables.blocks.len() && (
        #[trigger] self.tables.blocks[b]).used implies self.tables.blocks[b].clear() by {
            assert(self.block_swept(before, b, opts));
            if !before.tables.blocks[b].any_marked {
                self.tables.blocks[b].lemma_same_bits(&before.tables.blocks[b]);
                assert(before.tables.blocks[b].clear());
            }
        }
        assert forall|b: int|
            0 <= b < self.tables.blocks.len()
                && !(#[trigger] self.tables.blocks[b]).any_marked implies self.tables.blocks[b].clear() by {
            assert(self.block_swept(before, b, opts));
            if !(before.tables.blocks[b].used && before.tables.blocks[b].any_marked) {
                self.tables.blocks[b].lemma_same_bits(&before.tables.blocks[b]);
                assert(before.tables.blocks[b].clear());
            }
        }
    }
}

/// After a collection the next is due exactly when what is allocated and
/// charged since has reached the threshold it set. `now` is any later count.
pub proof fn law_due_at_the_threshold(
    before: &ImmixAllocator,
    after: &ImmixAllocator,
    c: Collection,
    now: GcStats,
)
    requires
        after.trigger_reset(before, c),
        before.stats.bytes_allocated + before.stats.external_bytes + after.trigger.threshold
            <= u64::MAX,
        now.bytes_allocated >= before.stats.bytes_allocated,
        now.external_bytes >= before.stats.external_bytes,
    ensures
        reached(after.trigger, now, 0) <==> (now.bytes_allocated - before.stats.bytes_allocated)
            + (now.external_bytes - before.stats.external_bytes) >= after.trigger.threshold,
{
}

/// A collection is counted once and leaves nothing due: nothing waits, no
/// pressure stands, and the counters have not reached the next mark.
pub proof fn law_collection_leaves_nothing_due(
    before: &ImmixAllocator,
    after: &ImmixAllocator,
    c: Collection,
    freed: nat,
    stress: usize,
)
    requires
        after.trigger_reset(before, c),
        after.counted(before, freed),
        c.floor > 0,
        before.stats.bytes_allocated + before.stats.external_bytes + after.trigger.threshold
            <= u64::MAX,
    ensures
        after.stats.collections == before.stats.collections.wrapping_add(1),
        !after.trigger.collect_pending,
        !reached(after.trigger, after.stats, stress),
        !after.trigger.due(0, false),
{
}

} // verus!
