//! A collection: mark what the roots reach, queue the finalizers of what they
//! do not, drop, sweep, and set the next trigger.

use vstd::prelude::*;

use crate::heap::block::Block;
use crate::heap::handles::HandleTable;
use crate::heap::hooks::TypeHooks;
use crate::heap::immix::ImmixAllocator;
use crate::heap::layout::{claim_bit, ALLOC_QUANTUM, OBJECT_MARK, WORD};
use crate::heap::memory::HeapMemory;
use crate::heap::mutators::MutatorSnapshot;
use crate::heap::roots::{candidates, push_candidates, scan_plan, scan_plan_of};
use crate::heap::sizing::clamped;
use crate::heap::sweep::SweepOptions;
use crate::heap::tables::Tables;
use crate::platform::Platform;

verus! {

/// What a collection is told.
#[derive(Clone, Copy)]
pub struct Collection {
    /// Every other mutator is at rest. Nothing may be scanned otherwise.
    pub stopped: bool,
    /// The thread that collects.
    pub collector: u64,
    /// Bounds on the next trigger, and how much to allow per unit of live data.
    pub floor: u64,
    pub ceiling: u64,
    pub growth: usize,
    pub opts: SweepOptions,
}

/// The saved registers of the stopped mutators but the collector, as the
/// marker reads them.
pub open spec fn register_words(mutators: Seq<MutatorSnapshot>, collector: u64) -> Seq<u64>
    decreases mutators.len(),
{
    if mutators.len() == 0 {
        Seq::empty()
    } else {
        let init = register_words(mutators.drop_last(), collector);
        let m = mutators.last();
        if m.thread != collector && m.stack_sp != 0 {
            init + candidates(m.saved_regs@)
        } else {
            init
        }
    }
}

/// Append `more` to `out`.
fn extend(out: &mut Vec<u64>, more: &Vec<u64>)
    ensures
        final(out)@ == old(out)@ + more@,
{
    let mut i: usize = 0;
    assert(out@ + more@.take(0) =~= out@);
    while i < more.len()
        invariant
            i <= more.len(),
            out@ == old(out)@ + more@.take(i as int),
        decreases more.len() - i,
    {
        out.push(more[i]);
        i = i + 1;
        assert(out@ =~= old(out)@ + more@.take(i as int));
    }
    assert(more@.take(i as int) =~= more@);
}

/// The words of the finalizable blocks at `offsets`, as the marker would find
/// them.
pub open spec fn offset_words(base: usize, offsets: Seq<usize>) -> Seq<u64> {
    offsets.map_values(|o: usize| (base + o) as u64)
}

/// The offsets whose object byte carries a claim, or those that carry none.
pub open spec fn by_claim(t: Tables, offsets: Seq<usize>, claimed: bool) -> Seq<usize>
    decreases offsets.len(),
{
    if offsets.len() == 0 {
        Seq::empty()
    } else {
        let init = by_claim(t, offsets.drop_last(), claimed);
        if claim_bit(t.objects[offsets.last() as int / 16]) == claimed {
            init.push(offsets.last())
        } else {
            init
        }
    }
}

/// The callbacks that are due: block and word zero, where that is not null.
pub open spec fn due_finalizers(mem: HeapMemory, offsets: Seq<usize>) -> Seq<(usize, u64)>
    decreases offsets.len(),
{
    if offsets.len() == 0 {
        Seq::empty()
    } else {
        let init = due_finalizers(mem, offsets.drop_last());
        let o = offsets.last();
        let word = mem.words[o as int / 8];
        if word != 0 {
            init.push(((mem.base + o) as usize, word))
        } else {
            init
        }
    }
}

proof fn lemma_by_claim(t: Tables, offsets: Seq<usize>, claimed: bool)
    ensures
        forall|i: int|
            0 <= i < by_claim(t, offsets, claimed).len() ==> offsets.contains(
                #[trigger] by_claim(t, offsets, claimed)[i],
            ),
        offsets.no_duplicates() ==> by_claim(t, offsets, claimed).no_duplicates(),
    decreases offsets.len(),
{
    if offsets.len() > 0 {
        let front = offsets.drop_last();
        lemma_by_claim(t, front, claimed);
        let init = by_claim(t, front, claimed);
        let all = by_claim(t, offsets, claimed);
        assert forall|i: int| 0 <= i < all.len() implies offsets.contains(#[trigger] all[i]) by {
            if i < init.len() {
                assert(all[i] == init[i]);
                let k = choose|k: int| 0 <= k < front.len() && front[k] == init[i];
                assert(offsets[k] == all[i]);
            } else {
                assert(offsets[offsets.len() - 1] == all[i]);
            }
        }
        if offsets.no_duplicates() {
            assert(front.no_duplicates());
            assert forall|i: int, j: int|
                0 <= i < all.len() && 0 <= j < all.len() && i != j implies all[i] != all[j] by {
                let last = offsets.last();
                if i >= init.len() || j >= init.len() {
                    let k = if i >= init.len() {
                        j
                    } else {
                        i
                    };
                    assert(all[k] == init[k]);
                    assert(front.contains(init[k]));
                    let m = choose|m: int| 0 <= m < front.len() && front[m] == init[k];
                    assert(offsets[m] == init[k]);
                    assert(offsets[offsets.len() - 1] == last);
                } else {
                    assert(all[i] == init[i] && all[j] == init[j]);
                }
            }
        }
    }
}

impl ImmixAllocator {
    /// Every word the marker starts from: the registered roots, the live
    /// handles, what was read outside the heap, and saved registers.
    pub open spec fn root_words(
        &self,
        mutators: Seq<MutatorSnapshot>,
        collector: u64,
        words: Seq<u64>,
    ) -> Seq<u64> {
        self.roots.globals@ + self.roots.stack_roots@ + self.roots.persistent_roots@
            + HandleTable::roots(self.handles.slots@) + candidates(words) + register_words(
            mutators,
            collector,
        )
    }

    /// What the collector scans outside the heap, as address ranges, for the
    /// host to read word by word.
    pub fn scan_plan(
        &self,
        mutators: &Vec<MutatorSnapshot>,
        collector: u64,
        probe: usize,
        platform: Platform,
    ) -> (r: Vec<(usize, usize)>)
        requires
            self.wf(),
            forall|i: int|
                0 <= i < mutators.len() ==> (#[trigger] mutators[i]).stack_sp + 7 <= usize::MAX,
            probe + 7 <= usize::MAX,
        ensures
            r@ == scan_plan_of(
                self.roots.root_slots@,
                self.globals_range,
                self.root_ranges@,
                self.fiber_stacks@,
                mutators@,
                collector,
                probe,
                platform,
            ),
    {
        scan_plan(
            &self.roots.root_slots,
            self.globals_range,
            &self.root_ranges,
            &self.fiber_stacks,
            mutators,
            collector,
            probe,
            platform,
        )
    }

    /// Mark everything the roots reach. `words` is what the host read of the
    /// ranges that [`Self::scan_plan`] names.
    pub fn mark_roots<H: TypeHooks>(
        &mut self,
        hooks: &H,
        mutators: &Vec<MutatorSnapshot>,
        collector: u64,
        words: &Vec<u64>,
    )
        requires
            old(self).wf(),
        ensures
            final(self).wf(),
            final(self).only_claims(old(self)),
            final(self).space.tables.marked_from(
                &old(self).space.tables,
                &old(self).space.memory,
                hooks,
                old(self).root_words(mutators@, collector, words@),
            ),
            old(self).claims_ok() ==> final(self).claims_ok(),
    {
        let mut all: Vec<u64> = Vec::new();
        extend(&mut all, &self.roots.globals);
        extend(&mut all, &self.roots.stack_roots);
        extend(&mut all, &self.roots.persistent_roots);
        let held: Vec<u64> = self.handles.live_addresses();
        extend(&mut all, &held);
        push_candidates(words.as_slice(), &mut all);
        let ghost front = all@;
        assert(front =~= self.roots.globals@ + self.roots.stack_roots@
            + self.roots.persistent_roots@ + HandleTable::roots(self.handles.slots@) + candidates(
            words@,
        ));
        let mut i: usize = 0;
        assert(all@ =~= front + register_words(mutators@.take(0), collector));
        while i < mutators.len()
            invariant
                i <= mutators.len(),
                all@ == front + register_words(mutators@.take(i as int), collector),
            decreases mutators.len() - i,
        {
            assert(mutators@.take(i + 1).drop_last() =~= mutators@.take(i as int));
            if mutators[i].thread != collector && mutators[i].stack_sp != 0 {
                let regs: [u64; 10] = mutators[i].saved_regs;
                push_candidates(regs.as_slice(), &mut all);
            }
            i = i + 1;
            assert(all@ =~= front + register_words(mutators@.take(i as int), collector));
        }
        assert(mutators@.take(i as int) =~= mutators@);
        self.space.tables.mark_from(&self.space.memory, hooks, &all);
        proof {
            self.space.lemma_claims_wf(&old(self).space);
        }
    }

    /// Queue the finalizers of registered blocks the marking did not reach.
    /// Such a block is claimed for this cycle, with all it reaches, so that its
    /// fields are intact when the callback runs; it leaves the table, so the
    /// callback runs at most once.
    pub fn take_dead_finalizers<H: TypeHooks>(&mut self, hooks: &H)
        requires
            old(self).wf(),
        ensures
            final(self).wf(),
            final(self).finalizables@ == by_claim(
                old(self).space.tables,
                old(self).finalizables@,
                true,
            ),
            final(self).deferred.finalizers@ == old(self).deferred.finalizers@ + due_finalizers(
                old(self).space.memory,
                by_claim(old(self).space.tables, old(self).finalizables@, false),
            ),
            final(self).deferred.releases == old(self).deferred.releases,
            final(self).deferred.running == old(self).deferred.running,
            final(self).space.tables.marked_from(
                &old(self).space.tables,
                &old(self).space.memory,
                hooks,
                offset_words(
                    old(self).space.memory.base,
                    by_claim(old(self).space.tables, old(self).finalizables@, false),
                ),
            ),
            final(self).space.memory == old(self).space.memory,
            final(self).space.free_blocks == old(self).space.free_blocks,
            final(self).space.recycle_spans == old(self).space.recycle_spans,
            final(self).space.tlabs == old(self).space.tlabs,
            final(self).space.reuse_due == old(self).space.reuse_due,
            final(self).space.allocation_point == old(self).space.allocation_point,
            final(self).space.current_block_end == old(self).space.current_block_end,
            final(self).roots == old(self).roots,
            final(self).handles == old(self).handles,
            final(self).globals_range == old(self).globals_range,
            final(self).root_ranges == old(self).root_ranges,
            final(self).fiber_stacks == old(self).fiber_stacks,
            final(self).trigger == old(self).trigger,
            final(self).stats == old(self).stats,
            old(self).claims_ok() ==> final(self).claims_ok(),
    {
        let ghost t0 = self.space.tables;
        let ghost all = self.finalizables@;
        let mut keep: Vec<usize> = Vec::new();
        let mut dead: Vec<usize> = Vec::new();
        let mut i: usize = 0;
        while i < self.finalizables.len()
            invariant
                *self == *old(self),
                old(self).wf(),
                t0 == self.space.tables,
                all == self.finalizables@,
                i <= all.len(),
                keep@ == by_claim(t0, all.take(i as int), true),
                dead@ == by_claim(t0, all.take(i as int), false),
            decreases all.len() - i,
        {
            assert(all.take(i + 1).drop_last() =~= all.take(i as int));
            let offset: usize = self.finalizables[i];
            assert(self.finalizables[i as int] < self.space.memory.size());
            if self.space.tables.objects[offset / ALLOC_QUANTUM] & OBJECT_MARK != 0 {
                keep.push(offset);
            } else {
                dead.push(offset);
            }
            i = i + 1;
        }
        assert(all.take(i as int) =~= all);
        proof {
            lemma_by_claim(t0, all, true);
            lemma_by_claim(t0, all, false);
            assert forall|k: int| 0 <= k < keep.len() implies (#[trigger] keep[k])
                < self.space.memory.size() by {
                assert(all.contains(keep@[k]));
                let m = choose|m: int| 0 <= m < all.len() && all[m] == keep@[k];
                assert(self.finalizables[m] < self.space.memory.size());
            }
            assert forall|k: int| 0 <= k < dead.len() implies (#[trigger] dead[k])
                < self.space.memory.size() by {
                assert(all.contains(dead@[k]));
                let m = choose|m: int| 0 <= m < all.len() && all[m] == dead@[k];
                assert(self.finalizables[m] < self.space.memory.size());
            }
        }
        self.finalizables = keep;
        let mut words: Vec<u64> = Vec::new();
        let mut i: usize = 0;
        while i < dead.len()
            invariant
                i <= dead.len(),
                self.space.memory.inv(),
                forall|k: int|
                    0 <= k < dead.len() ==> (#[trigger] dead[k]) < self.space.memory.size(),
                words@ == offset_words(self.space.memory.base, dead@.take(i as int)),
            decreases dead.len() - i,
        {
            words.push((self.space.memory.base + dead[i]) as u64);
            i = i + 1;
            assert(words@ =~= offset_words(self.space.memory.base, dead@.take(i as int)));
        }
        assert(dead@.take(i as int) =~= dead@);
        self.space.tables.mark_from(&self.space.memory, hooks, &words);
        proof {
            self.space.lemma_claims_wf(&old(self).space);
        }
        let ghost queue = self.deferred.finalizers@;
        let mut i: usize = 0;
        assert(queue + due_finalizers(self.space.memory, dead@.take(0)) =~= queue);
        let ghost mid = *self;
        while i < dead.len()
            invariant
                i <= dead.len(),
                mid.space.memory.inv(),
                self.space == mid.space,
                self.finalizables == mid.finalizables,
                self.roots == mid.roots,
                self.handles == mid.handles,
                self.globals_range == mid.globals_range,
                self.root_ranges == mid.root_ranges,
                self.fiber_stacks == mid.fiber_stacks,
                self.trigger == mid.trigger,
                self.stats == mid.stats,
                self.deferred.releases == mid.deferred.releases,
                self.deferred.running == mid.deferred.running,
                forall|k: int|
                    0 <= k < dead.len() ==> (#[trigger] dead[k]) < self.space.memory.size(),
                self.deferred.finalizers@ == queue + due_finalizers(
                    self.space.memory,
                    dead@.take(i as int),
                ),
            decreases dead.len() - i,
        {
            assert(dead@.take(i + 1).drop_last() =~= dead@.take(i as int));
            let offset: usize = dead[i];
            let word: u64 = self.space.memory.words[offset / WORD];
            if word != 0 {
                self.deferred.finalizers.push((self.space.memory.base + offset, word));
            }
            i = i + 1;
            assert(self.deferred.finalizers@ =~= queue + due_finalizers(
                self.space.memory,
                dead@.take(i as int),
            ));
        }
        assert(dead@.take(i as int) =~= dead@);
    }

    /// How many of the first `n` blocks are handed out.
    pub open spec fn live_upto(blocks: Seq<Block>, n: nat) -> nat
        decreases n,
    {
        if n == 0 {
            0
        } else {
            ImmixAllocator::live_upto(blocks, (n - 1) as nat) + if blocks[n - 1].used {
                1nat
            } else {
                0
            }
        }
    }

    /// How many blocks are handed out.
    pub open spec fn live(&self) -> nat {
        ImmixAllocator::live_upto(
            self.space.tables.blocks@,
            self.space.tables.blocks.len() as nat,
        )
    }

    /// How many blocks are handed out.
    pub fn live_blocks(&self) -> (n: usize)
        ensures
            n == self.live(),
            n <= self.space.tables.blocks.len(),
    {
        let mut n: usize = 0;
        let mut i: usize = 0;
        while i < self.space.tables.blocks.len()
            invariant
                i <= self.space.tables.blocks.len(),
                n == ImmixAllocator::live_upto(self.space.tables.blocks@, i as nat),
                n <= i,
            decreases self.space.tables.blocks.len() - i,
        {
            if self.space.tables.blocks[i].used {
                n = n + 1;
            }
            i = i + 1;
        }
        n
    }

    /// The next trigger: the live bytes times the growth factor, held between
    /// the floor and the ceiling, which is never below the live set nor below
    /// the floor.
    pub open spec fn next_threshold(live_bytes: int, c: Collection) -> int {
        let top = if c.ceiling > live_bytes {
            c.ceiling as int
        } else {
            live_bytes
        };
        let top = if top > c.floor {
            top
        } else {
            c.floor as int
        };
        clamped(live_bytes * c.growth, c.floor as int, top)
    }
}

/// The next trigger after a collection that left `live_bytes`.
pub fn next_threshold(live_bytes: u64, c: Collection) -> (r: u64)
    ensures
        r == ImmixAllocator::next_threshold(live_bytes as int, c),
{
    let top: u64 = if c.ceiling > live_bytes {
        c.ceiling
    } else {
        live_bytes
    };
    let top: u64 = if top > c.floor {
        top
    } else {
        c.floor
    };
    match live_bytes.checked_mul(c.growth as u64) {
        Some(n) => if n < c.floor {
            c.floor
        } else if n > top {
            top
        } else {
            n
        },
        None => top,
    }
}

} // verus!
