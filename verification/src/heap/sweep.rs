//! The sweep: a block nothing reached goes back whole, the unclaimed lines of
//! the others are recycled, and every claim is cleared.

use vstd::prelude::*;

use crate::heap::hooks::TypeHooks;
use crate::heap::layout::{
    claim_bit, kind_bits, lemma_claim_bit, lemma_plain_code, ALLOC_QUANTUM, BLOCK_SIZE,
    OBJECT_KIND_MASK, OBJECT_KIND_TRACED, OBJECT_MARK, OBJECT_SIZE_MASK, QUANTA_PER_BLOCK,
    SPAN_OBJECT, WORDS_PER_BLOCK,
};
use crate::heap::memory::HeapMemory;
use crate::heap::space::{apart, Space};
use crate::heap::tables::Tables;

verus! {

/// What a sweep may do with what it finds.
#[derive(Clone, Copy)]
pub struct SweepOptions {
    /// Reuse the unclaimed lines of kept blocks.
    pub recycle: bool,
    /// Keep every block; the heap only grows.
    pub no_reclaim: bool,
    /// Fill freed blocks with a pattern.
    pub poison: bool,
    /// Fill freed blocks and never reuse them.
    pub quarantine: bool,
}

/// The word a poisoned block is filled with.
pub const POISON: u64 = 0xA5A5_A5A5_A5A5_A5A5;

impl Tables {
    /// A traced object the cycle did not claim, in a block that may hold
    /// objects with a drop hook.
    pub open spec fn dead_traced(&self, q: int) -> bool {
        &&& 0 <= q < self.objects.len()
        &&& self.blocks[q / 2048].used
        &&& self.blocks[q / 2048].has_drop
        &&& kind_bits(self.objects[q]) == 0x40
        &&& !claim_bit(self.objects[q])
    }

    /// A traced object the cycle claimed.
    pub open spec fn live_traced(&self, q: int) -> bool {
        &&& 0 <= q < self.objects.len()
        &&& kind_bits(self.objects[q]) == 0x40
        &&& claim_bit(self.objects[q])
    }

    /// The dead traced objects whose descriptor drops, among the first `n`
    /// quanta, as addresses in ascending order.
    pub open spec fn to_drop<H: TypeHooks>(
        &self,
        mem: &HeapMemory,
        hooks: &H,
        n: nat,
    ) -> Seq<usize>
        decreases n,
    {
        if n == 0 {
            Seq::empty()
        } else {
            let q = n - 1;
            let init = self.to_drop(mem, hooks, q as nat);
            if self.dead_traced(q) && mem.words[q * 2] != 0 && hooks.drops(mem.words[q * 2]) {
                init.push((mem.base + q * 16) as usize)
            } else {
                init
            }
        }
    }

    /// A block without anything to drop adds nothing to drop.
    proof fn lemma_none_dead<H: TypeHooks>(&self, mem: &HeapMemory, hooks: &H, b: int)
        requires
            0 <= b < self.blocks.len(),
            self.objects.len() == self.blocks.len() * 2048,
            !(self.blocks[b].used && self.blocks[b].has_drop),
        ensures
            self.to_drop(mem, hooks, ((b + 1) * 2048) as nat) == self.to_drop(
                mem,
                hooks,
                (b * 2048) as nat,
            ),
    {
        self.lemma_none_dead_upto(mem, hooks, b, 2048);
    }

    proof fn lemma_none_dead_upto<H: TypeHooks>(
        &self,
        mem: &HeapMemory,
        hooks: &H,
        b: int,
        k: nat,
    )
        requires
            0 <= b < self.blocks.len(),
            self.objects.len() == self.blocks.len() * 2048,
            !(self.blocks[b].used && self.blocks[b].has_drop),
            k <= 2048,
        ensures
            self.to_drop(mem, hooks, (b * 2048 + k) as nat) == self.to_drop(
                mem,
                hooks,
                (b * 2048) as nat,
            ),
        decreases k,
    {
        if k > 0 {
            self.lemma_none_dead_upto(mem, hooks, b, (k - 1) as nat);
            let q = b * 2048 + k - 1;
            assert(q / 2048 == b);
            assert(!self.dead_traced(q));
        }
    }

    /// `self` is `before` once the dead traced objects below quantum `n` are
    /// forgotten.
    pub open spec fn dropped_below(&self, before: &Tables, n: int) -> bool {
        &&& self.objects.len() == before.objects.len()
        &&& self.alloc_sizes.len() == before.alloc_sizes.len()
        &&& self.blocks.len() == before.blocks.len()
        &&& forall|q: int|
            #![trigger self.objects[q]]
            0 <= q < self.objects.len() ==> self.objects[q] == if q < n && before.dead_traced(q) {
                0
            } else {
                before.objects[q]
            }
        &&& forall|l: int|
            #![trigger self.alloc_sizes[l]]
            0 <= l < self.alloc_sizes.len() ==> self.alloc_sizes[l] == if l * 8 < n
                && before.dead_traced(l * 8) && before.code(l * 8) == 9 {
                0
            } else {
                before.alloc_sizes[l]
            }
    }

    /// The block flags after the drop pass over the first `n` blocks: a block
    /// still holds something to drop while a traced object of it lives.
    pub open spec fn drop_flags(&self, before: &Tables, n: int) -> bool {
        forall|b: int|
            #![trigger self.blocks[b]]
            0 <= b < self.blocks.len() ==> {
                &&& self.blocks[b].mark_bits == before.blocks[b].mark_bits
                &&& self.blocks[b].any_marked == before.blocks[b].any_marked
                &&& self.blocks[b].has_span == before.blocks[b].has_span
                &&& self.blocks[b].used == before.blocks[b].used
                &&& self.blocks[b].reusable == before.blocks[b].reusable
                &&& self.blocks[b].has_drop == if b < n && before.blocks[b].used {
                    before.blocks[b].has_drop && exists|q: int|
                        b * 2048 <= q < (b + 1) * 2048 && #[trigger] before.live_traced(q)
                } else {
                    before.blocks[b].has_drop
                }
            }
    }

    /// Forgetting starts keeps the tables in order.
    pub proof fn lemma_thinned(&self, before: &Tables)
        requires
            before.inv(),
            self.objects.len() == before.objects.len(),
            self.alloc_sizes.len() == before.alloc_sizes.len(),
            self.blocks.len() == before.blocks.len(),
            forall|q: int| #[trigger]
                self.is_start(q) ==> before.is_start(q) && self.code(q) == before.code(q),
            forall|l: int|
                #![trigger self.alloc_sizes[l]]
                0 <= l < self.alloc_sizes.len() ==> self.alloc_sizes[l] == before.alloc_sizes[l]
                    || self.alloc_sizes[l] == 0,
            forall|q: int| #[trigger]
                self.is_start(q) && self.code(q) == 9 ==> self.alloc_sizes[q / 8]
                    == before.alloc_sizes[q / 8],
        ensures
            self.inv(),
            forall|q: int| #[trigger]
                self.is_start(q) ==> self.extent(q) == before.extent(q),
            before.sound() && (forall|q: int, l: int| #[trigger]
                self.on_line(q, l) ==> self.blocks[l / 256].used && (self.code(q) == 9
                    ==> self.blocks[l / 256].has_span)) ==> self.sound(),
    {
        assert forall|q: int| 0 <= q < self.objects.len() implies #[trigger] self.entry_ok(q) by {
            assert(before.entry_ok(q));
            if self.is_start(q) {
                assert(before.is_start(q));
            }
        }
        assert forall|q: int| #[trigger] self.is_start(q) implies self.extent(q) == before.extent(
            q,
        ) by {
            assert(before.is_start(q));
        }
        if before.sound() && (forall|q: int, l: int| #[trigger]
            self.on_line(q, l) ==> self.blocks[l / 256].used && (self.code(q) == 9
                ==> self.blocks[l / 256].has_span)) {
            assert forall|p: int, q: int|
                #![trigger self.is_start(p), self.is_start(q)]
                self.is_start(p) && self.is_start(q) && p < q implies p + self.extent(p) <= q by {
                assert(before.is_start(p) && before.is_start(q));
            }
            assert forall|q: int, l: int|
                #![trigger self.is_start(q), self.alloc_sizes[l]]
                self.is_start(q) && self.code(q) == 9 && q / 8 < l < q / 8 + self.alloc_sizes[q
                    / 8] implies self.alloc_sizes[l] == 0 by {
                assert(before.is_start(q));
                assert(before.entry_ok(q));
                assert(before.alloc_sizes[l] == 0);
            }
            assert forall|q: int| #[trigger] self.is_start(q) implies q % 2048 == 0 || q / 2048 == (q
                + self.extent(q) - 1) / 2048 by {
                assert(before.is_start(q));
            }
        }
    }
}

impl Space {
    /// Forgetting starts keeps the regions in order.
    pub proof fn lemma_thinned_regions(&self, before: &Space)
        requires
            before.sound(),
            self.tables.sound(),
            self.tables.inv(),
            forall|q: int| #[trigger]
                self.tables.is_start(q) ==> before.tables.is_start(q) && self.tables.extent(q)
                    == before.tables.extent(q),
            self.tlabs == before.tlabs,
            self.allocation_point == before.allocation_point,
            self.current_block_end == before.current_block_end,
        ensures
            self.tlabs_sound(),
            self.tables.vacant(self.allocation_point as int, self.current_block_end as int),
            self.recycle_spans == before.recycle_spans ==> self.sound(),
    {
        assert forall|a: int, b: int| before.tables.vacant(a, b) implies #[trigger]
        self.tables.vacant(a, b) by {
            assert forall|q: int| #[trigger] self.tables.is_start(q) implies apart(
                q * 16,
                (q + self.tables.extent(q)) * 16,
                a,
                b,
            ) by {
                assert(before.tables.is_start(q));
            }
        }
        assert forall|a: int, b: int| before.tables.enclosed(a, b) implies #[trigger]
        self.tables.enclosed(a, b) by {
            assert forall|q: int| #[trigger] self.tables.is_start(q) implies apart(
                q * 16,
                (q + self.tables.extent(q)) * 16,
                a,
                b,
            ) || (a <= q * 16 && (q + self.tables.extent(q)) * 16 <= b) by {
                assert(before.tables.is_start(q));
            }
        }
        assert forall|block: int| before.tables.kept_in(block) implies #[trigger]
        self.tables.kept_in(block) by {
            assert forall|q: int| #[trigger] self.tables.is_start(q) && q / 2048 == block
                / 32768 implies (q + self.tables.extent(q)) * 16 <= block + 32768 by {
                assert(before.tables.is_start(q));
            }
        }
    }

    /// Run the drop hook of every unclaimed traced object and forget its
    /// start, so no later cycle can resolve a stale pointer into it and trace
    /// or drop it again. Only in blocks that may hold one with a hook. Before
    /// any block is reclaimed: a hook reads its object.
    pub fn drop_dead_traced<H: TypeHooks>(&mut self, hooks: &mut H)
        requires
            old(self).wf(),
        ensures
            final(self).wf(),
            final(self).tables.dropped_below(
                &old(self).tables,
                old(self).tables.objects.len() as int,
            ),
            final(self).tables.drop_flags(&old(self).tables, old(self).tables.blocks.len() as int),
            final(self).memory == old(self).memory,
            final(self).free_blocks == old(self).free_blocks,
            final(self).recycle_spans == old(self).recycle_spans,
            final(self).tlabs == old(self).tlabs,
            final(self).reuse_due == old(self).reuse_due,
            final(self).allocation_point == old(self).allocation_point,
            final(self).current_block_end == old(self).current_block_end,
            final(hooks).same_types(old(hooks)),
            final(hooks).dropped() == old(hooks).dropped() + old(self).tables.to_drop(
                &old(self).memory,
                old(hooks),
                old(self).tables.objects.len() as nat,
            ),
    {
        let mut b: usize = 0;
        let ghost t0 = self.tables;
        let ghost mem = self.memory;
        let ghost h0 = *hooks;
        proof {
            hooks.lemma_types_self();
            assert(hooks.dropped() + t0.to_drop(&mem, &h0, 0) =~= hooks.dropped());
        }
        while b < self.tables.blocks.len()
            invariant
                old(self).wf(),
                t0 == old(self).tables,
                mem == old(self).memory,
                h0 == *old(hooks),
                self.memory == old(self).memory,
                self.free_blocks == old(self).free_blocks,
                self.recycle_spans == old(self).recycle_spans,
                self.tlabs == old(self).tlabs,
                self.reuse_due == old(self).reuse_due,
                self.allocation_point == old(self).allocation_point,
                self.current_block_end == old(self).current_block_end,
                b <= t0.blocks.len(),
                self.tables.dropped_below(&t0, b * 2048),
                self.tables.drop_flags(&t0, b as int),
                hooks.same_types(&h0),
                hooks.dropped() == old(hooks).dropped() + t0.to_drop(&mem, &h0, (b * 2048) as nat),
            decreases t0.blocks.len() - b,
        {
            if !(self.tables.blocks[b].used && self.tables.blocks[b].has_drop) {
                proof {
                    assert(t0.blocks[b as int].used == self.tables.blocks[b as int].used);
                    t0.lemma_none_dead(&mem, &h0, b as int);
                    assert forall|q: int| b * 2048 <= q < (b + 1) * 2048 implies !(
                    #[trigger] t0.dead_traced(q)) by {
                        assert(q / 2048 == b);
                    }
                    assert(self.tables.dropped_below(&t0, (b + 1) * 2048));
                    assert(self.tables.drop_flags(&t0, b + 1));
                }
                b = b + 1;
                continue;
            }
            let mut any_live: bool = false;
            let first: usize = b * QUANTA_PER_BLOCK;
            let mut k: usize = 0;
            while k < QUANTA_PER_BLOCK
                invariant
                    old(self).wf(),
                    t0 == old(self).tables,
                    mem == old(self).memory,
                    h0 == *old(hooks),
                    self.memory == old(self).memory,
                    self.free_blocks == old(self).free_blocks,
                    self.recycle_spans == old(self).recycle_spans,
                    self.tlabs == old(self).tlabs,
                    self.reuse_due == old(self).reuse_due,
                    self.allocation_point == old(self).allocation_point,
                    self.current_block_end == old(self).current_block_end,
                    b < t0.blocks.len(),
                    t0.blocks[b as int].used,
                    t0.blocks[b as int].has_drop,
                    first == b * 2048,
                    k <= 2048,
                    self.tables.dropped_below(&t0, first + k),
                    self.tables.drop_flags(&t0, b as int),
                    hooks.same_types(&h0),
                    hooks.dropped() == old(hooks).dropped() + t0.to_drop(
                        &mem,
                        &h0,
                        (first + k) as nat,
                    ),
                    any_live == exists|q: int|
                        first <= q < first + k && #[trigger] t0.live_traced(q),
                decreases 2048 - k,
            {
                let q: usize = first + k;
                let code: u8 = self.tables.objects[q];
                let ghost before = self.tables;
                proof {
                    assert(code == t0.objects[q as int]);
                    assert(q as int / 2048 == b);
                    assert(t0.entry_ok(q as int));
                }
                if code & OBJECT_KIND_MASK == OBJECT_KIND_TRACED {
                    if code & OBJECT_MARK != 0 {
                        assert(t0.live_traced(q as int));
                        any_live = true;
                    } else {
                        assert(t0.dead_traced(q as int));
                        let desc: u64 = self.memory.words[q * 2];
                        let ghost log = hooks.dropped();
                        let ghost h1 = *hooks;
                        proof {
                            hooks.lemma_same_types(&h0);
                        }
                        if desc != 0 && hooks.has_drop(desc) {
                            let obj: usize = self.memory.base + q * ALLOC_QUANTUM;
                            hooks.drop_object(desc, obj);
                            proof {
                                hooks.lemma_types_chain(&h1, &h0);
                                assert(old(hooks).dropped() + t0.to_drop(
                                    &mem,
                                    &h0,
                                    (first + k + 1) as nat,
                                ) =~= log.push(obj));
                            }
                        }
                        if code & OBJECT_SIZE_MASK == SPAN_OBJECT {
                            self.tables.alloc_sizes[q / 8] = 0;
                        }
                        self.tables.objects[q] = 0;
                    }
                }
                proof {
                    assert(self.tables.dropped_below(&t0, first + k + 1)) by {
                        assert forall|l: int| 0 <= l < self.tables.alloc_sizes.len() implies (
                        #[trigger] self.tables.alloc_sizes[l]) == if l * 8 < first + k + 1
                            && t0.dead_traced(l * 8) && t0.code(l * 8) == 9 {
                            0
                        } else {
                            t0.alloc_sizes[l]
                        } by {
                            assert(before.alloc_sizes[l] == if l * 8 < first + k && t0.dead_traced(
                                l * 8,
                            ) && t0.code(l * 8) == 9 {
                                0
                            } else {
                                t0.alloc_sizes[l]
                            });
                        }
                    }
                    assert(self.tables.drop_flags(&t0, b as int)) by {
                        assert(self.tables.blocks == before.blocks);
                    }
                }
                k = k + 1;
            }
            let ghost before = self.tables;
            self.tables.blocks[b].has_drop = any_live;
            proof {
                assert(self.tables.dropped_below(&t0, (b + 1) * 2048));
                assert(self.tables.drop_flags(&t0, b + 1)) by {
                    assert forall|c: int| 0 <= c < self.tables.blocks.len() && c != b implies (
                    #[trigger] self.tables.blocks[c]) == before.blocks[c] by {}
                }
            }
            b = b + 1;
        }
        proof {
            self.lemma_dropped_wf(old(self));
        }
    }

    proof fn lemma_dropped_wf(&self, before: &Space)
        requires
            before.wf(),
            self.tables.dropped_below(&before.tables, before.tables.objects.len() as int),
            self.tables.drop_flags(&before.tables, before.tables.blocks.len() as int),
            self.memory == before.memory,
            self.free_blocks == before.free_blocks,
            self.recycle_spans == before.recycle_spans,
            self.tlabs == before.tlabs,
            self.allocation_point == before.allocation_point,
            self.current_block_end == before.current_block_end,
        ensures
            self.wf(),
    {
        let t0 = before.tables;
        lemma_plain_code(0);
        assert forall|q: int| #[trigger] self.tables.is_start(q) implies t0.is_start(q)
            && self.tables.code(q) == t0.code(q) by {
            assert(self.tables.objects[q] == if t0.dead_traced(q) {
                0
            } else {
                t0.objects[q]
            });
        }
        assert forall|q: int| #[trigger] self.tables.is_start(q) && self.tables.code(
            q,
        ) == 9 implies self.tables.alloc_sizes[q / 8] == t0.alloc_sizes[q / 8] by {
            assert(t0.entry_ok(q));
            assert(self.tables.objects[q] == if t0.dead_traced(q) {
                0
            } else {
                t0.objects[q]
            });
        }
        self.tables.lemma_thinned(&t0);
        assert forall|q: int, l: int| #[trigger]
            self.tables.on_line(q, l) implies self.tables.blocks[l / 256].used && (
        self.tables.code(q) == 9 ==> self.tables.blocks[l / 256].has_span) by {
            assert(t0.on_line(q, l));
            t0.lemma_line_in_heap(q, l);
            assert(self.tables.blocks[l / 256].used == t0.blocks[l / 256].used);
        }
        self.lemma_thinned_regions(before);
        assert forall|i: int| 0 <= i < self.recycle_spans.len() implies self.span_ok(
            #[trigger] self.recycle_spans[i],
        ) by {
            assert(before.span_ok(before.recycle_spans[i]));
        }
        assert forall|i: int| 0 <= i < self.tlabs.len() implies self.tlab_ok(
            #[trigger] self.tlabs[i],
        ) by {
            assert(before.tlab_ok(before.tlabs[i]));
        }
        assert(self.free_ok());
    }

    /// Whether a mutator bumps through block `b`.
    pub open spec fn tlab_block(&self, b: int) -> bool {
        exists|i: int| 0 <= i < self.tlabs.len() && (#[trigger] self.tlabs[i]).block == b * 32768
    }

    /// Nothing reached block `b`: it was not touched, or holds no claimed line.
    pub open spec fn empty_block(&self, b: int) -> bool {
        !self.tables.blocks[b].any_marked || self.tables.blocks[b].clear()
    }

    /// Whether a sweep gives block `b` back whole.
    pub open spec fn frees(&self, b: int, opts: SweepOptions) -> bool {
        &&& self.tables.blocks[b].used
        &&& self.empty_block(b)
        &&& !self.tlab_block(b)
        &&& !opts.no_reclaim
    }

    /// Whether a sweep recycles the unclaimed lines of block `b`.
    pub open spec fn recycles(&self, b: int, opts: SweepOptions) -> bool {
        &&& self.tables.blocks[b].used
        &&& !self.empty_block(b)
        &&& !self.tlab_block(b)
        &&& opts.recycle
    }

    /// The blocks a sweep frees among the first `n`, in ascending order.
    pub open spec fn freed_upto(&self, n: nat, opts: SweepOptions) -> Seq<usize>
        decreases n,
    {
        if n == 0 {
            Seq::empty()
        } else {
            let init = self.freed_upto((n - 1) as nat, opts);
            if self.frees(n - 1, opts) {
                init.push(((n - 1) * 32768) as usize)
            } else {
                init
            }
        }
    }

    /// The unclaimed runs of block `b`, as recycled lines.
    pub open spec fn block_runs(&self, b: int) -> Seq<(usize, usize, usize)> {
        let runs = self.tables.blocks[b].runs();
        Seq::new(runs.len(), |i: int| ((b * 32768) as usize, runs[i].0, runs[i].1))
    }

    /// The runs a sweep recycles in the first `n` blocks.
    pub open spec fn recycled_upto(&self, n: nat, opts: SweepOptions) -> Seq<(usize, usize, usize)>
        decreases n,
    {
        if n == 0 {
            Seq::empty()
        } else {
            let init = self.recycled_upto((n - 1) as nat, opts);
            if self.recycles(n - 1, opts) {
                init + self.block_runs(n - 1)
            } else {
                init
            }
        }
    }

    /// The object byte at `q` after the sweep of its block `b`.
    pub open spec fn swept_byte(&self, b: int, q: int, opts: SweepOptions) -> u8 {
        if self.frees(b, opts) {
            0
        } else if self.tables.blocks[b].used && self.tables.blocks[b].any_marked {
            self.tables.objects[q] & !0x80u8
        } else {
            self.tables.objects[q]
        }
    }

    /// Block `b` is as the sweep leaves it.
    pub open spec fn block_swept(&self, before: &Space, b: int, opts: SweepOptions) -> bool {
        let was = before.tables.blocks[b];
        let now = self.tables.blocks[b];
        let freed = before.frees(b, opts);
        &&& now.used == (was.used && !freed)
        &&& now.has_span == (was.has_span && !freed)
        &&& now.has_drop == (was.has_drop && !freed)
        &&& now.reusable == was.reusable
        &&& now.any_marked == (was.any_marked && !was.used)
        &&& was.used && was.any_marked ==> now.clear()
        &&& !(was.used && was.any_marked) ==> now.mark_bits == was.mark_bits
        &&& forall|q: int|
            #![trigger self.tables.objects[q]]
            b * 2048 <= q < (b + 1) * 2048 ==> self.tables.objects[q] == before.swept_byte(
                b,
                q,
                opts,
            )
        &&& forall|l: int|
            #![trigger self.tables.alloc_sizes[l]]
            b * 256 <= l < (b + 1) * 256 ==> self.tables.alloc_sizes[l] == if freed {
                0
            } else {
                before.tables.alloc_sizes[l]
            }
        &&& forall|k: int|
            #![trigger self.memory.words[k]]
            b * 4096 <= k < (b + 1) * 4096 ==> self.memory.words[k] == if freed && (opts.poison
                || opts.quarantine) {
                POISON
            } else {
                before.memory.words[k]
            }
    }

    /// Block `b` is as it was.
    pub open spec fn block_same(&self, before: &Space, b: int) -> bool {
        &&& self.tables.blocks[b] == before.tables.blocks[b]
        &&& forall|q: int|
            #![trigger self.tables.objects[q]]
            b * 2048 <= q < (b + 1) * 2048 ==> self.tables.objects[q] == before.tables.objects[q]
        &&& forall|l: int|
            #![trigger self.tables.alloc_sizes[l]]
            b * 256 <= l < (b + 1) * 256 ==> self.tables.alloc_sizes[l]
                == before.tables.alloc_sizes[l]
        &&& forall|k: int|
            #![trigger self.memory.words[k]]
            b * 4096 <= k < (b + 1) * 4096 ==> self.memory.words[k] == before.memory.words[k]
    }

    /// Everything outside block `b` is as it was.
    pub open spec fn outside_same(&self, before: &Space, b: int) -> bool {
        &&& self.shaped_like(before)
        &&& forall|c: int|
            0 <= c < self.tables.blocks.len() && c != b ==> #[trigger] self.tables.blocks[c]
                == before.tables.blocks[c]
        &&& forall|q: int|
            #![trigger self.tables.objects[q]]
            0 <= q < self.tables.objects.len() && !(b * 2048 <= q < (b + 1) * 2048)
                ==> self.tables.objects[q] == before.tables.objects[q]
        &&& forall|l: int|
            #![trigger self.tables.alloc_sizes[l]]
            0 <= l < self.tables.alloc_sizes.len() && !(b * 256 <= l < (b + 1) * 256)
                ==> self.tables.alloc_sizes[l] == before.tables.alloc_sizes[l]
        &&& forall|k: int|
            #![trigger self.memory.words[k]]
            0 <= k < self.memory.words.len() && !(b * 4096 <= k < (b + 1) * 4096)
                ==> self.memory.words[k] == before.memory.words[k]
    }

    /// The same sizes throughout.
    pub open spec fn shaped_like(&self, before: &Space) -> bool {
        &&& self.tables.blocks.len() == before.tables.blocks.len()
        &&& self.tables.objects.len() == before.tables.objects.len()
        &&& self.tables.alloc_sizes.len() == before.tables.alloc_sizes.len()
        &&& self.memory.words.len() == before.memory.words.len()
        &&& self.memory.base == before.memory.base
        &&& self.tlabs == before.tlabs
        &&& self.reuse_due == before.reuse_due
        &&& self.allocation_point == before.allocation_point
        &&& self.current_block_end == before.current_block_end
    }

    fn is_tlab_block(&self, b: usize) -> (r: bool)
        requires
            b * 32768 <= usize::MAX,
        ensures
            r == self.tlab_block(b as int),
    {
        let mut i: usize = 0;
        while i < self.tlabs.len()
            invariant
                b * 32768 <= usize::MAX,
                i <= self.tlabs.len(),
                forall|k: int| 0 <= k < i ==> (#[trigger] self.tlabs[k]).block != b * 32768,
            decreases self.tlabs.len() - i,
        {
            if self.tlabs[i].block == b * BLOCK_SIZE {
                assert(self.tlabs[i as int].block == b * 32768);
                return true;
            }
            i = i + 1;
        }
        false
    }

    /// Clear the claim bits of block `b`'s objects.
    fn clear_claims(&mut self, b: usize)
        requires
            old(self).tables.inv(),
            b < old(self).tables.blocks.len(),
        ensures
            final(self).outside_same(old(self), b as int),
            final(self).memory == old(self).memory,
            final(self).free_blocks == old(self).free_blocks,
            final(self).recycle_spans == old(self).recycle_spans,
            final(self).tables.blocks == old(self).tables.blocks,
            final(self).tables.alloc_sizes == old(self).tables.alloc_sizes,
            forall|q: int|
                #![trigger final(self).tables.objects[q]]
                b * 2048 <= q < (b + 1) * 2048 ==> final(self).tables.objects[q] == old(
                    self,
                ).tables.objects[q] & !0x80u8,
    {
        let first: usize = b * QUANTA_PER_BLOCK;
        let mut k: usize = 0;
        while k < QUANTA_PER_BLOCK
            invariant
                old(self).tables.inv(),
                b < old(self).tables.blocks.len(),
                first == b * 2048,
                k <= 2048,
                self.memory == old(self).memory,
                self.free_blocks == old(self).free_blocks,
                self.recycle_spans == old(self).recycle_spans,
                self.shaped_like(old(self)),
                self.tables.blocks == old(self).tables.blocks,
                self.tables.alloc_sizes == old(self).tables.alloc_sizes,
                forall|q: int|
                    #![trigger self.tables.objects[q]]
                    0 <= q < self.tables.objects.len() ==> self.tables.objects[q] == if first <= q
                        < first + k {
                        old(self).tables.objects[q] & !0x80u8
                    } else {
                        old(self).tables.objects[q]
                    },
            decreases 2048 - k,
        {
            let byte: u8 = self.tables.objects[first + k];
            self.tables.objects[first + k] = byte & !OBJECT_MARK;
            k = k + 1;
        }
    }

    /// Forget everything in block `b`, and fill it when asked to.
    fn wipe(&mut self, b: usize, fill: bool)
        requires
            old(self).tables.inv(),
            old(self).tables.covers(&old(self).memory),
            b < old(self).tables.blocks.len(),
        ensures
            final(self).outside_same(old(self), b as int),
            final(self).free_blocks == old(self).free_blocks,
            final(self).recycle_spans == old(self).recycle_spans,
            final(self).tables.blocks@ == old(self).tables.blocks@,
            final(self).memory.inv(),
            forall|q: int|
                #![trigger final(self).tables.objects[q]]
                b * 2048 <= q < (b + 1) * 2048 ==> final(self).tables.objects[q] == 0,
            forall|l: int|
                #![trigger final(self).tables.alloc_sizes[l]]
                b * 256 <= l < (b + 1) * 256 ==> final(self).tables.alloc_sizes[l] == 0,
            forall|k: int|
                #![trigger final(self).memory.words[k]]
                b * 4096 <= k < (b + 1) * 4096 ==> final(self).memory.words[k] == if fill {
                    POISON
                } else {
                    old(self).memory.words[k]
                },
    {
        if fill {
            self.memory.fill(b * WORDS_PER_BLOCK, WORDS_PER_BLOCK, POISON);
        }
        let ghost mid = *self;
        self.tables.clear_allocation_metadata(b * BLOCK_SIZE, BLOCK_SIZE);
        proof {
            assert(self.tables.cleared(&mid.tables, b * 32768, b * 32768 + 32768));
            assert(self.tables.blocks@ == mid.tables.blocks@);
        }
    }

    /// Sweep block `b`, which is handed out; how many of its lines were
    /// claimed, and whether it was freed.
    pub(crate) fn sweep_block(&mut self, b: usize, opts: SweepOptions) -> (r: (usize, bool))
        requires
            old(self).tables.inv(),
            old(self).tables.covers(&old(self).memory),
            b < old(self).tables.blocks.len(),
            old(self).tables.blocks[b as int].used,
        ensures
            final(self).outside_same(old(self), b as int),
            final(self).memory.inv(),
            final(self).block_swept(old(self), b as int, opts),
            r.0 == if old(self).tables.blocks[b as int].any_marked {
                old(self).tables.blocks[b as int].count_marked(256)
            } else {
                0
            },
            r.1 == old(self).frees(b as int, opts),
            final(self).free_blocks@ == if r.1 && !opts.quarantine {
                old(self).free_blocks@.push((b * 32768) as usize)
            } else {
                old(self).free_blocks@
            },
            final(self).recycle_spans@ == if old(self).recycles(b as int, opts) {
                old(self).recycle_spans@ + old(self).block_runs(b as int)
            } else {
                old(self).recycle_spans@
            },
    {
        let is_tlab: bool = self.is_tlab_block(b);
        let touched: bool = self.tables.blocks[b].any_marked;
        let (spans, marked) = if touched {
            self.tables.blocks[b].harvest()
        } else {
            (Vec::new(), 0)
        };
        if touched {
            self.clear_claims(b);
            self.tables.blocks[b].clear_marks();
        }
        let ghost bare = self.tables.blocks[b as int];
        self.tables.blocks[b].any_marked = false;
        let ghost mid = *self;
        proof {
            mid.tables.blocks[b as int].lemma_same_bits(&bare);
            assert(marked == 0 <==> old(self).empty_block(b as int));
            self.lemma_claims_gone(old(self), b as int);
        }
        if marked > 0 && !is_tlab && opts.recycle {
            self.push_runs(b, &spans);
            proof {
                assert(self.recycle_spans@ =~= old(self).recycle_spans@ + old(self).block_runs(
                    b as int,
                ));
            }
        }
        if marked == 0 && !is_tlab && !opts.no_reclaim {
            self.wipe(b, opts.poison || opts.quarantine);
            if !opts.quarantine {
                self.free_blocks.push(b * BLOCK_SIZE);
            }
            self.tables.blocks[b].used = false;
            self.tables.blocks[b].has_span = false;
            self.tables.blocks[b].has_drop = false;
            proof {
                self.tables.blocks[b as int].lemma_same_bits(&bare);
            }
            return (marked, true);
        }
        (marked, false)
    }

    /// Clearing claims leaves every size alone.
    proof fn lemma_claims_gone(&self, before: &Space, b: int)
        requires
            before.tables.inv(),
            self.shaped_like(before),
            self.tables.alloc_sizes == before.tables.alloc_sizes,
            forall|q: int|
                #![trigger self.tables.objects[q]]
                0 <= q < self.tables.objects.len() ==> self.tables.objects[q]
                    == before.tables.objects[q] || self.tables.objects[q]
                    == before.tables.objects[q] & !0x80u8,
        ensures
            self.tables.inv(),
    {
        assert forall|q: int| 0 <= q < self.tables.objects.len() implies #[trigger]
        self.tables.entry_ok(q) by {
            lemma_claim_bit(before.tables.objects[q]);
            assert(before.tables.entry_ok(q));
            assert(self.tables.objects[q] == self.tables.objects[q]);
            assert(self.tables.code(q) == before.tables.code(q));
        }
    }

    /// Queue the runs of block `b` for reuse.
    fn push_runs(&mut self, b: usize, runs: &Vec<(usize, usize)>)
        requires
            b * 32768 <= usize::MAX,
        ensures
            final(self).recycle_spans@ == old(self).recycle_spans@ + Seq::new(
                runs@.len(),
                |i: int| ((b * 32768) as usize, runs[i].0, runs[i].1),
            ),
            final(self).tables == old(self).tables,
            final(self).memory == old(self).memory,
            final(self).free_blocks == old(self).free_blocks,
            final(self).tlabs == old(self).tlabs,
            final(self).reuse_due == old(self).reuse_due,
            final(self).allocation_point == old(self).allocation_point,
            final(self).current_block_end == old(self).current_block_end,
    {
        let mut i: usize = 0;
        let ghost base = self.recycle_spans@;
        let ghost all = Seq::new(
            runs@.len(),
            |k: int| ((b * 32768) as usize, runs[k].0, runs[k].1),
        );
        assert(base + all.take(0) =~= base);
        while i < runs.len()
            invariant
                b * 32768 <= usize::MAX,
                i <= runs.len(),
                all == Seq::new(
                    runs@.len(),
                    |k: int| ((b * 32768) as usize, runs[k].0, runs[k].1),
                ),
                self.recycle_spans@ == base + all.take(i as int),
                self.tables == old(self).tables,
                self.memory == old(self).memory,
                self.free_blocks == old(self).free_blocks,
                self.tlabs == old(self).tlabs,
                self.reuse_due == old(self).reuse_due,
                self.allocation_point == old(self).allocation_point,
                self.current_block_end == old(self).current_block_end,
            decreases runs.len() - i,
        {
            let (start, len) = runs[i];
            self.recycle_spans.push((b * BLOCK_SIZE, start, len));
            i = i + 1;
            assert(self.recycle_spans@ =~= base + all.take(i as int));
        }
        assert(all.take(i as int) =~= all);
    }
}

} // verus!
