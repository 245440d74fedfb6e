//! Allocation: bump regions first, then recycled lines, then a free block.

use vstd::prelude::*;

use crate::heap::layout::{BLOCK_SIZE, LINE_SIZE};
use crate::heap::space::{apart, last_fit, lemma_last_fit, span_hi, span_lo, Space, Tlab};

verus! {

impl Space {
    /// A run of recycled lines lies in one handed-out block.
    pub open spec fn span_ok(&self, s: (usize, usize, usize)) -> bool {
        &&& s.0 % 32768 == 0
        &&& s.0 as int / 32768 < self.tables.blocks.len()
        &&& self.tables.blocks[s.0 as int / 32768].used
        &&& 1 <= s.2
        &&& s.1 + s.2 <= 256
    }

    /// A bump region lies in one handed-out block, if it is not empty.
    pub open spec fn region_ok(&self, lo: int, hi: int) -> bool {
        &&& 0 <= lo <= hi
        &&& lo % 16 == 0
        &&& hi % 128 == 0
        &&& hi <= self.tables.size()
        &&& lo < hi ==> {
            &&& self.tables.blocks[lo / 32768].used
            &&& hi <= (lo / 32768 + 1) * 32768
        }
    }

    pub open spec fn tlab_ok(&self, t: Tlab) -> bool {
        &&& t.block % 32768 == 0
        &&& t.block as int / 32768 < self.tables.blocks.len()
        &&& self.tables.blocks[t.block as int / 32768].used
        &&& t.block <= t.cur
        &&& t.limit <= t.block + 32768
        &&& self.region_ok(t.cur as int, t.limit as int)
    }

    /// The parts of the space agree: free blocks are not handed out, and
    /// every region lies in one block that is.
    pub open spec fn inv(&self) -> bool {
        &&& self.tables.inv()
        &&& self.tables.covers(&self.memory)
        &&& self.free_ok()
        &&& forall|i: int|
            0 <= i < self.recycle_spans.len() ==> self.span_ok(#[trigger] self.recycle_spans[i])
        &&& self.region_ok(self.allocation_point as int, self.current_block_end as int)
        &&& forall|i: int| 0 <= i < self.tlabs.len() ==> self.tlab_ok(#[trigger] self.tlabs[i])
        &&& forall|i: int, j: int|
            0 <= i < j < self.tlabs.len() ==> (#[trigger] self.tlabs[i]).thread != (
            #[trigger] self.tlabs[j]).thread
    }

    /// The free list names blocks that are not handed out, each once.
    pub open spec fn free_ok(&self) -> bool {
        &&& forall|i: int|
            0 <= i < self.free_blocks.len() ==> (#[trigger] self.free_blocks[i]) % 32768 == 0
                && self.free_blocks[i] as int / 32768 < self.tables.blocks.len()
                && !self.tables.blocks[self.free_blocks[i] as int / 32768].used
        &&& forall|i: int, j: int|
            0 <= i < j < self.free_blocks.len() ==> #[trigger] self.free_blocks[i]
                != #[trigger] self.free_blocks[j]
    }

    /// Allocations do not overlap, no bump region holds one, a run of
    /// recycled lines holds only whole ones, and no two regions overlap.
    pub open spec fn sound(&self) -> bool {
        &&& self.tables.sound()
        &&& self.tables.vacant(self.allocation_point as int, self.current_block_end as int)
        &&& self.tlabs_sound()
        &&& self.spans_sound()
    }

    pub open spec fn tlabs_sound(&self) -> bool {
        &&& forall|i: int|
            0 <= i < self.tlabs.len() ==> self.tables.vacant(
                (#[trigger] self.tlabs[i]).cur as int,
                self.tlabs[i].limit as int,
            )
        &&& forall|i: int|
            0 <= i < self.tlabs.len() ==> self.tables.kept_in(
                (#[trigger] self.tlabs[i]).block as int,
            )
        &&& forall|i: int|
            0 <= i < self.tlabs.len() ==> apart(
                (#[trigger] self.tlabs[i]).cur as int,
                self.tlabs[i].limit as int,
                self.allocation_point as int,
                self.current_block_end as int,
            )
        &&& forall|i: int, j: int|
            0 <= i < j < self.tlabs.len() ==> apart(
                (#[trigger] self.tlabs[i]).cur as int,
                self.tlabs[i].limit as int,
                (#[trigger] self.tlabs[j]).cur as int,
                self.tlabs[j].limit as int,
            )
    }

    pub open spec fn spans_sound(&self) -> bool {
        &&& forall|i: int|
            0 <= i < self.recycle_spans.len() ==> self.tables.enclosed(
                span_lo(#[trigger] self.recycle_spans[i]),
                span_hi(self.recycle_spans[i]),
            )
        &&& forall|i: int|
            0 <= i < self.recycle_spans.len() ==> apart(
                span_lo(#[trigger] self.recycle_spans[i]),
                span_hi(self.recycle_spans[i]),
                self.allocation_point as int,
                self.current_block_end as int,
            )
        &&& forall|i: int, j: int|
            0 <= i < self.recycle_spans.len() && 0 <= j < self.tlabs.len() ==> apart(
                span_lo(#[trigger] self.recycle_spans[i]),
                span_hi(self.recycle_spans[i]),
                (#[trigger] self.tlabs[j]).cur as int,
                self.tlabs[j].limit as int,
            )
        &&& forall|i: int, j: int|
            0 <= i < j < self.recycle_spans.len() ==> apart(
                span_lo(#[trigger] self.recycle_spans[i]),
                span_hi(self.recycle_spans[i]),
                span_lo(#[trigger] self.recycle_spans[j]),
                span_hi(self.recycle_spans[j]),
            )
    }

    /// The allocations of `before` outside `lo..hi`, and no others.
    pub open spec fn keeps_outside(&self, before: &Space, lo: int, hi: int) -> bool {
        &&& forall|q: int| #[trigger]
            self.tables.is_start(q) <==> before.tables.is_start(q) && !(lo <= q * 16 < hi)
        &&& forall|q: int| #[trigger]
            self.tables.is_start(q) ==> self.tables.extent(q) == before.tables.extent(q)
                && self.tables.objects[q] == before.tables.objects[q]
    }

    /// A run of recycled lines of at least `want` lines as `(start, end)`,
    /// its old starts forgotten. Runs too short for it are dropped; the list
    /// is rebuilt by each sweep. The bytes are not zeroed.
    #[verifier::rlimit(60)]
    #[verifier::spinoff_prover]
    pub fn take_recycled_span(&mut self, want: usize) -> (r: Option<(usize, usize)>)
        requires
            old(self).inv(),
            1 <= want,
        ensures
            final(self).inv(),
            final(self).memory == old(self).memory,
            final(self).free_blocks@ == old(self).free_blocks@,
            final(self).tlabs@ == old(self).tlabs@,
            final(self).allocation_point == old(self).allocation_point,
            final(self).current_block_end == old(self).current_block_end,
            final(self).reuse_due@ == old(self).reuse_due@,
            final(self).tables.blocks@ == old(self).tables.blocks@,
            old(self).sound() ==> final(self).sound(),
            match r {
                Some((lo, hi)) => {
                    let at = last_fit(old(self).recycle_spans@, want as int);
                    &&& 0 <= at
                    &&& lo == span_lo(old(self).recycle_spans[at])
                    &&& hi == span_hi(old(self).recycle_spans[at])
                    &&& want * 128 <= hi - lo
                    &&& final(self).recycle_spans@ == old(self).recycle_spans@.take(at)
                    &&& final(self).tables.cleared(&old(self).tables, lo as int, hi as int)
                    &&& final(self).keeps_outside(old(self), lo as int, hi as int)
                    &&& final(self).region_ok(lo as int, hi as int)
                    &&& lo % 128 == 0
                    &&& old(self).sound() ==> final(self).open_region(lo as int, hi as int)
                },
                None => {
                    &&& last_fit(old(self).recycle_spans@, want as int) < 0
                    &&& final(self).recycle_spans@.len() == 0
                    &&& final(self).tables == old(self).tables
                },
            },
    {
        let ghost all = self.recycle_spans@;
        while self.recycle_spans.len() > 0
            invariant
                1 <= want,
                old(self).inv(),
                self.inv(),
                all == old(self).recycle_spans@,
                self.recycle_spans.len() <= all.len(),
                self.recycle_spans@ == all.take(self.recycle_spans.len() as int),
                last_fit(self.recycle_spans@, want as int) == last_fit(all, want as int),
                self.memory == old(self).memory,
                self.free_blocks@ == old(self).free_blocks@,
                self.tlabs@ == old(self).tlabs@,
                self.allocation_point == old(self).allocation_point,
                self.current_block_end == old(self).current_block_end,
                self.reuse_due@ == old(self).reuse_due@,
                self.tables == old(self).tables,
                old(self).sound() ==> self.sound(),
            decreases self.recycle_spans.len(),
        {
            let ghost held = self.recycle_spans@;
            let ghost before = *self;
            let (block, start, len) = self.recycle_spans.pop().unwrap();
            proof {
                assert(held.last() == (block, start, len));
                assert(before.span_ok(before.recycle_spans[held.len() - 1]));
                assert(self.recycle_spans@ =~= held.drop_last());
                assert(self.recycle_spans@ =~= all.take(self.recycle_spans.len() as int));
                before.lemma_fewer_spans(self);
                lemma_last_fit(all, want as int);
            }
            if len < want {
                continue;
            }
            let lo: usize = block + start * LINE_SIZE;
            let span_bytes: usize = len * LINE_SIZE;
            let ghost mid = *self;
            self.tables.clear_allocation_metadata(lo, span_bytes);
            proof {
                self.tables.lemma_cleared(&mid.tables, lo as int, lo + span_bytes);
                mid.lemma_clear_region(self, lo as int, lo + span_bytes);
                if old(self).sound() {
                    before.lemma_popped_apart(&mid);
                    self.lemma_open_after_clear(&mid, lo as int, lo + span_bytes);
                }
            }
            return Some((lo, lo + span_bytes));
        }
        None
    }

    /// Nothing of the space uses the bytes from `lo` to `hi`: no allocation
    /// touches them, and no region overlaps them.
    pub open spec fn open_region(&self, lo: int, hi: int) -> bool {
        &&& self.tables.vacant(lo, hi)
        &&& self.region_apart(lo, hi)
    }

    pub open spec fn region_apart(&self, lo: int, hi: int) -> bool {
        &&& apart(lo, hi, self.allocation_point as int, self.current_block_end as int)
        &&& forall|i: int|
            0 <= i < self.tlabs.len() ==> apart(
                lo,
                hi,
                (#[trigger] self.tlabs[i]).cur as int,
                self.tlabs[i].limit as int,
            )
        &&& forall|i: int|
            0 <= i < self.recycle_spans.len() ==> apart(
                lo,
                hi,
                span_lo(#[trigger] self.recycle_spans[i]),
                span_hi(self.recycle_spans[i]),
            )
    }

    /// Dropping the last run of recycled lines keeps the space as it was.
    proof fn lemma_fewer_spans(&self, after: &Space)
        requires
            self.inv(),
            after.recycle_spans@ == self.recycle_spans@.drop_last(),
            self.recycle_spans.len() > 0,
            after.tables == self.tables,
            after.memory == self.memory,
            after.free_blocks == self.free_blocks,
            after.tlabs == self.tlabs,
            after.allocation_point == self.allocation_point,
            after.current_block_end == self.current_block_end,
        ensures
            after.inv(),
            self.sound() ==> after.sound(),
    {
        assert forall|i: int| 0 <= i < after.recycle_spans.len() implies after.span_ok(
            #[trigger] after.recycle_spans[i],
        ) by {
            assert(after.recycle_spans[i] == self.recycle_spans[i]);
        }
        if self.sound() {
            assert(forall|i: int|
                0 <= i < after.recycle_spans.len() ==> #[trigger] after.recycle_spans[i]
                    == self.recycle_spans[i]);
        }
    }

    /// The run that was popped is apart from what is left.
    proof fn lemma_popped_apart(&self, after: &Space)
        requires
            self.inv(),
            self.sound(),
            after.recycle_spans@ == self.recycle_spans@.drop_last(),
            self.recycle_spans.len() > 0,
            after.tables == self.tables,
            after.tlabs == self.tlabs,
            after.allocation_point == self.allocation_point,
            after.current_block_end == self.current_block_end,
        ensures
            after.region_apart(
                span_lo(self.recycle_spans[self.recycle_spans.len() - 1]),
                span_hi(self.recycle_spans[self.recycle_spans.len() - 1]),
            ),
            after.tables.enclosed(
                span_lo(self.recycle_spans[self.recycle_spans.len() - 1]),
                span_hi(self.recycle_spans[self.recycle_spans.len() - 1]),
            ),
    {
        let n = self.recycle_spans.len() - 1;
        let top = self.recycle_spans[n];
        assert forall|i: int| 0 <= i < after.recycle_spans.len() implies apart(
            span_lo(top),
            span_hi(top),
            span_lo(#[trigger] after.recycle_spans[i]),
            span_hi(after.recycle_spans[i]),
        ) by {
            assert(after.recycle_spans[i] == self.recycle_spans[i]);
        }
    }

    /// Forgetting starts keeps the invariant and, in a sound space, soundness.
    proof fn lemma_clear_region(&self, after: &Space, lo: int, hi: int)
        requires
            self.inv(),
            lo % 128 == 0,
            hi % 128 == 0,
            after.tables.inv(),
            after.tables.cleared(&self.tables, lo, hi),
            after.memory == self.memory,
            after.free_blocks == self.free_blocks,
            after.recycle_spans == self.recycle_spans,
            after.tlabs == self.tlabs,
            after.allocation_point == self.allocation_point,
            after.current_block_end == self.current_block_end,
        ensures
            after.inv(),
            self.sound() ==> after.sound(),
    {
        after.tables.lemma_cleared(&self.tables, lo, hi);
        assert forall|i: int| 0 <= i < after.recycle_spans.len() implies after.span_ok(
            #[trigger] after.recycle_spans[i],
        ) by {
            assert(self.span_ok(self.recycle_spans[i]));
        }
        assert forall|i: int| 0 <= i < after.tlabs.len() implies after.tlab_ok(
            #[trigger] after.tlabs[i],
        ) by {
            assert(self.tlab_ok(self.tlabs[i]));
        }
        if self.sound() {
            assert forall|block: int| self.tables.kept_in(block) implies #[trigger]
            after.tables.kept_in(block) by {
                assert forall|q: int| #[trigger] after.tables.is_start(q) && q / 2048 == block
                    / 32768 implies (q + after.tables.extent(q)) * 16 <= block + 32768 by {
                    assert(self.tables.is_start(q));
                }
            }
            assert forall|a: int, b: int| self.tables.vacant(a, b) implies #[trigger]
            after.tables.vacant(a, b) by {
                assert forall|q: int| #[trigger] after.tables.is_start(q) implies apart(
                    q * 16,
                    (q + after.tables.extent(q)) * 16,
                    a,
                    b,
                ) by {
                    assert(self.tables.is_start(q));
                }
            }
            assert forall|a: int, b: int| self.tables.enclosed(a, b) implies #[trigger]
            after.tables.enclosed(a, b) by {
                assert forall|q: int| #[trigger] after.tables.is_start(q) implies apart(
                    q * 16,
                    (q + after.tables.extent(q)) * 16,
                    a,
                    b,
                ) || (a <= q * 16 && (q + after.tables.extent(q)) * 16 <= b) by {
                    assert(self.tables.is_start(q));
                }
            }
        }
    }

    proof fn lemma_open_after_clear(&self, mid: &Space, lo: int, hi: int)
        requires
            self.tables.inv(),
            mid.region_apart(lo, hi),
            mid.tables.enclosed(lo, hi),
            self.tables.vacant(lo, hi),
            self.recycle_spans == mid.recycle_spans,
            self.tlabs == mid.tlabs,
            self.allocation_point == mid.allocation_point,
            self.current_block_end == mid.current_block_end,
        ensures
            self.open_region(lo, hi),
    {
    }

    /// `self` is `before` with the block at `addr` handed out: flagged, its
    /// starts forgotten and its marks cleared, and nothing else changed.
    pub open spec fn handed_out(&self, before: &Space, addr: int) -> bool {
        let b = addr / 32768;
        &&& self.memory == before.memory
        &&& self.free_blocks == before.free_blocks
        &&& self.recycle_spans == before.recycle_spans
        &&& self.tlabs == before.tlabs
        &&& self.allocation_point == before.allocation_point
        &&& self.current_block_end == before.current_block_end
        &&& self.reuse_due@ == if before.tables.blocks[b].reusable {
            before.reuse_due@.push(addr as usize)
        } else {
            before.reuse_due@
        }
        &&& self.tables.blocks.len() == before.tables.blocks.len()
        &&& forall|c: int|
            0 <= c < before.tables.blocks.len() && c != b ==> #[trigger] self.tables.blocks[c]
                == before.tables.blocks[c]
        &&& self.tables.blocks[b].used
        &&& self.tables.blocks[b].clear()
        &&& !self.tables.blocks[b].has_span
        &&& !self.tables.blocks[b].has_drop
        &&& !self.tables.blocks[b].reusable
        &&& self.tables.blocks[b].any_marked == before.tables.blocks[b].any_marked
        &&& self.keeps_outside(before, addr, addr + 32768)
    }

    /// Hand out the block at `addr`, which has left the free list.
    pub(crate) fn hand_out(&mut self, addr: usize)
        requires
            old(self).inv(),
            addr % 32768 == 0,
            addr as int / 32768 < old(self).tables.blocks.len(),
            !old(self).tables.blocks[addr as int / 32768].used,
            forall|i: int|
                0 <= i < old(self).free_blocks.len() ==> #[trigger] old(self).free_blocks[i]
                    != addr,
        ensures
            final(self).inv(),
            final(self).handed_out(old(self), addr as int),
            final(self).region_ok(addr as int, addr + 32768),
            old(self).sound() ==> final(self).sound() && final(self).open_region(
                addr as int,
                addr + 32768,
            ) && forall|q: int|
                old(self).tables.is_start(q) ==> #[trigger] final(self).tables.is_start(q),
    {
        let b: usize = addr / BLOCK_SIZE;
        self.tables.clear_allocation_metadata(addr, BLOCK_SIZE);
        let ghost mid = *self;
        proof {
            mid.tables.lemma_cleared(&old(self).tables, addr as int, addr + 32768);
            old(self).lemma_clear_region(&mid, addr as int, addr + 32768);
        }
        self.tables.blocks[b].has_span = false;
        self.tables.blocks[b].has_drop = false;
        self.tables.blocks[b].used = true;
        if self.tables.blocks[b].reusable {
            self.tables.blocks[b].reusable = false;
            self.reuse_due.push(addr);
        }
        self.tables.blocks[b].clear_marks();
        proof {
            assert(self.tables.objects == mid.tables.objects);
            assert(self.tables.alloc_sizes == mid.tables.alloc_sizes);
            self.lemma_flagged(&mid, b as int);
            if old(self).sound() {
                assert forall|q: int| old(self).tables.is_start(q) implies !(addr <= q * 16 < addr
                    + 32768) by {
                    assert(old(self).tables.entry_ok(q));
                    assert(old(self).tables.on_line(q, q / 8));
                }
                mid.lemma_unused_open(addr as int);
            }
        }
    }

    /// Handing out a block that holds no start keeps the space as it was.
    proof fn lemma_flagged(&self, mid: &Space, b: int)
        requires
            mid.inv(),
            0 <= b < mid.tables.blocks.len(),
            !mid.tables.blocks[b].used,
            self.tables.objects == mid.tables.objects,
            self.tables.alloc_sizes == mid.tables.alloc_sizes,
            self.tables.blocks.len() == mid.tables.blocks.len(),
            forall|c: int|
                0 <= c < mid.tables.blocks.len() && c != b ==> #[trigger] self.tables.blocks[c]
                    == mid.tables.blocks[c],
            self.tables.blocks[b].used,
            self.memory == mid.memory,
            self.free_blocks == mid.free_blocks,
            self.recycle_spans == mid.recycle_spans,
            self.tlabs == mid.tlabs,
            self.allocation_point == mid.allocation_point,
            self.current_block_end == mid.current_block_end,
            forall|i: int|
                0 <= i < mid.free_blocks.len() ==> #[trigger] mid.free_blocks[i] != b * 32768,
        ensures
            self.inv(),
            forall|q: int| #[trigger] self.tables.is_start(q) == mid.tables.is_start(q),
            forall|q: int| #[trigger]
                self.tables.is_start(q) ==> self.tables.extent(q) == mid.tables.extent(q),
            mid.sound() ==> self.sound(),
    {
        assert forall|q: int| 0 <= q < self.tables.objects.len() implies #[trigger]
        self.tables.entry_ok(q) by {
            assert(mid.tables.entry_ok(q));
        }
        assert forall|i: int| 0 <= i < self.recycle_spans.len() implies self.span_ok(
            #[trigger] self.recycle_spans[i],
        ) by {
            assert(mid.span_ok(mid.recycle_spans[i]));
        }
        assert forall|i: int| 0 <= i < self.tlabs.len() implies self.tlab_ok(
            #[trigger] self.tlabs[i],
        ) by {
            assert(mid.tlab_ok(mid.tlabs[i]));
        }
        assert(self.free_ok()) by {
            assert forall|i: int| 0 <= i < self.free_blocks.len() implies (
            #[trigger] self.free_blocks[i]) % 32768 == 0 && self.free_blocks[i] as int / 32768
                < self.tables.blocks.len() && !self.tables.blocks[self.free_blocks[i] as int
                / 32768].used by {
                assert(mid.free_blocks[i] != b * 32768);
            }
        }
        if mid.sound() {
            assert(self.tables.sound()) by {
                assert forall|p: int, q: int|
                    #![trigger self.tables.is_start(p), self.tables.is_start(q)]
                    self.tables.is_start(p) && self.tables.is_start(q) && p < q implies p
                    + self.tables.extent(p) <= q by {
                    assert(mid.tables.is_start(p) && mid.tables.is_start(q));
                }
                assert forall|q: int, l: int|
                    #![trigger self.tables.is_start(q), self.tables.alloc_sizes[l]]
                    self.tables.is_start(q) && self.tables.code(q) == 9 && q / 8 < l < q / 8
                        + self.tables.alloc_sizes[q / 8] implies self.tables.alloc_sizes[l] == 0 by {
                    assert(mid.tables.is_start(q) && mid.tables.alloc_sizes[l] == 0);
                }
                assert forall|q: int, l: int| #[trigger]
                    self.tables.on_line(q, l) implies self.tables.blocks[l / 256].used && (
                self.tables.code(q) == 9 ==> self.tables.blocks[l / 256].has_span) by {
                    assert(mid.tables.on_line(q, l));
                    mid.tables.lemma_line_in_heap(q, l);
                }
                assert forall|q: int| #[trigger] self.tables.is_start(q) implies q % 2048 == 0 || q
                    / 2048 == (q + self.tables.extent(q) - 1) / 2048 by {
                    assert(mid.tables.is_start(q));
                }
            }
            assert forall|block: int| mid.tables.kept_in(block) implies #[trigger]
            self.tables.kept_in(block) by {
                assert forall|q: int| #[trigger] self.tables.is_start(q) && q / 2048 == block
                    / 32768 implies (q + self.tables.extent(q)) * 16 <= block + 32768 by {
                    assert(mid.tables.is_start(q));
                }
            }
            assert forall|lo: int, hi: int| mid.tables.vacant(lo, hi) implies #[trigger]
            self.tables.vacant(lo, hi) by {
                assert forall|q: int| #[trigger] self.tables.is_start(q) implies apart(
                    q * 16,
                    (q + self.tables.extent(q)) * 16,
                    lo,
                    hi,
                ) by {
                    assert(mid.tables.is_start(q));
                }
            }
            assert forall|lo: int, hi: int| mid.tables.enclosed(lo, hi) implies #[trigger]
            self.tables.enclosed(lo, hi) by {
                assert forall|q: int| #[trigger] self.tables.is_start(q) implies apart(
                    q * 16,
                    (q + self.tables.extent(q)) * 16,
                    lo,
                    hi,
                ) || (lo <= q * 16 && (q + self.tables.extent(q)) * 16 <= hi) by {
                    assert(mid.tables.is_start(q));
                }
            }
        }
    }

    /// A block that is not handed out is open from end to end.
    proof fn lemma_unused_open(&self, addr: int)
        requires
            self.inv(),
            self.sound(),
            addr % 32768 == 0,
            0 <= addr / 32768 < self.tables.blocks.len(),
            !self.tables.blocks[addr / 32768].used,
        ensures
            self.open_region(addr, addr + 32768),
    {
        assert forall|q: int| #[trigger] self.tables.is_start(q) implies apart(
            q * 16,
            (q + self.tables.extent(q)) * 16,
            addr,
            addr + 32768,
        ) by {
            assert(self.tables.entry_ok(q));
            let end = q + self.tables.extent(q);
            if q * 16 < addr + 32768 && addr < end * 16 {
                let l = if q * 16 < addr {
                    addr / 128
                } else {
                    q / 8
                };
                assert(self.tables.on_line(q, l));
                assert(l / 256 == addr / 32768);
            }
        }
        assert forall|i: int| 0 <= i < self.tlabs.len() implies apart(
            addr,
            addr + 32768,
            (#[trigger] self.tlabs[i]).cur as int,
            self.tlabs[i].limit as int,
        ) by {
            assert(self.tlab_ok(self.tlabs[i]));
        }
        assert forall|i: int| 0 <= i < self.recycle_spans.len() implies apart(
            addr,
            addr + 32768,
            span_lo(#[trigger] self.recycle_spans[i]),
            span_hi(self.recycle_spans[i]),
        ) by {
            assert(self.span_ok(self.recycle_spans[i]));
        }
    }

    /// Take a block off the free list, forgetting any stale starts and marks
    /// in it.
    pub fn acquire_free_block(&mut self) -> (r: Option<usize>)
        requires
            old(self).inv(),
        ensures
            final(self).inv(),
            match r {
                Some(addr) => {
                    &&& old(self).free_blocks.len() > 0
                    &&& addr == old(self).free_blocks[old(self).free_blocks.len() - 1]
                    &&& final(self).free_blocks@ == old(self).free_blocks@.drop_last()
                    &&& final(self).took_block(old(self), addr as int)
                    &&& final(self).region_ok(addr as int, addr + 32768)
                    &&& addr % 32768 == 0
                    &&& old(self).sound() ==> final(self).sound() && final(self).open_region(
                        addr as int,
                        addr + 32768,
                    ) && forall|q: int|
                        old(self).tables.is_start(q) ==> #[trigger] final(self).tables.is_start(q)
                },
                None => old(self).free_blocks.len() == 0 && *final(self) == *old(self),
            },
    {
        if self.free_blocks.len() == 0 {
            return None;
        }
        match self.free_blocks.pop() {
            Some(addr) => {
                proof {
                    assert(addr == old(self).free_blocks[old(self).free_blocks.len() - 1]);
                    assert forall|i: int| 0 <= i < self.free_blocks.len() implies #[trigger]
                    self.free_blocks[i] == old(self).free_blocks[i] by {}
                    assert(self.inv()) by {
                        assert forall|i: int| 0 <= i < self.recycle_spans.len() implies self.span_ok(
                            #[trigger] self.recycle_spans[i],
                        ) by {
                            assert(old(self).span_ok(old(self).recycle_spans[i]));
                        }
                        assert forall|i: int| 0 <= i < self.tlabs.len() implies self.tlab_ok(
                            #[trigger] self.tlabs[i],
                        ) by {
                            assert(old(self).tlab_ok(old(self).tlabs[i]));
                        }
                    }
                }
                let ghost mid = *self;
                self.hand_out(addr);
                proof {
                    assert(self.free_blocks@ =~= old(self).free_blocks@.drop_last());
                    assert(old(self).sound() ==> mid.sound());
                    assert(self.keeps_outside(old(self), addr as int, addr + 32768)) by {
                        assert(self.keeps_outside(&mid, addr as int, addr + 32768));
                    }
                }
                Some(addr)
            },
            None => None,
        }
    }

    /// [`Self::handed_out`], but for the free list.
    pub open spec fn took_block(&self, before: &Space, addr: int) -> bool {
        let b = addr / 32768;
        &&& self.memory == before.memory
        &&& self.recycle_spans == before.recycle_spans
        &&& self.tlabs == before.tlabs
        &&& self.allocation_point == before.allocation_point
        &&& self.current_block_end == before.current_block_end
        &&& self.reuse_due@ == if before.tables.blocks[b].reusable {
            before.reuse_due@.push(addr as usize)
        } else {
            before.reuse_due@
        }
        &&& self.tables.blocks.len() == before.tables.blocks.len()
        &&& forall|c: int|
            0 <= c < before.tables.blocks.len() && c != b ==> #[trigger] self.tables.blocks[c]
                == before.tables.blocks[c]
        &&& self.tables.blocks[b].used
        &&& self.tables.blocks[b].clear()
        &&& !self.tables.blocks[b].has_span
        &&& !self.tables.blocks[b].has_drop
        &&& !self.tables.blocks[b].reusable
        &&& self.tables.blocks[b].any_marked == before.tables.blocks[b].any_marked
        &&& self.keeps_outside(before, addr, addr + 32768)
    }

    /// The blocks whose pages are due to be taken up once the block at `addr`
    /// is handed out.
    pub open spec fn reuse_due_with(&self, addr: int) -> Seq<usize> {
        if self.tables.blocks[addr / 32768].reusable {
            self.reuse_due@.push(addr as usize)
        } else {
            self.reuse_due@
        }
    }
}

} // verus!
