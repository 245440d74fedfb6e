//! Placing an allocation: in the locked path's bump region, in a mutator's
//! own, or over a run of whole blocks.

use vstd::prelude::*;

use crate::heap::layout::{line_up, round_line, BLOCK_SIZE, LINE_SIZE, WORD};
use crate::heap::space::{
    alloc_byte, alloc_lines, apart, last_fit, reserved, span_hi, span_lo, Space,
};

verus! {

impl Space {
    /// The space is in order: see [`Self::inv`] and [`Self::sound`].
    pub open spec fn wf(&self) -> bool {
        self.inv() && self.sound()
    }

    /// What a fresh allocation of `aligned` bytes at byte `point` is: zeroed,
    /// raw, unclaimed, and the only one that changed.
    pub open spec fn fresh(&self, before: &Space, point: int, aligned: int) -> bool {
        let q = point / 16;
        &&& point % 16 == 0
        &&& 0 <= point
        &&& point + reserved(aligned) <= self.tables.size()
        &&& self.tables.is_start(q)
        &&& self.tables.extent(q) * 16 == if aligned <= 128 { aligned } else { line_up(aligned) }
        &&& self.tables.objects[q] == alloc_byte(aligned)
        &&& forall|p: int|
            p != q ==> #[trigger] self.tables.is_start(p) == before.tables.is_start(p)
        &&& forall|p: int|
            p != q && #[trigger] self.tables.is_start(p) ==> self.tables.extent(p)
                == before.tables.extent(p) && self.tables.objects[p] == before.tables.objects[p]
        &&& self.zeroed(before, point, reserved(aligned))
        &&& self.same_marks(before)
    }

    /// The words of `size` bytes from `point` are zero, the others unchanged.
    pub open spec fn zeroed(&self, before: &Space, point: int, size: int) -> bool {
        &&& self.memory.base == before.memory.base
        &&& self.memory.words.len() == before.memory.words.len()
        &&& forall|k: int|
            0 <= k < self.memory.words.len() ==> #[trigger] self.memory.words[k] == if point <= k
                * 8 < point + size {
                0
            } else {
                before.memory.words[k]
            }
    }

    /// No line claim and no block flag but `has_span` changed.
    pub open spec fn same_marks(&self, before: &Space) -> bool {
        &&& self.tables.blocks.len() == before.tables.blocks.len()
        &&& forall|b: int|
            0 <= b < self.tables.blocks.len() ==> {
                &&& (#[trigger] self.tables.blocks[b]).mark_bits
                    == before.tables.blocks[b].mark_bits
                &&& self.tables.blocks[b].any_marked == before.tables.blocks[b].any_marked
                &&& self.tables.blocks[b].has_drop == before.tables.blocks[b].has_drop
                &&& self.tables.blocks[b].used == before.tables.blocks[b].used
                &&& self.tables.blocks[b].reusable == before.tables.blocks[b].reusable
            }
    }

    /// Zero and record an allocation of `aligned` bytes at `point`, which lies
    /// in memory nothing else uses.
    #[verifier::rlimit(60)]
    #[verifier::spinoff_prover]
    fn write_object(&mut self, point: usize, aligned: usize)
        requires
            old(self).tables.inv(),
            old(self).tables.covers(&old(self).memory),
            old(self).tables.sound(),
            point % 16 == 0,
            aligned % 16 == 0,
            0 < aligned,
            aligned < 128 ==> point % 128 + aligned <= 128,
            aligned >= 128 ==> point % 128 == 0,
            point + reserved(aligned as int) <= old(self).tables.size(),
            old(self).tables.vacant(point as int, point + reserved(aligned as int)),
            point as int / 32768 == (point + reserved(aligned as int) - 1) / 32768,
            forall|l: int|
                point as int / 128 <= l <= (point + reserved(aligned as int) - 1) / 128 ==> (
                #[trigger] old(self).tables.blocks[l / 256]).used,
        ensures
            final(self).tables.inv(),
            final(self).tables.sound(),
            final(self).tables.covers(&final(self).memory),
            final(self).fresh(old(self), point as int, aligned as int),
            final(self).free_blocks == old(self).free_blocks,
            final(self).recycle_spans == old(self).recycle_spans,
            final(self).tlabs == old(self).tlabs,
            final(self).reuse_due == old(self).reuse_due,
            final(self).allocation_point == old(self).allocation_point,
            final(self).current_block_end == old(self).current_block_end,
    {
        let take: usize = if aligned >= LINE_SIZE {
            round_line(aligned)
        } else {
            aligned
        };
        self.memory.fill(point / WORD, take / WORD, 0);
        let ghost q = point as int / 16;
        self.tables.record_allocation(point, aligned);
        proof {
            self.tables.lemma_added(
                &old(self).tables,
                q,
                alloc_byte(aligned as int),
                alloc_lines(aligned as int),
            );
            assert(self.tables.extent(q) * 16 <= reserved(aligned as int));
        }
    }

    /// Where the bump region would put an allocation of `aligned` bytes.
    pub open spec fn bump_point(point: int, aligned: int) -> int {
        if aligned >= 128 || point % 128 + aligned > 128 {
            line_up(point)
        } else {
            point
        }
    }

    /// Whether the bump region has room for an allocation of `aligned` bytes.
    pub open spec fn bump_fits(&self, aligned: int) -> bool {
        Space::bump_point(self.allocation_point as int, aligned) + aligned
            <= self.current_block_end
    }

    /// Put an allocation of `aligned` bytes at `point` in the bump region.
    fn place(&mut self, point: usize, aligned: usize)
        requires
            old(self).wf(),
            aligned % 16 == 0,
            0 < aligned,
            aligned < 128 ==> point % 128 + aligned <= 128,
            aligned >= 128 ==> point % 128 == 0,
            point % 16 == 0,
            old(self).allocation_point <= point,
            point + aligned <= old(self).current_block_end,
        ensures
            final(self).wf(),
            final(self).fresh(old(self), point as int, aligned as int),
            final(self).allocation_point == point + reserved(aligned as int),
            final(self).current_block_end == old(self).current_block_end,
            final(self).free_blocks == old(self).free_blocks,
            final(self).recycle_spans == old(self).recycle_spans,
            final(self).tlabs == old(self).tlabs,
            final(self).reuse_due == old(self).reuse_due,
    {
        proof {
            self.lemma_room(point as int, aligned as int);
        }
        self.write_object(point, aligned);
        let take: usize = if aligned >= LINE_SIZE {
            round_line(aligned)
        } else {
            aligned
        };
        self.allocation_point = point + take;
        proof {
            self.lemma_still_wf(old(self), point as int, point + take);
        }
    }

    /// Room in the bump region is room in handed-out memory nothing uses.
    proof fn lemma_room(&self, point: int, aligned: int)
        requires
            self.wf(),
            aligned % 16 == 0,
            0 < aligned,
            aligned >= 128 ==> point % 128 == 0,
            self.allocation_point <= point,
            point + aligned <= self.current_block_end,
        ensures
            point + reserved(aligned) <= self.current_block_end,
            point / 32768 == (point + reserved(aligned) - 1) / 32768,
            self.tables.vacant(point, point + reserved(aligned)),
            forall|l: int|
                point / 128 <= l <= (point + reserved(aligned) - 1) / 128 ==> (
                #[trigger] self.tables.blocks[l / 256]).used,
    {
        let take = reserved(aligned);
        let lo = self.allocation_point as int;
        let hi = self.current_block_end as int;
        assert(point + take <= hi);
        assert(point / 32768 == lo / 32768);
        assert((point + take - 1) / 32768 == lo / 32768);
        assert forall|q: int| #[trigger] self.tables.is_start(q) implies apart(
            q * 16,
            (q + self.tables.extent(q)) * 16,
            point,
            point + take,
        ) by {
            assert(apart(q * 16, (q + self.tables.extent(q)) * 16, lo, hi));
        }
        assert forall|l: int| point / 128 <= l <= (point + take - 1) / 128 implies (
        #[trigger] self.tables.blocks[l / 256]).used by {
            assert(l / 256 == lo / 32768);
        }
    }

    /// Carving an allocation from the front of the bump region keeps the
    /// space in order.
    proof fn lemma_still_wf(&self, before: &Space, from: int, to: int)
        requires
            before.wf(),
            before.allocation_point <= from < to <= before.current_block_end,
            self.tables.inv(),
            self.tables.sound(),
            self.tables.covers(&self.memory),
            self.allocation_point == to,
            to % 16 == 0,
            self.current_block_end == before.current_block_end,
            self.free_blocks == before.free_blocks,
            self.recycle_spans == before.recycle_spans,
            self.tlabs == before.tlabs,
            from % 16 == 0,
            self.same_marks(before),
            forall|p: int|
                p != from / 16 ==> #[trigger] self.tables.is_start(p) == before.tables.is_start(p),
            forall|p: int|
                p != from / 16 && #[trigger] self.tables.is_start(p) ==> self.tables.extent(p)
                    == before.tables.extent(p),
            self.tables.is_start(from / 16),
            from + self.tables.extent(from / 16) * 16 <= to,
        ensures
            self.wf(),
    {
        let q0 = from / 16;
        assert forall|i: int| 0 <= i < self.recycle_spans.len() implies self.span_ok(
            #[trigger] self.recycle_spans[i],
        ) by {
            assert(before.span_ok(before.recycle_spans[i]));
        }
        assert forall|i: int| 0 <= i < self.tlabs.len() implies self.tlab_ok(
            #[trigger] self.tlabs[i],
        ) by {
            assert(before.tlab_ok(before.tlabs[i]));
        }
        assert(self.free_ok());
        assert(self.region_ok(to, self.current_block_end as int));
        assert(self.tables.vacant(to, self.current_block_end as int)) by {
            assert forall|q: int| #[trigger] self.tables.is_start(q) implies apart(
                q * 16,
                (q + self.tables.extent(q)) * 16,
                to,
                self.current_block_end as int,
            ) by {
                if q != q0 {
                    assert(before.tables.is_start(q));
                }
            }
        }
        assert forall|i: int| 0 <= i < self.tlabs.len() implies self.tables.vacant(
            (#[trigger] self.tlabs[i]).cur as int,
            self.tlabs[i].limit as int,
        ) by {
            let t = before.tlabs[i];
            assert(before.tables.vacant(t.cur as int, t.limit as int));
            assert(apart(
                t.cur as int,
                t.limit as int,
                before.allocation_point as int,
                before.current_block_end as int,
            ));
            assert forall|q: int| #[trigger] self.tables.is_start(q) implies apart(
                q * 16,
                (q + self.tables.extent(q)) * 16,
                t.cur as int,
                t.limit as int,
            ) by {
                if q != q0 {
                    assert(before.tables.is_start(q));
                }
            }
        }
        assert forall|i: int| 0 <= i < self.tlabs.len() implies self.tables.kept_in(
            (#[trigger] self.tlabs[i]).block as int,
        ) by {
            let block = before.tlabs[i].block as int;
            assert(before.tables.kept_in(block));
            assert(before.tlab_ok(before.tlabs[i]));
            assert forall|q: int| #[trigger] self.tables.is_start(q) && q / 2048 == block
                / 32768 implies (q + self.tables.extent(q)) * 16 <= block + 32768 by {
                if q != q0 {
                    assert(before.tables.is_start(q));
                }
            }
        }
        assert forall|i: int| 0 <= i < self.recycle_spans.len() implies self.tables.enclosed(
            span_lo(#[trigger] self.recycle_spans[i]),
            span_hi(self.recycle_spans[i]),
        ) by {
            let s = before.recycle_spans[i];
            assert(before.tables.enclosed(span_lo(s), span_hi(s)));
            assert forall|q: int| #[trigger] self.tables.is_start(q) implies apart(
                q * 16,
                (q + self.tables.extent(q)) * 16,
                span_lo(s),
                span_hi(s),
            ) || (span_lo(s) <= q * 16 && (q + self.tables.extent(q)) * 16 <= span_hi(s)) by {
                if q != q0 {
                    assert(before.tables.is_start(q));
                } else {
                    assert(apart(
                        span_lo(s),
                        span_hi(s),
                        before.allocation_point as int,
                        before.current_block_end as int,
                    ));
                }
            }
        }
    }

    /// The blocks from byte `lo` up to `hi` are handed out, with no claim and no
    /// drop hook; no line claim and no flag but `has_span` of another block
    /// changed.
    pub open spec fn takes_blocks(&self, before: &Space, lo: int, hi: int) -> bool {
        &&& self.tables.blocks.len() == before.tables.blocks.len()
        &&& forall|b: int|
            0 <= b < self.tables.blocks.len() ==> {
                let was = before.tables.blocks[b];
                let now = #[trigger] self.tables.blocks[b];
                &&& now.any_marked == was.any_marked
                &&& if lo <= b * 32768 < hi {
                    now.used && now.clear() && !now.has_drop && !now.reusable
                } else {
                    now.mark_bits == was.mark_bits && now.used == was.used && now.has_drop
                        == was.has_drop && now.reusable == was.reusable
                }
            }
    }

    /// What keeps every claim and flag keeps the blocks that were taken.
    pub proof fn lemma_takes_chain(&self, mid: &Space, before: &Space, lo: int, hi: int)
        requires
            self.same_marks(mid),
            mid.takes_blocks(before, lo, hi),
        ensures
            self.takes_blocks(before, lo, hi),
    {
        assert forall|b: int| 0 <= b < self.tables.blocks.len() implies ({
            let was = before.tables.blocks[b];
            let now = #[trigger] self.tables.blocks[b];
            &&& now.any_marked == was.any_marked
            &&& if lo <= b * 32768 < hi {
                now.used && now.clear() && !now.has_drop && !now.reusable
            } else {
                now.mark_bits == was.mark_bits && now.used == was.used && now.has_drop
                    == was.has_drop && now.reusable == was.reusable
            }
        }) by {
            let m = mid.tables.blocks[b];
            assert(m.any_marked == before.tables.blocks[b].any_marked);
            self.tables.blocks[b].lemma_same_bits(&m);
        }
    }

    /// No line gained a claim, and a block handed out since has none.
    pub open spec fn no_new_marks(&self, before: &Space) -> bool {
        &&& self.tables.blocks.len() == before.tables.blocks.len()
        &&& forall|b: int|
            0 <= b < self.tables.blocks.len() ==> {
                &&& (#[trigger] self.tables.blocks[b]).any_marked
                    == before.tables.blocks[b].any_marked
                &&& (self.tables.blocks[b].mark_bits == before.tables.blocks[b].mark_bits
                    && self.tables.blocks[b].used == before.tables.blocks[b].used)
                    || self.tables.blocks[b].clear()
            }
    }

    pub proof fn lemma_marks_chain(&self, mid: &Space, before: &Space)
        requires
            mid.no_new_marks(before),
            self.no_new_marks(mid),
        ensures
            self.no_new_marks(before),
    {
        assert forall|b: int| 0 <= b < self.tables.blocks.len() implies {
            &&& (#[trigger] self.tables.blocks[b]).any_marked == before.tables.blocks[b].any_marked
            &&& (self.tables.blocks[b].mark_bits == before.tables.blocks[b].mark_bits
                && self.tables.blocks[b].used == before.tables.blocks[b].used)
                || self.tables.blocks[b].clear()
        } by {
            assert((mid.tables.blocks[b].mark_bits == before.tables.blocks[b].mark_bits
                && mid.tables.blocks[b].used == before.tables.blocks[b].used)
                || mid.tables.blocks[b].clear());
            if self.tables.blocks[b].mark_bits == mid.tables.blocks[b].mark_bits {
                self.tables.blocks[b].lemma_same_bits(&mid.tables.blocks[b]);
            }
        }
    }

    /// Make `lo..hi` the locked path's bump region.
    fn set_region(&mut self, lo: usize, hi: usize)
        requires
            old(self).wf(),
            old(self).region_ok(lo as int, hi as int),
            old(self).open_region(lo as int, hi as int),
        ensures
            final(self).wf(),
            final(self).allocation_point == lo,
            final(self).current_block_end == hi,
            final(self).tables == old(self).tables,
            final(self).memory == old(self).memory,
            final(self).free_blocks == old(self).free_blocks,
            final(self).recycle_spans == old(self).recycle_spans,
            final(self).tlabs == old(self).tlabs,
            final(self).reuse_due == old(self).reuse_due,
    {
        self.allocation_point = lo;
        self.current_block_end = hi;
        proof {
            assert forall|i: int| 0 <= i < self.recycle_spans.len() implies self.span_ok(
                #[trigger] self.recycle_spans[i],
            ) by {
                assert(old(self).span_ok(old(self).recycle_spans[i]));
            }
            assert forall|i: int| 0 <= i < self.tlabs.len() implies self.tlab_ok(
                #[trigger] self.tlabs[i],
            ) by {
                assert(old(self).tlab_ok(old(self).tlabs[i]));
            }
        }
    }

    /// An allocation of `aligned` bytes at `point`, in memory from `lo` to
    /// `hi` whose old starts are forgotten: zeroed, raw, unclaimed, and every
    /// other allocation as it was in `before`.
    pub open spec fn renewed(
        &self,
        before: &Space,
        point: int,
        aligned: int,
        lo: int,
        hi: int,
    ) -> bool {
        let q = point / 16;
        &&& point % 16 == 0
        &&& 0 <= point
        &&& point + reserved(aligned) <= self.tables.size()
        &&& self.tables.is_start(q)
        &&& self.tables.extent(q) * 16 == if aligned <= 128 { aligned } else { line_up(aligned) }
        &&& self.tables.objects[q] == alloc_byte(aligned)
        &&& forall|p: int|
            p != q ==> #[trigger] self.tables.is_start(p) == (before.tables.is_start(p) && !(lo <= p
                * 16 < hi))
        &&& forall|p: int|
            p != q && #[trigger] self.tables.is_start(p) ==> self.tables.extent(p)
                == before.tables.extent(p) && self.tables.objects[p] == before.tables.objects[p]
        &&& self.zeroed(before, point, reserved(aligned))
        &&& self.tables.blocks[point / 32768].used
        &&& self.no_new_marks(before)
    }

    /// Lines an allocation of `aligned` bytes needs of a recycled run.
    pub open spec fn want_lines(aligned: int) -> int {
        (aligned + 127) / 128
    }

    /// How an attempt to allocate `aligned` bytes ended: in the bump region,
    /// in the last run of recycled lines long enough, in the last free block,
    /// or not at all.
    pub open spec fn small_outcome(
        &self,
        before: &Space,
        r: Option<usize>,
        aligned: int,
        recycle: bool,
    ) -> bool {
        let at = last_fit(before.recycle_spans@, Space::want_lines(aligned));
        match r {
            Some(point) => if before.bump_fits(aligned) {
                &&& point == Space::bump_point(before.allocation_point as int, aligned)
                &&& self.fresh(before, point as int, aligned)
                &&& self.renewed(before, point as int, aligned, 0, 0)
                &&& self.free_blocks@ == before.free_blocks@
                &&& self.recycle_spans@ == before.recycle_spans@
                &&& self.allocation_point == point + reserved(aligned)
                &&& self.current_block_end == before.current_block_end
                &&& self.reuse_due@ == before.reuse_due@
            } else if recycle && at >= 0 {
                let s = before.recycle_spans[at];
                &&& point == span_lo(s)
                &&& self.renewed(before, point as int, aligned, span_lo(s), span_hi(s))
                &&& self.free_blocks@ == before.free_blocks@
                &&& self.recycle_spans@ == before.recycle_spans@.take(at)
                &&& self.same_marks(before)
                &&& self.allocation_point == point + reserved(aligned)
                &&& self.current_block_end == span_hi(s)
                &&& self.reuse_due@ == before.reuse_due@
            } else {
                &&& before.free_blocks.len() > 0
                &&& point == before.free_blocks[before.free_blocks.len() - 1]
                &&& self.renewed(before, point as int, aligned, 0, 0)
                &&& self.free_blocks@ == before.free_blocks@.drop_last()
                &&& recycle ==> self.recycle_spans@.len() == 0
                &&& !recycle ==> self.recycle_spans@ == before.recycle_spans@
                &&& self.takes_blocks(before, point as int, point + 32768)
                &&& self.allocation_point == point + reserved(aligned)
                &&& self.current_block_end == point + 32768
                &&& self.reuse_due@ == before.reuse_due_with(point as int)
            },
            None => {
                &&& !before.bump_fits(aligned)
                &&& recycle ==> at < 0
                &&& before.free_blocks.len() == 0
                &&& self.free_blocks.len() == 0
                &&& self.tables == before.tables
                &&& self.memory == before.memory
                &&& self.allocation_point == before.allocation_point
                &&& self.current_block_end == before.current_block_end
                &&& self.reuse_due@ == before.reuse_due@
                &&& recycle ==> self.recycle_spans@.len() == 0
                &&& !recycle ==> self.recycle_spans@ == before.recycle_spans@
            },
        }
    }

    /// How an attempt to allocate `aligned` bytes in a whole free block ended: in
    /// the last one, which is bumped through from then on, or not at all.
    pub open spec fn block_outcome(&self, before: &Space, r: Option<usize>, aligned: int) -> bool {
        &&& self.recycle_spans@ == before.recycle_spans@
        &&& match r {
            Some(point) => {
                &&& before.free_blocks.len() > 0
                &&& point == before.free_blocks[before.free_blocks.len() - 1]
                &&& self.renewed(before, point as int, aligned, 0, 0)
                &&& self.free_blocks@ == before.free_blocks@.drop_last()
                &&& self.takes_blocks(before, point as int, point + 32768)
                &&& self.allocation_point == point + reserved(aligned)
                &&& self.current_block_end == point + 32768
                &&& self.reuse_due@ == before.reuse_due_with(point as int)
            },
            None => {
                &&& before.free_blocks.len() == 0
                &&& *self == *before
            },
        }
    }

    /// Allocate `aligned` bytes at the front of the last free block. `None`, and
    /// no change, when there is none.
    #[verifier::rlimit(60)]
    #[verifier::spinoff_prover]
    pub fn allocate_in_free_block(&mut self, aligned: usize) -> (r: Option<usize>)
        requires
            old(self).wf(),
            aligned % 16 == 0,
            0 < aligned <= 32768,
        ensures
            final(self).wf(),
            final(self).tlabs@ == old(self).tlabs@,
            final(self).memory.base == old(self).memory.base,
            final(self).tables.blocks.len() == old(self).tables.blocks.len(),
            final(self).block_outcome(old(self), r, aligned as int),
    {
        match self.acquire_free_block() {
            Some(block) => {
                self.set_region(block, block + BLOCK_SIZE);
                let ghost ready = *self;
                self.place(block, aligned);
                proof {
                    assert(self.fresh(&ready, block as int, aligned as int));
                    assert(ready.takes_blocks(old(self), block as int, block + 32768));
                    self.lemma_takes_chain(&ready, old(self), block as int, block + 32768);
                    self.lemma_renewed(old(self), &ready, block as int, aligned as int, 0, 0);
                }
                Some(block)
            },
            None => None,
        }
    }

    /// Whether the bump region has room for an allocation of `aligned` bytes.
    pub fn fits(&self, aligned: usize) -> (r: bool)
        requires
            self.wf(),
            aligned % 16 == 0,
            0 < aligned <= 32768,
        ensures
            r == self.bump_fits(aligned as int),
    {
        let from: usize = self.allocation_point;
        let tail: usize = from % LINE_SIZE;
        let point: usize = if aligned >= LINE_SIZE || tail + aligned > LINE_SIZE {
            round_line(from)
        } else {
            from
        };
        point <= self.current_block_end && aligned <= self.current_block_end - point
    }

    /// Allocate `aligned` bytes: from the bump region, else from the last run
    /// of recycled lines long enough, else from the last free block. `None`
    /// when there is no block either.
    #[verifier::rlimit(60)]
    #[verifier::spinoff_prover]
    pub fn allocate_small(&mut self, aligned: usize, recycle: bool) -> (r: Option<usize>)
        requires
            old(self).wf(),
            aligned % 16 == 0,
            0 < aligned <= 32768,
        ensures
            final(self).wf(),
            final(self).tlabs@ == old(self).tlabs@,
            final(self).memory.base == old(self).memory.base,
            final(self).tables.blocks.len() == old(self).tables.blocks.len(),
            final(self).small_outcome(old(self), r, aligned as int, recycle),
    {
        let from: usize = self.allocation_point;
        let tail: usize = from % LINE_SIZE;
        let point: usize = if aligned >= LINE_SIZE || tail + aligned > LINE_SIZE {
            round_line(from)
        } else {
            from
        };
        if point <= self.current_block_end && aligned <= self.current_block_end - point {
            self.place(point, aligned);
            return Some(point);
        }
        let want: usize = (aligned + (LINE_SIZE - 1)) / LINE_SIZE;
        if recycle {
            match self.take_recycled_span(want) {
                Some((lo, hi)) => {
                    let ghost mid = *self;
                    self.set_region(lo, hi);
                    let ghost ready = *self;
                    self.place(lo, aligned);
                    proof {
                        assert(self.fresh(&ready, lo as int, aligned as int));
                        self.lemma_renewed(old(self), &ready, lo as int, aligned as int, lo as int, hi as int);
                    }
                    return Some(lo);
                },
                None => {},
            }
        }
        let ghost kept = *self;
        let r: Option<usize> = self.allocate_in_free_block(aligned);
        proof {
            assert(kept.tables == old(self).tables);
            if let Some(block) = r {
                self.lemma_renewed_again(old(self), &kept, block as int, aligned as int);
            }
        }
        r
    }

    /// What is renewed in a space is renewed in one of the same tables.
    proof fn lemma_renewed_again(&self, before: &Space, kept: &Space, point: int, aligned: int)
        requires
            kept.tables == before.tables,
            kept.memory == before.memory,
            self.renewed(kept, point, aligned, 0, 0),
            self.takes_blocks(kept, point, point + 32768),
        ensures
            self.renewed(before, point, aligned, 0, 0),
            self.takes_blocks(before, point, point + 32768),
    {
    }

    proof fn lemma_renewed(
        &self,
        before: &Space,
        ready: &Space,
        point: int,
        aligned: int,
        lo: int,
        hi: int,
    )
        requires
            self.fresh(ready, point, aligned),
            ready.memory == before.memory,
            ready.no_new_marks(before),
            0 <= point / 32768 < ready.tables.blocks.len(),
            ready.tables.blocks[point / 32768].used,
            forall|q: int| #[trigger]
                ready.tables.is_start(q) <==> before.tables.is_start(q) && !(lo <= q * 16 < hi),
            forall|q: int| #[trigger]
                ready.tables.is_start(q) ==> ready.tables.extent(q) == before.tables.extent(q)
                    && ready.tables.objects[q] == before.tables.objects[q],
        ensures
            self.renewed(before, point, aligned, lo, hi),
    {
        let q = point / 16;
        assert forall|p: int| p != q implies #[trigger] self.tables.is_start(p) == (
        before.tables.is_start(p) && !(lo <= p * 16 < hi)) by {
            assert(self.tables.is_start(p) == ready.tables.is_start(p));
        }
        assert forall|p: int| p != q && #[trigger] self.tables.is_start(
            p,
        ) implies self.tables.extent(p) == before.tables.extent(p) && self.tables.objects[p]
            == before.tables.objects[p] by {
            assert(ready.tables.is_start(p));
        }
        assert(self.no_new_marks(ready));
        self.lemma_marks_chain(ready, before);
    }
}

} // verus!
