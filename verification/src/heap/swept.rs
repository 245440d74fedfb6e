//! The sweep of a whole space, and what it leaves in order.

use vstd::prelude::*;

use crate::heap::harvest::{occupancy_bar, occupancy_bar_of};
use crate::heap::layout::{lemma_claim_bit, lemma_plain_code};
use crate::heap::space::{apart, span_hi, span_lo, Space};
use crate::heap::sweep::SweepOptions;

verus! {

/// What a sweep found: the blocks it freed, and how full those it kept are.
pub struct SweepReport {
    pub freed: Vec<usize>,
    /// Blocks with a claimed line.
    pub retained: usize,
    /// Claimed lines in them.
    pub marked_lines: usize,
    /// Those blocks by how many lines are claimed.
    pub bars: [usize; 6],
}

impl SweepReport {
    /// The report of a sweep of `d`: the blocks that were freed, how many hold a
    /// claimed line, how many lines are claimed, and the chart of how full the
    /// kept blocks are.
    pub open spec fn tells(&self, d: Space, opts: SweepOptions) -> bool {
        let n = d.tables.blocks.len() as nat;
        &&& self.freed@ == d.freed_upto(n, opts)
        &&& self.retained == d.retained_upto(n)
        &&& self.marked_lines == d.lines_upto(n)
        &&& forall|i: int| 0 <= i < 6 ==> #[trigger] self.bars[i] == d.bar_upto(n, i)
    }
}

impl Space {
    /// The claimed lines the sweep sees in block `b`.
    pub open spec fn seen_lines(&self, b: int) -> nat {
        if self.tables.blocks[b].used && self.tables.blocks[b].any_marked {
            self.tables.blocks[b].count_marked(256)
        } else {
            0
        }
    }

    /// How many of the first `n` blocks hold a claimed line.
    pub open spec fn retained_upto(&self, n: nat) -> nat
        decreases n,
    {
        if n == 0 {
            0
        } else {
            self.retained_upto((n - 1) as nat) + if self.seen_lines(n - 1) > 0 {
                1nat
            } else {
                0
            }
        }
    }

    /// How many lines of the first `n` blocks are claimed.
    pub open spec fn lines_upto(&self, n: nat) -> nat
        decreases n,
    {
        if n == 0 {
            0
        } else {
            self.lines_upto((n - 1) as nat) + self.seen_lines(n - 1)
        }
    }

    /// How many of the first `n` blocks belong to bar `bar` of the chart.
    pub open spec fn bar_upto(&self, n: nat, bar: int) -> nat
        decreases n,
    {
        if n == 0 {
            0
        } else {
            self.bar_upto((n - 1) as nat, bar) + if self.seen_lines(n - 1) > 0
                && occupancy_bar_of(self.seen_lines(n - 1) as int) == bar {
                1nat
            } else {
                0
            }
        }
    }

    proof fn lemma_bars(&self, n: nat, bar: int)
        ensures
            self.bar_upto(n, bar) <= n,
        decreases n,
    {
        if n > 0 {
            self.lemma_bars((n - 1) as nat, bar);
        }
    }

    /// Every block is as the sweep leaves it, the bump region is given up, and
    /// the lists hold exactly what was found.
    pub open spec fn swept(&self, before: &Space, opts: SweepOptions) -> bool {
        let n = before.tables.blocks.len() as nat;
        &&& self.allocation_point == 0
        &&& self.current_block_end == 0
        &&& self.tlabs == before.tlabs
        &&& self.reuse_due == before.reuse_due
        &&& self.memory.base == before.memory.base
        &&& self.memory.words.len() == before.memory.words.len()
        &&& self.tables.blocks.len() == before.tables.blocks.len()
        &&& self.tables.objects.len() == before.tables.objects.len()
        &&& self.tables.alloc_sizes.len() == before.tables.alloc_sizes.len()
        &&& forall|b: int| 0 <= b < n ==> #[trigger] self.block_swept(before, b, opts)
        &&& self.free_blocks@ == if opts.quarantine {
            before.free_blocks@
        } else {
            before.free_blocks@ + before.freed_upto(n, opts)
        }
        &&& self.recycle_spans@ == before.recycled_upto(n, opts)
    }

    proof fn lemma_freed_upto(&self, n: nat, opts: SweepOptions)
        requires
            n * 32768 <= usize::MAX,
        ensures
            forall|i: int|
                0 <= i < self.freed_upto(n, opts).len() ==> (#[trigger] self.freed_upto(n, opts)[i])
                    % 32768 == 0 && self.freed_upto(n, opts)[i] as int / 32768 < n && self.frees(
                    self.freed_upto(n, opts)[i] as int / 32768,
                    opts,
                ),
            forall|i: int, j: int|
                0 <= i < j < self.freed_upto(n, opts).len() ==> #[trigger] self.freed_upto(
                    n,
                    opts,
                )[i] < #[trigger] self.freed_upto(n, opts)[j],
            self.freed_upto(n, opts).len() <= n,
        decreases n,
    {
        if n > 0 {
            let m = (n - 1) as nat;
            self.lemma_freed_upto(m, opts);
            let prior = self.freed_upto(m, opts);
            let all = self.freed_upto(n, opts);
            assert forall|i: int| 0 <= i < all.len() implies (#[trigger] all[i]) % 32768 == 0
                && all[i] as int / 32768 < n && self.frees(all[i] as int / 32768, opts) by {
                if i < prior.len() {
                    assert(all[i] == prior[i]);
                }
            }
            assert forall|i: int, j: int| 0 <= i < j < all.len() implies #[trigger] all[i]
                < #[trigger] all[j] by {
                assert(all[i] == prior[i]);
                if j < prior.len() {
                    assert(all[j] == prior[j]);
                }
            }
        }
    }

    /// A recycled run is a maximal unclaimed run of a block that recycles.
    pub open spec fn is_recycled(&self, s: (usize, usize, usize), n: int, opts: SweepOptions) -> bool {
        let b = s.0 as int / 32768;
        &&& s.0 % 32768 == 0
        &&& b < n
        &&& self.recycles(b, opts)
        &&& self.tables.blocks[b].is_run((s.1, s.2))
    }

    proof fn lemma_recycled_upto(&self, n: nat, opts: SweepOptions)
        requires
            n * 32768 <= usize::MAX,
        ensures
            forall|i: int|
                0 <= i < self.recycled_upto(n, opts).len() ==> self.is_recycled(
                    #[trigger] self.recycled_upto(n, opts)[i],
                    n as int,
                    opts,
                ),
            forall|i: int, j: int|
                0 <= i < j < self.recycled_upto(n, opts).len() ==> span_hi(
                    #[trigger] self.recycled_upto(n, opts)[i],
                ) <= span_lo(#[trigger] self.recycled_upto(n, opts)[j]),
        decreases n,
    {
        if n > 0 {
            let m = (n - 1) as nat;
            self.lemma_recycled_upto(m, opts);
            let prior = self.recycled_upto(m, opts);
            let all = self.recycled_upto(n, opts);
            let block = self.tables.blocks[m as int];
            let more = self.block_runs(m as int);
            block.lemma_runs();
            assert forall|i: int| 0 <= i < all.len() implies self.is_recycled(
                #[trigger] all[i],
                n as int,
                opts,
            ) by {
                if i < prior.len() {
                    assert(all[i] == prior[i]);
                } else {
                    assert(all[i] == more[i - prior.len()]);
                    assert(block.is_run(block.runs()[i - prior.len()]));
                }
            }
            assert forall|i: int, j: int| 0 <= i < j < all.len() implies span_hi(
                #[trigger] all[i],
            ) <= span_lo(#[trigger] all[j]) by {
                if j < prior.len() {
                    assert(all[i] == prior[i]);
                    assert(all[j] == prior[j]);
                } else {
                    assert(all[j] == more[j - prior.len()]);
                    if i < prior.len() {
                        assert(all[i] == prior[i]);
                        assert(self.is_recycled(prior[i], m as int, opts));
                    } else {
                        assert(all[i] == more[i - prior.len()]);
                        assert(block.runs()[i - prior.len()].0 + block.runs()[i - prior.len()].1
                            < block.runs()[j - prior.len()].0);
                    }
                }
            }
        }
    }

    /// Allocations over several blocks are claimed, as far as keeping every
    /// block while recycling lines asks for it.
    pub open spec fn reclaim_ok(&self, opts: SweepOptions) -> bool {
        !opts.no_reclaim || !opts.recycle || forall|q: int| #[trigger]
            self.tables.is_start(q) && q / 2048 != (q + self.tables.extent(q) - 1) / 2048
                ==> self.tables.marked_line(q / 8)
    }

    /// Sweep every block. Blocks nothing reached go back whole, except those
    /// a mutator bumps through; the unclaimed lines of the others may be
    /// recycled; every claim is cleared.
    pub fn sweep(&mut self, opts: SweepOptions) -> (r: SweepReport)
        requires
            old(self).wf(),
            old(self).tables.marks_whole(),
            old(self).tables.marks_seen(),
        ensures
            final(self).swept(old(self), opts),
            final(self).inv(),
            final(self).tables.sound(),
            old(self).reclaim_ok(opts) ==> final(self).wf(),
            r.tells(*old(self), opts),
    {
        self.recycle_spans = Vec::new();
        self.allocation_point = 0;
        self.current_block_end = 0;
        let mut freed: Vec<usize> = Vec::new();
        let mut retained: usize = 0;
        let mut marked_lines: usize = 0;
        let mut bars: [usize; 6] = [0, 0, 0, 0, 0, 0];
        let mut b: usize = 0;
        let n: usize = self.tables.blocks.len();
        proof {
            assert(self.free_blocks@ =~= old(self).free_blocks@ + old(self).freed_upto(0, opts));
        }
        while b < n
            invariant
                old(self).wf(),
                n == old(self).tables.blocks.len(),
                b <= n,
                self.allocation_point == 0,
                self.current_block_end == 0,
                self.tlabs == old(self).tlabs,
                self.reuse_due == old(self).reuse_due,
                self.memory.base == old(self).memory.base,
                self.memory.inv(),
                self.memory.words.len() == old(self).memory.words.len(),
                self.tables.blocks.len() == old(self).tables.blocks.len(),
                self.tables.objects.len() == old(self).tables.objects.len(),
                self.tables.alloc_sizes.len() == old(self).tables.alloc_sizes.len(),
                forall|c: int| 0 <= c < b ==> #[trigger] self.block_swept(old(self), c, opts),
                forall|c: int| b <= c < n ==> #[trigger] self.block_same(old(self), c),
                self.free_blocks@ == if opts.quarantine {
                    old(self).free_blocks@
                } else {
                    old(self).free_blocks@ + old(self).freed_upto(b as nat, opts)
                },
                self.recycle_spans@ == old(self).recycled_upto(b as nat, opts),
                freed@ == old(self).freed_upto(b as nat, opts),
                retained == old(self).retained_upto(b as nat),
                retained <= b,
                marked_lines == old(self).lines_upto(b as nat),
                marked_lines <= b * 256,
                forall|i: int| 0 <= i < 6 ==> #[trigger] bars[i] == old(self).bar_upto(b as nat, i),
            decreases n - b,
        {
            let ghost before = *self;
            proof {
                assert(before.block_same(old(self), b as int));
                before.lemma_halfway(old(self), b as int, opts);
            }
            if self.tables.blocks[b].used {
                let (marked, gone) = self.sweep_block(b, opts);
                if gone {
                    freed.push(b * crate::heap::layout::BLOCK_SIZE);
                }
                proof {
                    before.tables.blocks[b as int].lemma_count_zero(256);
                }
                if marked > 0 {
                    retained = retained + 1;
                    marked_lines = marked_lines + marked;
                    let bar: usize = occupancy_bar(marked);
                    proof {
                        old(self).lemma_bars(b as nat, bar as int);
                    }
                    bars[bar] = bars[bar] + 1;
                }
                proof {
                    self.lemma_step(&before, old(self), b as int, opts);
                    if gone && !opts.quarantine {
                        assert(self.free_blocks@ =~= old(self).free_blocks@ + old(
                            self,
                        ).freed_upto((b + 1) as nat, opts));
                    }
                }
            } else {
                proof {
                    self.lemma_unused_step(&before, old(self), b as int, opts);
                }
            }
            b = b + 1;
        }
        proof {
            self.lemma_swept(old(self), opts);
        }
        SweepReport { freed, retained, marked_lines, bars }
    }

    /// A block that was not visited yet decides as it did at the start.
    proof fn lemma_halfway(&self, start: &Space, b: int, opts: SweepOptions)
        requires
            self.tlabs == start.tlabs,
            self.block_same(start, b),
            start.inv(),
            self.memory.inv(),
            self.memory.base == start.memory.base,
            self.memory.words.len() == start.memory.words.len(),
            self.tables.blocks.len() == start.tables.blocks.len(),
            self.tables.objects.len() == start.tables.objects.len(),
            self.tables.alloc_sizes.len() == start.tables.alloc_sizes.len(),
            0 <= b < start.tables.blocks.len(),
            forall|c: int| 0 <= c < b ==> #[trigger] self.block_swept(start, c, opts),
            forall|c: int|
                b <= c < start.tables.blocks.len() ==> #[trigger] self.block_same(start, c),
        ensures
            self.frees(b, opts) == start.frees(b, opts),
            self.recycles(b, opts) == start.recycles(b, opts),
            self.block_runs(b) == start.block_runs(b),
            self.tables.inv(),
            self.tables.covers(&self.memory),
    {
        assert forall|q: int| 0 <= q < self.tables.objects.len() implies #[trigger]
        self.tables.entry_ok(q) by {
            self.lemma_entry_kept(start, q, b, opts);
        }
    }

    proof fn lemma_entry_kept(&self, start: &Space, q: int, b: int, opts: SweepOptions)
        requires
            start.inv(),
            self.tables.blocks.len() == start.tables.blocks.len(),
            self.tables.objects.len() == start.tables.objects.len(),
            self.tables.alloc_sizes.len() == start.tables.alloc_sizes.len(),
            0 <= q < self.tables.objects.len(),
            0 <= b <= start.tables.blocks.len(),
            forall|c: int| 0 <= c < b ==> #[trigger] self.block_swept(start, c, opts),
            forall|c: int|
                b <= c < start.tables.blocks.len() ==> #[trigger] self.block_same(start, c),
        ensures
            self.tables.entry_ok(q),
            q / 2048 < b && start.frees(q / 2048, opts) ==> self.tables.objects[q] == 0,
            !(q / 2048 < b && start.frees(q / 2048, opts)) ==> self.tables.code(q)
                == start.tables.code(q) && self.tables.alloc_sizes[q / 8]
                == start.tables.alloc_sizes[q / 8],
    {
        let c = q / 2048;
        assert(start.tables.entry_ok(q));
        lemma_plain_code(0);
        lemma_claim_bit(start.tables.objects[q]);
        assert(self.tables.objects[q] == self.tables.objects[q]);
        assert(self.tables.alloc_sizes[q / 8] == self.tables.alloc_sizes[q / 8]);
        if c < b {
            assert(self.block_swept(start, c, opts));
            assert(self.tables.objects[q] == start.swept_byte(c, q, opts));
        } else {
            assert(self.block_same(start, c));
        }
    }

    /// Sweeping block `b` leaves the others as they stand.
    proof fn lemma_step(&self, before: &Space, start: &Space, b: int, opts: SweepOptions)
        requires
            start.inv(),
            0 <= b < start.tables.blocks.len(),
            before.tables.blocks.len() == start.tables.blocks.len(),
            before.tables.objects.len() == start.tables.objects.len(),
            before.tables.alloc_sizes.len() == start.tables.alloc_sizes.len(),
            before.memory.words.len() == start.memory.words.len(),
            forall|c: int| 0 <= c < b ==> #[trigger] before.block_swept(start, c, opts),
            forall|c: int|
                b <= c < start.tables.blocks.len() ==> #[trigger] before.block_same(start, c),
            before.frees(b, opts) == start.frees(b, opts),
            self.outside_same(before, b),
            self.block_swept(before, b, opts),
        ensures
            forall|c: int| 0 <= c < b + 1 ==> #[trigger] self.block_swept(start, c, opts),
            forall|c: int|
                b + 1 <= c < start.tables.blocks.len() ==> #[trigger] self.block_same(start, c),
    {
        assert forall|c: int| 0 <= c < b + 1 implies #[trigger] self.block_swept(start, c, opts) by {
            if c < b {
                assert(before.block_swept(start, c, opts));
                self.lemma_untouched(before, start, b, c, opts);
            } else {
                assert(before.block_same(start, b));
                before.tables.blocks[b].lemma_same_bits(&start.tables.blocks[b]);
                assert forall|q: int| b * 2048 <= q < (b + 1) * 2048 implies (
                #[trigger] self.tables.objects[q]) == start.swept_byte(b, q, opts) by {
                    assert(before.tables.objects[q] == start.tables.objects[q]);
                }
            }
        }
        assert forall|c: int|
            b + 1 <= c < start.tables.blocks.len() implies #[trigger] self.block_same(start, c) by {
            assert(before.block_same(start, c));
        }
    }

    proof fn lemma_untouched(
        &self,
        before: &Space,
        start: &Space,
        b: int,
        c: int,
        opts: SweepOptions,
    )
        requires
            start.inv(),
            0 <= c < b < start.tables.blocks.len(),
            before.tables.blocks.len() == start.tables.blocks.len(),
            before.tables.objects.len() == start.tables.objects.len(),
            before.tables.alloc_sizes.len() == start.tables.alloc_sizes.len(),
            before.memory.words.len() == start.memory.words.len(),
            before.block_swept(start, c, opts),
            self.outside_same(before, b),
        ensures
            self.block_swept(start, c, opts),
    {
        assert(self.tables.blocks[c] == before.tables.blocks[c]);
    }

    proof fn lemma_unused_step(&self, before: &Space, start: &Space, b: int, opts: SweepOptions)
        requires
            *self == *before,
            0 <= b < start.tables.blocks.len(),
            before.block_same(start, b),
            !start.tables.blocks[b].used,
        ensures
            self.block_swept(start, b, opts),
            start.seen_lines(b) == 0,
            !start.frees(b, opts),
            !start.recycles(b, opts),
    {
        assert forall|q: int| b * 2048 <= q < (b + 1) * 2048 implies (
        #[trigger] self.tables.objects[q]) == start.swept_byte(b, q, opts) by {}
    }

    /// What the sweep leaves is in order.
    proof fn lemma_swept(&self, start: &Space, opts: SweepOptions)
        requires
            start.wf(),
            start.tables.marks_whole(),
            start.tables.marks_seen(),
            self.memory.inv(),
            self.swept(start, opts),
        ensures
            self.inv(),
            self.tables.sound(),
            start.reclaim_ok(opts) ==> self.wf(),
    {
        let n = start.tables.blocks.len() as int;
        self.lemma_swept_starts(start, opts);
        self.tables.lemma_thinned(&start.tables);
        self.lemma_swept_inv(start, opts);
        assert forall|q: int, l: int| #[trigger]
            self.tables.on_line(q, l) implies self.tables.blocks[l / 256].used && (
        self.tables.code(q) == 9 ==> self.tables.blocks[l / 256].has_span) by {
            assert(start.tables.is_start(q));
            assert(start.tables.on_line(q, l));
            start.tables.lemma_line_in_heap(q, l);
            start.lemma_blocks_kept(q, l, opts);
            assert(self.block_swept(start, l / 256, opts));
        }
        assert(self.tables.sound());
        if start.reclaim_ok(opts) {
            self.lemma_swept_regions(start, opts);
        }
    }

    /// The surviving starts are those of the blocks that were not freed.
    pub proof fn lemma_swept_starts(&self, start: &Space, opts: SweepOptions)
        requires
            start.inv(),
            self.swept(start, opts),
        ensures
            forall|q: int| #[trigger]
                self.tables.is_start(q) <==> start.tables.is_start(q) && !start.frees(
                    q / 2048,
                    opts,
                ),
            forall|q: int| #[trigger]
                self.tables.is_start(q) ==> self.tables.code(q) == start.tables.code(q),
            forall|l: int|
                #![trigger self.tables.alloc_sizes[l]]
                0 <= l < self.tables.alloc_sizes.len() ==> self.tables.alloc_sizes[l]
                    == start.tables.alloc_sizes[l] || self.tables.alloc_sizes[l] == 0,
            forall|q: int| #[trigger]
                self.tables.is_start(q) && self.tables.code(q) == 9 ==> self.tables.alloc_sizes[q
                    / 8] == start.tables.alloc_sizes[q / 8],
    {
        let n = start.tables.blocks.len() as int;
        lemma_plain_code(0);
        assert forall|q: int| #[trigger] self.tables.is_start(q) <==> start.tables.is_start(q)
            && !start.frees(q / 2048, opts) by {
            if 0 <= q < self.tables.objects.len() {
                self.lemma_entry_kept(start, q, n, opts);
            }
        }
        assert forall|q: int| #[trigger] self.tables.is_start(q) implies self.tables.code(q)
            == start.tables.code(q) && self.tables.alloc_sizes[q / 8]
            == start.tables.alloc_sizes[q / 8] by {
            self.lemma_entry_kept(start, q, n, opts);
        }
        assert forall|l: int| 0 <= l < self.tables.alloc_sizes.len() implies (
        #[trigger] self.tables.alloc_sizes[l]) == start.tables.alloc_sizes[l]
            || self.tables.alloc_sizes[l] == 0 by {
            assert(self.block_swept(start, l / 256, opts));
        }
    }

    /// The blocks an allocation lies in are kept when the one it starts in is.
    pub proof fn lemma_blocks_kept(&self, q: int, l: int, opts: SweepOptions)
        requires
            self.wf(),
            self.tables.marks_whole(),
            self.tables.marks_seen(),
            self.tables.on_line(q, l),
            !self.frees(q / 2048, opts),
        ensures
            !self.frees(l / 256, opts),
    {
        let t = self.tables;
        t.lemma_line_in_heap(q, l);
        assert(t.entry_ok(q));
        if self.frees(l / 256, opts) {
            let b = q / 2048;
            let c = l / 256;
            self.lemma_empty_clear(c);
            assert(!t.blocks[c].marked(l % 256));
            assert(!t.marked_line(l));
            assert(t.on_line(q, q / 8));
            t.lemma_line_in_heap(q, q / 8);
            assert(b != c);
            assert(q % 2048 == 0);
            assert forall|x: int| 0 <= x < 256 implies !#[trigger] t.blocks[b].marked(x) by {
                assert(t.on_line(q, b * 256 + x));
                assert(t.marked_line(b * 256 + x) == t.marked_line(q / 8));
                assert(t.marked_line(l) == t.marked_line(q / 8));
                assert(t.marked_line(b * 256 + x) == t.blocks[b].marked(x));
            }
            assert(t.blocks[b].clear());
            assert(self.empty_block(b));
            assert(t.blocks[b].used);
            assert(self.tlab_block(b));
            let i = choose|i: int|
                0 <= i < self.tlabs.len() && (#[trigger] self.tlabs[i]).block == b * 32768;
            assert(t.kept_in(self.tlabs[i].block as int));
            assert((q + t.extent(q)) * 16 <= b * 32768 + 32768);
            assert(false);
        }
    }

    /// A block the sweep finds empty has no claimed line.
    proof fn lemma_empty_clear(&self, b: int)
        requires
            self.tables.marks_seen(),
            0 <= b < self.tables.blocks.len(),
            self.empty_block(b),
        ensures
            self.tables.blocks[b].clear(),
    {
        assert(self.tables.blocks[b] == self.tables.blocks[b]);
    }

    proof fn lemma_swept_inv(&self, start: &Space, opts: SweepOptions)
        requires
            start.wf(),
            self.tables.inv(),
            self.memory.inv(),
            self.swept(start, opts),
        ensures
            self.inv(),
    {
        let n = start.tables.blocks.len() as nat;
        start.lemma_freed_upto(n, opts);
        start.lemma_recycled_upto(n, opts);
        let fresh = start.freed_upto(n, opts);
        let kept = start.free_blocks@;
        let all = self.free_blocks@;
        assert forall|i: int| 0 <= i < self.free_blocks.len() implies (
        #[trigger] self.free_blocks[i]) % 32768 == 0 && self.free_blocks[i] as int / 32768
            < self.tables.blocks.len() && !self.tables.blocks[self.free_blocks[i] as int
            / 32768].used by {
            if i < kept.len() {
                assert(all[i] == kept[i]);
                assert(start.free_blocks[i] % 32768 == 0);
                let c = start.free_blocks[i] as int / 32768;
                assert(self.block_swept(start, c, opts));
            } else {
                assert(all[i] == fresh[i - kept.len()]);
                let c = fresh[i - kept.len()] as int / 32768;
                assert(self.block_swept(start, c, opts));
            }
        }
        assert forall|i: int, j: int| 0 <= i < j < self.free_blocks.len() implies #[trigger]
        self.free_blocks[i] != #[trigger] self.free_blocks[j] by {
            if j < kept.len() {
                assert(all[i] == kept[i] && all[j] == kept[j]);
                assert(start.free_blocks[i] != start.free_blocks[j]);
            } else {
                assert(all[j] == fresh[j - kept.len()]);
                let c = fresh[j - kept.len()] as int / 32768;
                assert(start.frees(c, opts));
                if i < kept.len() {
                    assert(all[i] == kept[i]);
                    assert(!start.tables.blocks[start.free_blocks[i] as int / 32768].used);
                } else {
                    assert(all[i] == fresh[i - kept.len()]);
                    assert(fresh[i - kept.len()] < fresh[j - kept.len()]);
                }
            }
        }
        assert forall|i: int| 0 <= i < self.recycle_spans.len() implies self.span_ok(
            #[trigger] self.recycle_spans[i],
        ) by {
            let s = self.recycle_spans@[i];
            assert(start.is_recycled(s, n as int, opts));
            assert(self.block_swept(start, s.0 as int / 32768, opts));
        }
        assert forall|i: int| 0 <= i < self.tlabs.len() implies self.tlab_ok(
            #[trigger] self.tlabs[i],
        ) by {
            let t = start.tlabs[i];
            assert(start.tlab_ok(t));
            let c = t.block as int / 32768;
            assert(start.tlabs[i].block == c * 32768);
            assert(start.tlab_block(c));
            assert(self.block_swept(start, c, opts));
            assert(!start.frees(c, opts));
            if t.cur < t.limit {
                assert(t.cur as int / 32768 == c);
            }
        }
    }

    proof fn lemma_swept_regions(&self, start: &Space, opts: SweepOptions)
        requires
            start.wf(),
            start.tables.marks_whole(),
            start.tables.marks_seen(),
            start.reclaim_ok(opts),
            self.inv(),
            self.tables.sound(),
            self.swept(start, opts),
            forall|q: int| #[trigger]
                self.tables.is_start(q) <==> start.tables.is_start(q) && !start.frees(
                    q / 2048,
                    opts,
                ),
            forall|q: int| #[trigger]
                self.tables.is_start(q) ==> self.tables.extent(q) == start.tables.extent(q),
        ensures
            self.wf(),
    {
        let n = start.tables.blocks.len() as nat;
        start.lemma_recycled_upto(n, opts);
        assert(self.tables.vacant(0, 0));
        assert(self.tlabs_sound()) by {
            assert forall|a: int, b: int| start.tables.vacant(a, b) implies #[trigger]
            self.tables.vacant(a, b) by {
                assert forall|q: int| #[trigger] self.tables.is_start(q) implies apart(
                    q * 16,
                    (q + self.tables.extent(q)) * 16,
                    a,
                    b,
                ) by {
                    assert(start.tables.is_start(q));
                }
            }
            assert forall|block: int| start.tables.kept_in(block) implies #[trigger]
            self.tables.kept_in(block) by {
                assert forall|q: int| #[trigger] self.tables.is_start(q) && q / 2048 == block
                    / 32768 implies (q + self.tables.extent(q)) * 16 <= block + 32768 by {
                    assert(start.tables.is_start(q));
                }
            }
        }
        assert forall|i: int| 0 <= i < self.recycle_spans.len() implies self.tables.enclosed(
            span_lo(#[trigger] self.recycle_spans[i]),
            span_hi(self.recycle_spans[i]),
        ) by {
            let s = self.recycle_spans@[i];
            assert(start.is_recycled(s, n as int, opts));
            assert forall|q: int| #[trigger] self.tables.is_start(q) implies apart(
                q * 16,
                (q + self.tables.extent(q)) * 16,
                span_lo(s),
                span_hi(s),
            ) || (span_lo(s) <= q * 16 && (q + self.tables.extent(q)) * 16 <= span_hi(s)) by {
                start.lemma_run_encloses(s, q, opts);
            }
        }
        assert forall|i: int, j: int|
            0 <= i < self.recycle_spans.len() && 0 <= j < self.tlabs.len() implies apart(
            span_lo(#[trigger] self.recycle_spans[i]),
            span_hi(self.recycle_spans[i]),
            (#[trigger] self.tlabs[j]).cur as int,
            self.tlabs[j].limit as int,
        ) by {
            let s = self.recycle_spans@[i];
            assert(start.is_recycled(s, n as int, opts));
            let t = start.tlabs[j];
            assert(start.tlab_ok(t));
            assert(self.tlab_ok(self.tlabs[j]));
            let c = t.block as int / 32768;
            assert(start.tlabs[j].block == c * 32768);
            assert(start.tlab_block(c));
            assert(c != s.0 as int / 32768);
        }
        assert forall|i: int, j: int| 0 <= i < j < self.recycle_spans.len() implies apart(
            span_lo(#[trigger] self.recycle_spans[i]),
            span_hi(self.recycle_spans[i]),
            span_lo(#[trigger] self.recycle_spans[j]),
            span_hi(self.recycle_spans[j]),
        ) by {
            assert(span_hi(self.recycle_spans@[i]) <= span_lo(self.recycle_spans@[j]));
        }
    }

    /// A surviving allocation that touches a recycled run lies in it.
    #[verifier::rlimit(60)]
    #[verifier::spinoff_prover]
    proof fn lemma_run_encloses(&self, s: (usize, usize, usize), q: int, opts: SweepOptions)
        requires
            self.wf(),
            self.tables.marks_whole(),
            self.tables.marks_seen(),
            self.reclaim_ok(opts),
            self.is_recycled(s, self.tables.blocks.len() as int, opts),
            self.tables.is_start(q),
            !self.frees(q / 2048, opts),
        ensures
            apart(q * 16, (q + self.tables.extent(q)) * 16, span_lo(s), span_hi(s)) || (span_lo(s)
                <= q * 16 && (q + self.tables.extent(q)) * 16 <= span_hi(s)),
    {
        let t = self.tables;
        let b = s.0 as int / 32768;
        let lo = span_lo(s);
        let hi = span_hi(s);
        let end = (q + t.extent(q)) * 16;
        assert(t.entry_ok(q));
        if !apart(q * 16, end, lo, hi) {
            // A line of the run that the allocation touches.
            let l = if q * 16 < lo {
                lo / 128
            } else {
                q / 8
            };
            assert(t.on_line(q, l));
            assert(l / 256 == b);
            let block = t.blocks[b];
            assert(s.1 <= l - b * 256 < s.1 + s.2);
            assert(!block.marked(l - b * 256));
            assert(!t.marked_line(l));
            assert(t.on_line(q, q / 8));
            if q / 2048 != (q + t.extent(q) - 1) / 2048 {
                self.lemma_spread_is_marked(q, l, b, opts);
                assert(false);
            }
            assert(q / 2048 == b) by {
                t.lemma_line_in_heap(q, l);
            }
            if q * 16 < lo {
                let edge = b * 256 + s.1 - 1;
                assert(t.on_line(q, edge));
                assert(t.marked_line(edge) == t.marked_line(l));
                assert(block.marked(s.1 - 1));
                assert(false);
            }
            if end > hi {
                let edge = b * 256 + s.1 + s.2;
                assert(t.on_line(q, edge));
                assert(t.marked_line(edge) == t.marked_line(l));
                assert(s.1 + s.2 < 256);
                assert(block.marked(s.1 + s.2));
                assert(false);
            }
        }
    }

    /// An allocation over several blocks that survives is claimed, where it
    /// touches a block that recycles.
    proof fn lemma_spread_is_marked(&self, q: int, l: int, b: int, opts: SweepOptions)
        requires
            self.wf(),
            self.tables.marks_whole(),
            self.tables.marks_seen(),
            self.reclaim_ok(opts),
            self.tables.on_line(q, l),
            l / 256 == b,
            self.recycles(b, opts),
            q / 2048 != (q + self.tables.extent(q) - 1) / 2048,
            !self.frees(q / 2048, opts),
        ensures
            self.tables.marked_line(l),
    {
        let t = self.tables;
        t.lemma_line_in_heap(q, l);
        assert(t.entry_ok(q));
        assert(t.on_line(q, q / 8));
        if !t.marked_line(l) {
            let c = q / 2048;
            assert(q % 2048 == 0);
            assert forall|x: int| 0 <= x < 256 implies !#[trigger] t.blocks[c].marked(x) by {
                assert(t.on_line(q, c * 256 + x));
                assert(t.marked_line(c * 256 + x) == t.marked_line(q / 8));
                assert(t.marked_line(l) == t.marked_line(q / 8));
                assert(t.marked_line(c * 256 + x) == t.blocks[c].marked(x));
            }
            assert(t.blocks[c].clear());
            assert(self.empty_block(c));
            t.lemma_line_in_heap(q, q / 8);
            assert(t.blocks[c].used);
            if self.tlab_block(c) {
                let i = choose|i: int|
                    0 <= i < self.tlabs.len() && (#[trigger] self.tlabs[i]).block == c * 32768;
                assert(t.kept_in(self.tlabs[i].block as int));
                assert((q + t.extent(q)) * 16 <= c * 32768 + 32768);
                assert(false);
            }
            assert(opts.no_reclaim);
            assert(t.marked_line(q / 8));
        }
    }
}

} // verus!
