//! Allocations of more than a block: a run of whole free blocks.

use vstd::prelude::*;

use crate::heap::layout::{line_up, round_quantum, BLOCK_SIZE, WORD};
use crate::heap::space::{alloc_byte, alloc_lines, apart, reserved, span_hi, span_lo, Space};

verus! {

/// `[usize]::sort_unstable`: the same numbers, in ascending order.
#[verifier::external_body]
pub(crate) fn sort_offsets(v: &mut Vec<usize>)
    ensures
        final(v)@.to_multiset() == old(v)@.to_multiset(),
        forall|i: int, j: int| 0 <= i <= j < final(v).len() ==> final(v)[i] <= final(v)[j],
{
    v.sort_unstable();
}

/// The blocks that `size` bytes take.
pub fn block_count(size: usize) -> (n: usize)
    ensures
        n == Space::blocks_for(size as int),
{
    size / BLOCK_SIZE + if size % BLOCK_SIZE == 0 {
        0
    } else {
        1
    }
}

/// `n` numbers from index `s` on, each a block after the one before.
pub open spec fn consecutive(f: Seq<usize>, s: int, n: int) -> bool {
    &&& 0 <= s
    &&& s + n <= f.len()
    &&& forall|k: int| 0 <= k < n ==> #[trigger] f[s + k] == f[s] + k * 32768
}

pub open spec fn ascending(f: Seq<usize>) -> bool {
    forall|i: int, j: int| 0 <= i < j < f.len() ==> #[trigger] f[i] < #[trigger] f[j]
}

pub open spec fn listed(f: Seq<usize>, a: int) -> bool {
    exists|i: int| 0 <= i < f.len() && #[trigger] f[i] == a
}

/// The `n` blocks from byte `a` on are all in `f`.
pub open spec fn run_of(f: Seq<usize>, a: int, n: int) -> bool {
    forall|k: int| 0 <= k < n ==> #[trigger] listed(f, a + k * 32768)
}

/// In an ascending list of block offsets, a run of blocks stands together.
proof fn lemma_run_is_consecutive(f: Seq<usize>, a: int, n: int, s: int)
    requires
        ascending(f),
        forall|i: int| 0 <= i < f.len() ==> (#[trigger] f[i]) % 32768 == 0,
        run_of(f, a, n),
        0 < n,
        0 <= s < f.len(),
        f[s] == a,
    ensures
        consecutive(f, s, n),
    decreases n,
{
    if n > 1 {
        assert(run_of(f, a, n - 1));
        lemma_run_is_consecutive(f, a, n - 1, s);
        assert(listed(f, a + (n - 1) * 32768));
        let i = choose|i: int| 0 <= i < f.len() && #[trigger] f[i] == a + (n - 1) * 32768;
        let before = s + (n - 2);
        assert(f[s + (n - 2)] == f[s] + (n - 2) * 32768);
        if i <= before {
            if i < before {
                assert(f[i] < f[before]);
            }
            assert(false);
        }
        if i > before + 1 {
            assert(f[before] < f[before + 1]);
            assert(f[before + 1] < f[i]);
            assert(f[before + 1] % 32768 == 0);
            assert(f[before] % 32768 == 0);
            assert(false);
        }
        assert forall|k: int| 0 <= k < n implies #[trigger] f[s + k] == f[s] + k * 32768 by {
            if k == n - 1 {
                assert(s + k == i);
            }
        }
    }
}

/// The first index from which `n` consecutive blocks stand in `f`.
fn find_run(f: &Vec<usize>, n: usize) -> (r: Option<usize>)
    requires
        0 < n,
        ascending(f@),
        forall|i: int| 0 <= i < f.len() ==> (#[trigger] f[i]) % 32768 == 0,
        forall|i: int| 0 <= i < f.len() ==> (#[trigger] f[i]) + 32768 <= usize::MAX,
    ensures
        match r {
            Some(s) => {
                &&& consecutive(f@, s as int, n as int)
                &&& forall|t: int| 0 <= t < s ==> !#[trigger] consecutive(f@, t, n as int)
            },
            None => forall|t: int| !#[trigger] consecutive(f@, t, n as int),
        },
{
    let mut i: usize = 0;
    let mut run_start: usize = 0;
    while i < f.len()
        invariant
            0 < n,
            ascending(f@),
            forall|k: int| 0 <= k < f.len() ==> (#[trigger] f[k]) + 32768 <= usize::MAX,
            run_start <= i <= f.len(),
            i > 0 ==> run_start < i,
            consecutive(f@, run_start as int, i - run_start),
            run_start > 0 ==> f[run_start as int] != f[run_start - 1] + 32768,
            i - run_start < n,
            forall|t: int| 0 <= t && t + n <= i ==> !#[trigger] consecutive(f@, t, n as int),
        decreases f.len() - i,
    {
        let block: usize = f[i];
        if i > 0 {
            let prev: usize = f[i - 1];
            if block != prev + BLOCK_SIZE {
                run_start = i;
            }
        }
        proof {
            assert(consecutive(f@, run_start as int, i + 1 - run_start)) by {
                assert forall|k: int| 0 <= k < i + 1 - run_start implies #[trigger] f@[run_start
                    + k] == f@[run_start as int] + k * 32768 by {
                    if run_start < i && k == i - run_start {
                        assert(f@[run_start + (k - 1)] == f@[run_start as int] + (k - 1) * 32768);
                    }
                }
            }
            assert forall|t: int| 0 <= t && t + n <= i + 1 && t < run_start implies !#[trigger]
            consecutive(f@, t, n as int) by {
                if t + n == i + 1 && consecutive(f@, t, n as int) {
                    let k = run_start - t;
                    assert(f@[t + k] == f@[t] + k * 32768);
                    assert(f@[t + (k - 1)] == f@[t] + (k - 1) * 32768);
                    assert(false);
                }
            }
        }
        if i - run_start + 1 >= n {
            return Some(run_start);
        }
        i = i + 1;
    }
    None
}

impl Space {
    /// Block offset `a` is on the free list.
    pub open spec fn is_free(&self, a: int) -> bool {
        listed(self.free_blocks@, a)
    }

    /// The `n` blocks from byte `a` on are all free.
    pub open spec fn run_free(&self, a: int, n: int) -> bool {
        run_of(self.free_blocks@, a, n)
    }

    /// Sort the free list.
    fn sort_free(&mut self)
        requires
            old(self).wf(),
        ensures
            final(self).wf(),
            ascending(final(self).free_blocks@),
            forall|a: int| #[trigger] final(self).is_free(a) == old(self).is_free(a),
            final(self).tables == old(self).tables,
            final(self).memory == old(self).memory,
            final(self).recycle_spans == old(self).recycle_spans,
            final(self).tlabs == old(self).tlabs,
            final(self).allocation_point == old(self).allocation_point,
            final(self).current_block_end == old(self).current_block_end,
            final(self).reuse_due == old(self).reuse_due,
            final(self).free_blocks.len() == old(self).free_blocks.len(),
    {
        broadcast use vstd::seq_lib::group_to_multiset_ensures;

        let ghost before = self.free_blocks@;
        sort_offsets(&mut self.free_blocks);
        let ghost after = self.free_blocks@;
        proof {
            assert(before.no_duplicates());
            assert(before.len() == before.to_multiset().len());
            assert(after.len() == after.to_multiset().len());
            before.lemma_multiset_has_no_duplicates();
            after.lemma_multiset_has_no_duplicates_conv();
            assert forall|i: int, j: int| 0 <= i < j < after.len() implies #[trigger] after[i]
                < #[trigger] after[j] by {
                assert(after[i] <= after[j]);
                assert(after[i] != after[j]);
            }
            assert forall|x: usize| after.contains(x) <==> before.contains(x) by {
                assert(after.to_multiset().count(x) == before.to_multiset().count(x));
            }
            assert forall|i: int| 0 <= i < after.len() implies (#[trigger] after[i]) % 32768 == 0
                && after[i] as int / 32768 < self.tables.blocks.len()
                && !self.tables.blocks[after[i] as int / 32768].used by {
                assert(after.contains(after[i]));
                assert(before.contains(after[i]));
                let k = choose|k: int| 0 <= k < before.len() && before[k] == after[i];
                assert(old(self).free_blocks[k] == after[i]);
            }
            assert forall|a: int| #[trigger] self.is_free(a) == old(self).is_free(a) by {
                if self.is_free(a) {
                    let i = choose|i: int| 0 <= i < after.len() && #[trigger] after[i] == a;
                    assert(after.contains(after[i]));
                    let k = choose|k: int| 0 <= k < before.len() && before[k] == after[i];
                    assert(before[k] == a);
                }
                if old(self).is_free(a) {
                    let i = choose|i: int| 0 <= i < before.len() && #[trigger] before[i] == a;
                    assert(before.contains(before[i]));
                    let k = choose|k: int| 0 <= k < after.len() && after[k] == before[i];
                    assert(after[k] == a);
                }
            }
            assert(self.free_ok());
            assert forall|i: int| 0 <= i < self.recycle_spans.len() implies self.span_ok(
                #[trigger] self.recycle_spans[i],
            ) by {
                assert(old(self).span_ok(old(self).recycle_spans[i]));
            }
            assert forall|i: int| 0 <= i < self.tlabs.len() implies self.tlab_ok(
                #[trigger] self.tlabs[i],
            ) by {
                assert(old(self).tlab_ok(old(self).tlabs[i]));
            }
        }
    }

    /// Hand out the `n` consecutive blocks that stand from index `at` on in
    /// the free list.
    #[verifier::rlimit(60)]
    #[verifier::spinoff_prover]
    fn take_run(&mut self, at: usize, n: usize) -> (start: usize)
        requires
            old(self).wf(),
            0 < n,
            consecutive(old(self).free_blocks@, at as int, n as int),
        ensures
            final(self).wf(),
            start == old(self).free_blocks[at as int],
            start % 32768 == 0,
            start + n * 32768 <= final(self).tables.size(),
            final(self).free_blocks@ == old(self).free_blocks@.take(at as int)
                + old(self).free_blocks@.skip(at + n),
            final(self).open_region(start as int, start + n * 32768),
            final(self).tlabs_outside(start as int, start + n * 32768),
            final(self).memory == old(self).memory,
            final(self).no_new_marks(old(self)),
            final(self).takes_blocks(old(self), start as int, start + n * 32768),
            final(self).recycle_spans == old(self).recycle_spans,
            final(self).tlabs == old(self).tlabs,
            final(self).allocation_point == old(self).allocation_point,
            final(self).current_block_end == old(self).current_block_end,
            forall|q: int| #[trigger]
                final(self).tables.is_start(q) == old(self).tables.is_start(q),
            forall|q: int| #[trigger]
                final(self).tables.is_start(q) ==> final(self).tables.extent(q) == old(
                    self,
                ).tables.extent(q) && final(self).tables.objects[q] == old(self).tables.objects[q],
            forall|k: int|
                0 <= k < n ==> (#[trigger] final(self).tables.blocks[start as int / 32768
                    + k]).used,
    {
        let ghost f = self.free_blocks@;
        let start: usize = self.free_blocks[at];
        let mut k: usize = 0;
        proof {
            assert(f.take(at as int) + f.skip(at as int) =~= f);
            assert(self.open_region(start as int, start as int)) by {
                assert(self.tables.vacant(start as int, start as int));
            }
            assert(self.tlabs_outside(start as int, start + n * 32768)) by {
                assert forall|i: int| 0 <= i < self.tlabs.len() implies apart(
                    start as int,
                    start + n * 32768,
                    (#[trigger] self.tlabs[i]).block as int,
                    self.tlabs[i].block + 32768,
                ) by {
                    let b = self.tlabs[i].block as int;
                    assert(self.tlab_ok(self.tlabs[i]));
                    if start <= b < start + n * 32768 {
                        assert(self.free_blocks[at as int] % 32768 == 0);
                        let k = (b - start) / 32768;
                        assert(f[at + k] == f[at as int] + k * 32768);
                        assert(self.free_blocks[at + k] == b);
                    }
                }
            }
        }
        while k < n
            invariant
                self.wf(),
                0 < n,
                k <= n,
                f == old(self).free_blocks@,
                consecutive(f, at as int, n as int),
                start == f[at as int],
                start % 32768 == 0,
                self.free_blocks@ == f.take(at as int) + f.skip(at + k),
                old(self).wf(),
                self.memory == old(self).memory,
                self.no_new_marks(old(self)),
                self.takes_blocks(old(self), start as int, start + k * 32768),
                self.recycle_spans == old(self).recycle_spans,
                self.tlabs == old(self).tlabs,
                self.allocation_point == old(self).allocation_point,
                self.current_block_end == old(self).current_block_end,
                self.open_region(start as int, start + k * 32768),
                self.tlabs_outside(start as int, start + n * 32768),
                forall|q: int| #[trigger]
                    self.tables.is_start(q) == old(self).tables.is_start(q),
                forall|q: int| #[trigger]
                    self.tables.is_start(q) ==> self.tables.extent(q) == old(self).tables.extent(q)
                        && self.tables.objects[q] == old(self).tables.objects[q],
                forall|j: int|
                    0 <= j < k ==> (#[trigger] self.tables.blocks[start as int / 32768 + j]).used,
                k > 0 ==> start + k * 32768 <= self.tables.size(),
            decreases n - k,
        {
            let ghost before = *self;
            proof {
                assert(self.free_blocks@[at as int] == f[at + k]);
                assert(f[at + k] == start + k * 32768);
                assert(before.free_blocks[at as int] == start + k * 32768);
            }
            let block: usize = self.free_blocks.remove(at);
            let ghost mid = *self;
            proof {
                assert(block == start + k * 32768);
                assert(mid.free_blocks@ =~= f.take(at as int) + f.skip(at + k + 1));
                assert forall|i: int| 0 <= i < mid.free_blocks.len() implies #[trigger]
                mid.free_blocks[i] == before.free_blocks[if i < at { i } else { i + 1 }] by {}
                assert(mid.inv()) by {
                    assert forall|i: int| 0 <= i < mid.recycle_spans.len() implies mid.span_ok(
                        #[trigger] mid.recycle_spans[i],
                    ) by {
                        assert(before.span_ok(before.recycle_spans[i]));
                    }
                    assert forall|i: int| 0 <= i < mid.tlabs.len() implies mid.tlab_ok(
                        #[trigger] mid.tlabs[i],
                    ) by {
                        assert(before.tlab_ok(before.tlabs[i]));
                    }
                }
                assert(mid.sound());
                assert(block as int / 32768 == start as int / 32768 + k);
            }
            self.hand_out(block);
            proof {
                assert(self.no_new_marks(&mid));
                self.lemma_marks_chain(&mid, old(self));
                assert(self.takes_blocks(old(self), start as int, start + (k + 1) * 32768)) by {
                    assert(mid.takes_blocks(old(self), start as int, start + k * 32768));
                    assert forall|b: int| 0 <= b < self.tables.blocks.len() implies ({
                        let was = old(self).tables.blocks[b];
                        let now = #[trigger] self.tables.blocks[b];
                        &&& now.any_marked == was.any_marked
                        &&& if start <= b * 32768 < start + (k + 1) * 32768 {
                            now.used && now.clear() && !now.has_drop && !now.reusable
                        } else {
                            now.mark_bits == was.mark_bits && now.used == was.used && now.has_drop
                                == was.has_drop && now.reusable == was.reusable
                        }
                    }) by {
                        let m = mid.tables.blocks[b];
                        assert(m.any_marked == old(self).tables.blocks[b].any_marked);
                        if b != block as int / 32768 {
                            assert(self.tables.blocks[b] == m);
                        }
                    }
                }
                assert(self.open_region(start as int, start + (k + 1) * 32768)) by {
                    self.lemma_join(&mid, start as int, block as int);
                }
                assert forall|j: int| 0 <= j < k + 1 implies (
                #[trigger] self.tables.blocks[start as int / 32768 + j]).used by {
                    if j < k {
                        assert(mid.tables.blocks[start as int / 32768 + j].used);
                    }
                }
                assert forall|q: int| #[trigger] self.tables.is_start(q) == old(
                    self,
                ).tables.is_start(q) by {
                    assert(mid.tables.is_start(q) == old(self).tables.is_start(q));
                }
            }
            k = k + 1;
        }
        start
    }

    /// A block handed out behind an open run makes it longer.
    proof fn lemma_join(&self, mid: &Space, lo: int, block: int)
        requires
            mid.open_region(lo, block),
            self.open_region(block, block + 32768),
            self.handed_out(mid, block),
            self.inv(),
            lo <= block,
        ensures
            self.open_region(lo, block + 32768),
    {
        assert forall|q: int| #[trigger] self.tables.is_start(q) implies apart(
            q * 16,
            (q + self.tables.extent(q)) * 16,
            lo,
            block + 32768,
        ) by {
            assert(mid.tables.is_start(q));
            assert(self.tables.entry_ok(q));
            assert(apart(q * 16, (q + mid.tables.extent(q)) * 16, lo, block));
            assert(apart(q * 16, (q + self.tables.extent(q)) * 16, block, block + 32768));
        }
        assert forall|i: int| 0 <= i < self.tlabs.len() implies apart(
            lo,
            block + 32768,
            (#[trigger] self.tlabs[i]).cur as int,
            self.tlabs[i].limit as int,
        ) by {
            assert(apart(lo, block, mid.tlabs[i].cur as int, mid.tlabs[i].limit as int));
        }
        assert forall|i: int| 0 <= i < self.recycle_spans.len() implies apart(
            lo,
            block + 32768,
            span_lo(#[trigger] self.recycle_spans[i]),
            span_hi(self.recycle_spans[i]),
        ) by {
            assert(apart(lo, block, span_lo(mid.recycle_spans[i]), span_hi(mid.recycle_spans[i])));
        }
    }

    /// No mutator's block lies in the bytes from `lo` to `hi`.
    pub open spec fn tlabs_outside(&self, lo: int, hi: int) -> bool {
        forall|i: int|
            0 <= i < self.tlabs.len() ==> apart(
                lo,
                hi,
                (#[trigger] self.tlabs[i]).block as int,
                self.tlabs[i].block + 32768,
            )
    }

    /// Adding an allocation inside an open run keeps the space in order.
    proof fn lemma_added_open(&self, before: &Space, q0: int, lo: int, hi: int)
        requires
            before.wf(),
            before.open_region(lo, hi),
            self.tables.inv(),
            self.tables.sound(),
            self.tables.covers(&self.memory),
            self.free_blocks == before.free_blocks,
            self.recycle_spans == before.recycle_spans,
            self.tlabs == before.tlabs,
            self.allocation_point == before.allocation_point,
            self.current_block_end == before.current_block_end,
            self.same_marks(before),
            forall|p: int|
                p != q0 ==> #[trigger] self.tables.is_start(p) == before.tables.is_start(p),
            forall|p: int|
                p != q0 && #[trigger] self.tables.is_start(p) ==> self.tables.extent(p)
                    == before.tables.extent(p),
            lo <= q0 * 16,
            (q0 + self.tables.extent(q0)) * 16 <= hi,
            before.tlabs_outside(lo, hi),
            lo % 32768 == 0,
            hi % 32768 == 0,
        ensures
            self.wf(),
    {
        assert forall|i: int| 0 <= i < self.tlabs.len() implies self.tables.kept_in(
            (#[trigger] self.tlabs[i]).block as int,
        ) by {
            let block = before.tlabs[i].block as int;
            assert(before.tables.kept_in(block));
            assert(before.tlab_ok(before.tlabs[i]));
            assert(apart(lo, hi, block, block + 32768));
            assert forall|q: int| #[trigger] self.tables.is_start(q) && q / 2048 == block
                / 32768 implies (q + self.tables.extent(q)) * 16 <= block + 32768 by {
                if q != q0 {
                    assert(before.tables.is_start(q));
                } else {
                    assert(self.tables.entry_ok(q));
                }
            }
        }
        assert forall|i: int| 0 <= i < self.recycle_spans.len() implies self.span_ok(
            #[trigger] self.recycle_spans[i],
        ) by {
            assert(before.span_ok(before.recycle_spans[i]));
        }
        assert forall|i: int| 0 <= i < self.tlabs.len() implies self.tlab_ok(
            #[trigger] self.tlabs[i],
        ) by {
            assert(before.tlab_ok(before.tlabs[i]));
        }
        assert(self.free_ok());
        assert(self.inv());
        assert forall|a: int, b: int|
            before.tables.vacant(a, b) && apart(lo, hi, a, b) implies #[trigger] self.tables.vacant(
            a,
            b,
        ) by {
            assert forall|q: int| #[trigger] self.tables.is_start(q) implies apart(
                q * 16,
                (q + self.tables.extent(q)) * 16,
                a,
                b,
            ) by {
                if q != q0 {
                    assert(before.tables.is_start(q));
                }
            }
        }
        assert forall|a: int, b: int|
            before.tables.enclosed(a, b) && apart(lo, hi, a, b) implies #[trigger]
        self.tables.enclosed(a, b) by {
            assert forall|q: int| #[trigger] self.tables.is_start(q) implies apart(
                q * 16,
                (q + self.tables.extent(q)) * 16,
                a,
                b,
            ) || (a <= q * 16 && (q + self.tables.extent(q)) * 16 <= b) by {
                if q != q0 {
                    assert(before.tables.is_start(q));
                }
            }
        }
        assert(self.sound());
    }

    /// Blocks an allocation of `size` bytes takes.
    pub open spec fn blocks_for(size: int) -> int {
        (size + 32767) / 32768
    }

    /// `self` is `before` with one more allocation: `size` bytes from block
    /// `start` on, recorded as a span of whole lines, unclaimed and raw, over
    /// whole zeroed blocks taken from the free list.
    pub open spec fn large_at(&self, before: &Space, start: int, size: int) -> bool {
        let q = start / 16;
        let n = Space::blocks_for(size);
        &&& start % 32768 == 0
        &&& start + n * 32768 <= before.tables.size()
        &&& self.tables.is_start(q)
        &&& self.tables.extent(q) * 16 == line_up(size)
        &&& self.tables.objects[q] == 9
        &&& forall|p: int|
            p != q ==> #[trigger] self.tables.is_start(p) == before.tables.is_start(p)
        &&& forall|p: int|
            p != q && #[trigger] self.tables.is_start(p) ==> self.tables.extent(p)
                == before.tables.extent(p) && self.tables.objects[p] == before.tables.objects[p]
        &&& self.zeroed(before, start, n * 32768)
        &&& before.run_free(start, n)
        &&& self.no_new_marks(before)
        &&& self.takes_blocks(before, start, start + n * 32768)
        &&& forall|a: int|
            #[trigger] self.is_free(a) <==> before.is_free(a) && !(start <= a < start + n * 32768)
    }

    /// Zero the `n` open blocks from `start` on and record an allocation of
    /// `size` bytes at their front.
    #[verifier::rlimit(60)]
    #[verifier::spinoff_prover]
    fn place_large(&mut self, start: usize, size: usize, n: usize)
        requires
            old(self).wf(),
            32768 < size,
            size + 15 <= usize::MAX,
            n == Space::blocks_for(size as int),
            start % 32768 == 0,
            start + n * 32768 <= old(self).tables.size(),
            old(self).open_region(start as int, start + n * 32768),
            old(self).tlabs_outside(start as int, start + n * 32768),
            forall|k: int|
                0 <= k < n ==> (#[trigger] old(self).tables.blocks[start as int / 32768 + k]).used,
        ensures
            final(self).wf(),
            final(self).free_blocks == old(self).free_blocks,
            final(self).recycle_spans == old(self).recycle_spans,
            final(self).tlabs == old(self).tlabs,
            final(self).allocation_point == old(self).allocation_point,
            final(self).current_block_end == old(self).current_block_end,
            final(self).tables.is_start(start as int / 16),
            final(self).tables.extent(start as int / 16) * 16 == line_up(size as int),
            final(self).tables.objects[start as int / 16] == 9,
            forall|p: int|
                p != start as int / 16 ==> #[trigger] final(self).tables.is_start(p) == old(
                    self,
                ).tables.is_start(p),
            forall|p: int|
                p != start as int / 16 && #[trigger] final(self).tables.is_start(p) ==> final(self).tables.extent(p) == old(self).tables.extent(p) && final(self).tables.objects[p]
                    == old(self).tables.objects[p],
            final(self).zeroed(old(self), start as int, n * 32768),
            final(self).same_marks(old(self)),
    {
        self.memory.fill(start / WORD, n * BLOCK_SIZE / WORD, 0);
        let aligned: usize = round_quantum(size);
        let ghost q = start as int / 16;
        let ghost tables = self.tables;
        proof {
            assert(line_up(aligned as int) == line_up(size as int));
            assert(reserved(aligned as int) <= n * 32768);
            assert(tables.vacant(start as int, start + reserved(aligned as int))) by {
                assert forall|p: int| #[trigger] tables.is_start(p) implies apart(
                    p * 16,
                    (p + tables.extent(p)) * 16,
                    start as int,
                    start + reserved(aligned as int),
                ) by {
                    assert(apart(
                        p * 16,
                        (p + tables.extent(p)) * 16,
                        start as int,
                        start + n * 32768,
                    ));
                }
            }
        }
        self.tables.record_allocation(start, aligned);
        proof {
            self.tables.lemma_added(
                &tables,
                q,
                alloc_byte(aligned as int),
                alloc_lines(aligned as int),
            );
            assert(self.tables.sound()) by {
                assert forall|l: int| q / 8 <= l <= (q + self.tables.extent(q) - 1) / 8 implies (
                #[trigger] tables.blocks[l / 256]).used by {
                    let k = l / 256 - start as int / 32768;
                    assert(0 <= k < n);
                    assert(old(self).tables.blocks[start as int / 32768 + k].used);
                }
            }
            self.lemma_added_open(old(self), q, start as int, start + n * 32768);
        }
    }

    /// Allocate `size` bytes, more than a block, over the lowest run of free
    /// blocks long enough. `None`, and no change to any allocation, when there
    /// is no such run. Either way the free list is left in ascending order.
    #[verifier::rlimit(60)]
    #[verifier::spinoff_prover]
    pub fn allocate_large(&mut self, size: usize) -> (r: Option<usize>)
        requires
            old(self).wf(),
            32768 < size,
            size + 15 <= usize::MAX,
        ensures
            final(self).wf(),
            ascending(final(self).free_blocks@),
            final(self).recycle_spans == old(self).recycle_spans,
            final(self).tlabs == old(self).tlabs,
            final(self).allocation_point == old(self).allocation_point,
            final(self).current_block_end == old(self).current_block_end,
            match r {
                Some(start) => {
                    &&& final(self).large_at(old(self), start as int, size as int)
                    &&& forall|a: int|
                        a < start ==> !#[trigger] old(self).run_free(
                            a,
                            Space::blocks_for(size as int),
                        )
                },
                None => {
                    &&& forall|a: int| !#[trigger]
                        old(self).run_free(a, Space::blocks_for(size as int))
                    &&& final(self).tables == old(self).tables
                    &&& final(self).memory == old(self).memory
                    &&& forall|a: int| #[trigger] final(self).is_free(a) == old(self).is_free(a)
                },
            },
    {
        let n: usize = block_count(size);
        self.sort_free();
        let ghost sorted = *self;
        let ghost f = self.free_blocks@;
        proof {
            assert forall|i: int| 0 <= i < f.len() implies (#[trigger] f[i]) + 32768
                <= usize::MAX by {
                assert(self.free_blocks[i] % 32768 == 0);
            }
        }
        match find_run(&self.free_blocks, n) {
            Some(at) => {
                let start: usize = self.take_run(at, n);
                let ghost open = *self;
                proof {
                    sorted.lemma_lowest(old(self), at as int, n as int);
                    sorted.lemma_left(self, at as int, n as int);
                }
                self.place_large(start, size, n);
                proof {
                    let q = start as int / 16;
                    assert(ascending(self.free_blocks@)) by {
                        let g = self.free_blocks@;
                        assert forall|i: int, j: int| 0 <= i < j < g.len() implies #[trigger] g[i]
                            < #[trigger] g[j] by {
                            assert(g[i] == f[if i < at { i } else { i + n }]);
                            assert(g[j] == f[if j < at { j } else { j + n }]);
                        }
                    }
                    assert forall|p: int| p != q implies #[trigger] self.tables.is_start(p) == old(
                        self,
                    ).tables.is_start(p) by {
                        assert(open.tables.is_start(p) == old(self).tables.is_start(p));
                    }
                    assert forall|p: int| p != q && #[trigger] self.tables.is_start(
                        p,
                    ) implies self.tables.extent(p) == old(self).tables.extent(p)
                        && self.tables.objects[p] == old(self).tables.objects[p] by {
                        assert(open.tables.is_start(p));
                    }
                    assert forall|a: int|
                        #[trigger] self.is_free(a) <==> old(self).is_free(a) && !(start <= a < start
                            + n * 32768) by {
                        assert(self.is_free(a) == open.is_free(a));
                        assert(sorted.is_free(a) == old(self).is_free(a));
                    }
                    assert(self.zeroed(old(self), start as int, n * 32768));
                    assert(self.no_new_marks(&open));
                    assert(open.no_new_marks(&sorted));
                    self.lemma_marks_chain(&open, old(self));
                    assert(open.takes_blocks(old(self), start as int, start + n * 32768));
                    self.lemma_takes_chain(&open, old(self), start as int, start + n * 32768);
                }
                Some(start)
            },
            None => {
                proof {
                    assert forall|a: int| !#[trigger]
                        old(self).run_free(a, Space::blocks_for(size as int)) by {
                        if old(self).run_free(a, n as int) {
                            sorted.lemma_no_run(old(self), a, n as int);
                        }
                    }
                }
                None
            },
        }
    }

    proof fn lemma_no_run(&self, before: &Space, a: int, n: int)
        requires
            self.wf(),
            ascending(self.free_blocks@),
            forall|b: int| #[trigger] self.is_free(b) == before.is_free(b),
            before.run_free(a, n),
            0 < n,
        ensures
            exists|t: int|
                0 <= t < self.free_blocks.len() && self.free_blocks[t] == a
                    && #[trigger] consecutive(self.free_blocks@, t, n),
    {
        assert forall|k: int| 0 <= k < n implies #[trigger] listed(
            self.free_blocks@,
            a + k * 32768,
        ) by {
            assert(listed(before.free_blocks@, a + k * 32768));
            assert(self.is_free(a + k * 32768) == before.is_free(a + k * 32768));
        }
        assert(listed(self.free_blocks@, a + 0 * 32768));
        let t = choose|t: int|
            0 <= t < self.free_blocks@.len() && #[trigger] self.free_blocks@[t] == a;
        assert forall|i: int| 0 <= i < self.free_blocks@.len() implies (
        #[trigger] self.free_blocks@[i]) % 32768 == 0 by {
            assert(self.free_blocks[i] % 32768 == 0);
        }
        lemma_run_is_consecutive(self.free_blocks@, a, n, t);
    }

    proof fn lemma_lowest(&self, before: &Space, at: int, n: int)
        requires
            self.wf(),
            ascending(self.free_blocks@),
            forall|b: int| #[trigger] self.is_free(b) == before.is_free(b),
            0 < n,
            consecutive(self.free_blocks@, at, n),
            forall|t: int| 0 <= t < at ==> !#[trigger] consecutive(self.free_blocks@, t, n),
        ensures
            before.run_free(self.free_blocks[at] as int, n),
            forall|a: int| a < self.free_blocks[at] ==> !#[trigger] before.run_free(a, n),
    {
        let f = self.free_blocks@;
        let start = f[at] as int;
        assert forall|k: int| 0 <= k < n implies #[trigger] listed(
            before.free_blocks@,
            start + k * 32768,
        ) by {
            assert(f[at + k] == start + k * 32768);
            assert(listed(f, start + k * 32768));
            assert(self.is_free(start + k * 32768) == before.is_free(start + k * 32768));
        }
        assert forall|a: int| a < start implies !#[trigger] before.run_free(a, n) by {
            if before.run_free(a, n) {
                self.lemma_no_run(before, a, n);
                let t = choose|t: int|
                    0 <= t < self.free_blocks.len() && self.free_blocks[t] == a
                        && #[trigger] consecutive(self.free_blocks@, t, n);
                if t >= at {
                    if t > at {
                        assert(f[at] < f[t]);
                    }
                    assert(false);
                }
            }
        }
    }

    /// Which blocks are free once a run has left the list.
    proof fn lemma_left(&self, after: &Space, at: int, n: int)
        requires
            ascending(self.free_blocks@),
            consecutive(self.free_blocks@, at, n),
            self.free_ok(),
            0 < n,
            after.free_blocks@ == self.free_blocks@.take(at) + self.free_blocks@.skip(at + n),
        ensures
            forall|a: int|
                #[trigger] after.is_free(a) <==> self.is_free(a) && !(self.free_blocks[at] <= a
                    < self.free_blocks[at] + n * 32768),
    {
        let f = self.free_blocks@;
        let g = after.free_blocks@;
        let start = f[at] as int;
        assert forall|a: int| #[trigger] after.is_free(a) <==> self.is_free(a) && !(start <= a
            < start + n * 32768) by {
            if after.is_free(a) {
                let i = choose|i: int| 0 <= i < g.len() && #[trigger] g[i] == a;
                let k = if i < at { i } else { i + n };
                assert(g[i] == f[k]);
                if i < at {
                    assert(f[k] < f[at]);
                } else {
                    assert(f[at + (n - 1)] == start + (n - 1) * 32768);
                    assert(f[at + (n - 1)] < f[k]);
                    assert(self.free_blocks[k] % 32768 == 0);
                    assert(self.free_blocks[at] % 32768 == 0);
                }
            }
            if self.is_free(a) && !(start <= a < start + n * 32768) {
                let k = choose|k: int| 0 <= k < f.len() && #[trigger] f[k] == a;
                if at <= k < at + n {
                    assert(f[at + (k - at)] == start + (k - at) * 32768);
                    assert(false);
                }
                let i = if k < at { k } else { k - n };
                assert(g[i] == a);
            }
        }
    }
}

} // verus!
