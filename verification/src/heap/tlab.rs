//! Mutator bump regions: a private run of a block that one thread allocates
//! small objects through.

use vstd::prelude::*;

use crate::heap::layout::{round_line, ALLOC_QUANTUM, BLOCK_SIZE, LINE_SIZE, WORD};
use crate::heap::space::{apart, last_fit, lemma_last_fit, span_hi, span_lo, Space, Tlab};

verus! {

/// Largest object a mutator's bump region serves. At one line, nothing in the
/// region needs an entry in the line table.
pub const TLAB_MAX_OBJ: usize = 128;

impl Space {
    /// The memory, the free list, the runs and the locked region of `before`.
    pub open spec fn same_elsewhere(&self, before: &Space) -> bool {
        &&& self.free_blocks == before.free_blocks
        &&& self.recycle_spans == before.recycle_spans
        &&& self.allocation_point == before.allocation_point
        &&& self.current_block_end == before.current_block_end
        &&& self.reuse_due == before.reuse_due
    }

    /// Whether some mutator's region is `t`.
    pub open spec fn has_tlab(&self, t: Tlab) -> bool {
        exists|i: int| 0 <= i < self.tlabs.len() && #[trigger] self.tlabs[i] == t
    }

    /// Whether thread `thread` has a region.
    pub open spec fn has_region(&self, thread: u64) -> bool {
        exists|i: int| 0 <= i < self.tlabs.len() && (#[trigger] self.tlabs[i]).thread == thread
    }

    /// Take thread `thread`'s region out of the table.
    fn take_tlab(&mut self, thread: u64) -> (r: Option<Tlab>)
        requires
            old(self).wf(),
        ensures
            final(self).wf(),
            final(self).same_elsewhere(old(self)),
            final(self).tables == old(self).tables,
            final(self).memory == old(self).memory,
            match r {
                Some(t) => {
                    &&& t.thread == thread
                    &&& old(self).has_tlab(t)
                    &&& !final(self).has_region(thread)
                    &&& final(self).tlab_ok(t)
                    &&& final(self).tables.kept_in(t.block as int)
                    &&& final(self).open_region(t.cur as int, t.limit as int)
                    &&& forall|o: Tlab| #[trigger]
                        final(self).has_tlab(o) <==> old(self).has_tlab(o) && o.thread != thread
                },
                None => !old(self).has_region(thread) && *final(self) == *old(self),
            },
    {
        let mut i: usize = 0;
        while i < self.tlabs.len()
            invariant
                i <= self.tlabs.len(),
                *self == *old(self),
                old(self).wf(),
                forall|k: int| 0 <= k < i ==> (#[trigger] self.tlabs[k]).thread != thread,
            decreases self.tlabs.len() - i,
        {
            if self.tlabs[i].thread == thread {
                let t: Tlab = self.tlabs.remove(i);
                proof {
                    self.lemma_without(old(self), i as int);
                    assert(old(self).tlabs[i as int] == t);
                }
                return Some(t);
            }
            i = i + 1;
        }
        None
    }

    /// Taking a region out of the table leaves the rest, and opens it.
    proof fn lemma_without(&self, before: &Space, i: int)
        requires
            before.wf(),
            0 <= i < before.tlabs.len(),
            self.tlabs@ == before.tlabs@.remove(i),
            self.same_elsewhere(before),
            self.tables == before.tables,
            self.memory == before.memory,
        ensures
            self.wf(),
            !self.has_region(before.tlabs[i].thread),
            self.tlab_ok(before.tlabs[i]),
            self.tables.kept_in(before.tlabs[i].block as int),
            self.open_region(before.tlabs[i].cur as int, before.tlabs[i].limit as int),
            forall|o: Tlab| #[trigger]
                self.has_tlab(o) <==> before.has_tlab(o) && o.thread != before.tlabs[i].thread,
    {
        let t = before.tlabs[i];
        assert(before.tlab_ok(t));
        assert forall|k: int| 0 <= k < self.tlabs.len() implies #[trigger] self.tlabs[k]
            == before.tlabs[if k < i { k } else { k + 1 }] by {}
        assert forall|k: int| 0 <= k < self.tlabs.len() implies self.tlab_ok(
            #[trigger] self.tlabs[k],
        ) by {
            assert(before.tlab_ok(before.tlabs[if k < i { k } else { k + 1 }]));
        }
        assert forall|k: int| 0 <= k < self.recycle_spans.len() implies self.span_ok(
            #[trigger] self.recycle_spans[k],
        ) by {
            assert(before.span_ok(before.recycle_spans[k]));
        }
        assert(self.inv());
        assert(self.tlabs_sound());
        assert(self.spans_sound());
        assert(before.tables.vacant(t.cur as int, t.limit as int));
        assert forall|k: int| 0 <= k < self.tlabs.len() implies apart(
            t.cur as int,
            t.limit as int,
            (#[trigger] self.tlabs[k]).cur as int,
            self.tlabs[k].limit as int,
        ) by {
            let o = before.tlabs[if k < i { k } else { k + 1 }];
            assert(self.tlabs[k] == o);
        }
        assert forall|k: int| 0 <= k < self.recycle_spans.len() implies apart(
            t.cur as int,
            t.limit as int,
            span_lo(#[trigger] self.recycle_spans[k]),
            span_hi(self.recycle_spans[k]),
        ) by {
            assert(before.recycle_spans[k] == self.recycle_spans[k]);
            assert(apart(
                span_lo(before.recycle_spans[k]),
                span_hi(before.recycle_spans[k]),
                before.tlabs[i].cur as int,
                before.tlabs[i].limit as int,
            ));
        }
        assert forall|o: Tlab| #[trigger]
            self.has_tlab(o) <==> before.has_tlab(o) && o.thread != t.thread by {
            if self.has_tlab(o) {
                let k = choose|k: int| 0 <= k < self.tlabs.len() && #[trigger] self.tlabs[k] == o;
                assert(before.tlabs[if k < i { k } else { k + 1 }] == o);
            }
            if before.has_tlab(o) && o.thread != t.thread {
                let k = choose|k: int|
                    0 <= k < before.tlabs.len() && #[trigger] before.tlabs[k] == o;
                assert(k != i);
                assert(self.tlabs[if k < i { k } else { k - 1 }] == o);
            }
        }
    }

    /// Enter region `t`, which nothing uses, into the table.
    fn enter_tlab(&mut self, t: Tlab)
        requires
            old(self).wf(),
            !old(self).has_region(t.thread),
            old(self).tlab_ok(t),
            old(self).tables.kept_in(t.block as int),
            old(self).open_region(t.cur as int, t.limit as int),
        ensures
            final(self).wf(),
            final(self).same_elsewhere(old(self)),
            final(self).tables == old(self).tables,
            final(self).memory == old(self).memory,
            forall|o: Tlab| #[trigger]
                final(self).has_tlab(o) <==> old(self).has_tlab(o) || o == t,
    {
        self.tlabs.push(t);
        proof {
            let n = old(self).tlabs.len() as int;
            assert(self.tlabs[n] == t);
            assert forall|k: int| 0 <= k < n implies #[trigger] self.tlabs[k]
                == old(self).tlabs[k] by {}
            assert forall|k: int| 0 <= k < self.tlabs.len() implies self.tlab_ok(
                #[trigger] self.tlabs[k],
            ) by {
                if k < n {
                    assert(old(self).tlab_ok(old(self).tlabs[k]));
                }
            }
            assert forall|k: int| 0 <= k < self.recycle_spans.len() implies self.span_ok(
                #[trigger] self.recycle_spans[k],
            ) by {
                assert(old(self).span_ok(old(self).recycle_spans[k]));
            }
            assert(self.inv());
            assert(self.tlabs_sound());
            assert(self.spans_sound());
            assert forall|o: Tlab| #[trigger]
                self.has_tlab(o) <==> old(self).has_tlab(o) || o == t by {
                if old(self).has_tlab(o) {
                    let k = choose|k: int|
                        0 <= k < old(self).tlabs.len() && #[trigger] old(self).tlabs[k] == o;
                    assert(self.tlabs[k] == o);
                }
            }
        }
    }

    /// Give up thread `thread`'s region: what is left of it returns with the
    /// next sweep.
    pub fn release_tlab_region(&mut self, thread: u64)
        requires
            old(self).wf(),
        ensures
            final(self).wf(),
            final(self).same_elsewhere(old(self)),
            final(self).tables == old(self).tables,
            final(self).memory == old(self).memory,
            !final(self).has_region(thread),
            forall|o: Tlab| #[trigger]
                final(self).has_tlab(o) <==> old(self).has_tlab(o) && o.thread != thread,
    {
        let _given: Option<Tlab> = self.take_tlab(thread);
    }

    /// Record a small object at the front of an open region.
    #[verifier::rlimit(60)]
    #[verifier::spinoff_prover]
    fn open_object(&mut self, lo: usize, aligned: usize, hi: usize)
        requires
            old(self).wf(),
            old(self).region_ok(lo as int, hi as int),
            old(self).open_region(lo as int, hi as int),
            aligned % 16 == 0,
            0 < aligned <= 128,
            lo % 128 + aligned <= 128,
            lo + aligned <= hi,
        ensures
            final(self).wf(),
            final(self).same_elsewhere(old(self)),
            final(self).tlabs == old(self).tlabs,
            final(self).memory == old(self).memory,
            final(self).bumped(old(self), lo as int, aligned as int),
            final(self).open_region(lo + aligned, hi as int),
            final(self).region_ok(lo + aligned, hi as int),
            forall|block: int|
                block % 32768 == 0 && old(self).tables.kept_in(block)
                    ==> #[trigger] final(self).tables.kept_in(block),
    {
        let q: usize = lo / ALLOC_QUANTUM;
        self.tables.objects[q] = (aligned / ALLOC_QUANTUM) as u8;
        proof {
            let byte = (aligned as int / 16) as u8;
            assert(self.tables.added(&old(self).tables, q as int, byte, 0));
            assert(old(self).tables.vacant(lo as int, lo + aligned)) by {
                assert forall|p: int| #[trigger] old(self).tables.is_start(p) implies apart(
                    p * 16,
                    (p + old(self).tables.extent(p)) * 16,
                    lo as int,
                    lo + aligned,
                ) by {
                    assert(apart(
                        p * 16,
                        (p + old(self).tables.extent(p)) * 16,
                        lo as int,
                        hi as int,
                    ));
                }
            }
            self.tables.lemma_added(&old(self).tables, q as int, byte, 0);
            assert(self.tables.sound()) by {
                assert forall|l: int|
                    q as int / 8 <= l <= (q + self.tables.extent(q as int) - 1) / 8 implies (
                #[trigger] old(self).tables.blocks[l / 256]).used by {
                    assert(l / 256 == lo as int / 32768);
                }
            }
            self.lemma_bumped_wf(old(self), lo as int, aligned as int, hi as int);
        }
    }

    /// `self` is `before` with a raw, unclaimed object of `aligned` bytes at
    /// `point`, and no other change.
    pub open spec fn bumped(&self, before: &Space, point: int, aligned: int) -> bool {
        let q = point / 16;
        &&& point % 16 == 0
        &&& self.tables.is_start(q)
        &&& self.tables.extent(q) * 16 == aligned
        &&& self.tables.objects@ == before.tables.objects@.update(q, (aligned / 16) as u8)
        &&& self.tables.alloc_sizes@ == before.tables.alloc_sizes@
        &&& self.tables.blocks@ == before.tables.blocks@
        &&& forall|p: int|
            p != q ==> #[trigger] self.tables.is_start(p) == before.tables.is_start(p)
        &&& forall|p: int|
            p != q && #[trigger] self.tables.is_start(p) ==> self.tables.extent(p)
                == before.tables.extent(p) && self.tables.objects[p] == before.tables.objects[p]
    }

    proof fn lemma_bumped_wf(&self, before: &Space, lo: int, aligned: int, hi: int)
        requires
            before.wf(),
            before.region_ok(lo, hi),
            before.open_region(lo, hi),
            0 < aligned,
            aligned % 16 == 0,
            lo + aligned <= hi,
            self.bumped(before, lo, aligned),
            self.tables.inv(),
            self.tables.sound(),
            self.same_elsewhere(before),
            self.tlabs == before.tlabs,
            self.memory == before.memory,
        ensures
            self.wf(),
            self.open_region(lo + aligned, hi),
            self.region_ok(lo + aligned, hi),
            forall|block: int|
                block % 32768 == 0 && before.tables.kept_in(block)
                    ==> #[trigger] self.tables.kept_in(block),
    {
        let q0 = lo / 16;
        assert forall|block: int|
            block % 32768 == 0 && before.tables.kept_in(block) implies #[trigger]
        self.tables.kept_in(block) by {
            assert forall|q: int| #[trigger] self.tables.is_start(q) && q / 2048 == block
                / 32768 implies (q + self.tables.extent(q)) * 16 <= block + 32768 by {
                if q != q0 {
                    assert(before.tables.is_start(q));
                } else {
                    assert(self.tables.entry_ok(q));
                }
            }
        }
        assert forall|i: int| 0 <= i < self.recycle_spans.len() implies self.span_ok(
            #[trigger] self.recycle_spans[i],
        ) by {
            assert(before.span_ok(before.recycle_spans[i]));
        }
        assert forall|i: int| 0 <= i < self.tlabs.len() implies self.tlab_ok(
            #[trigger] self.tlabs[i],
        ) by {
            assert(before.tlab_ok(before.tlabs[i]));
        }
        assert(self.inv());
        assert forall|a: int, b: int|
            before.tables.vacant(a, b) && apart(lo, hi, a, b) implies #[trigger] self.tables.vacant(
            a,
            b,
        ) by {
            assert forall|q: int| #[trigger] self.tables.is_start(q) implies apart(
                q * 16,
                (q + self.tables.extent(q)) * 16,
                a,
                b,
            ) by {
                if q != q0 {
                    assert(before.tables.is_start(q));
                }
            }
        }
        assert forall|a: int, b: int|
            before.tables.enclosed(a, b) && apart(
                lo,
                hi,
                a,
                b,
            ) implies #[trigger] self.tables.enclosed(a, b) by {
            assert forall|q: int| #[trigger] self.tables.is_start(q) implies apart(
                q * 16,
                (q + self.tables.extent(q)) * 16,
                a,
                b,
            ) || (a <= q * 16 && (q + self.tables.extent(q)) * 16 <= b) by {
                if q != q0 {
                    assert(before.tables.is_start(q));
                }
            }
        }
        assert(self.sound());
        assert(self.tables.vacant(lo + aligned, hi)) by {
            assert forall|q: int| #[trigger] self.tables.is_start(q) implies apart(
                q * 16,
                (q + self.tables.extent(q)) * 16,
                lo + aligned,
                hi,
            ) by {
                if q != q0 {
                    assert(before.tables.is_start(q));
                }
            }
        }
    }

    /// Where thread `thread` would put the next object of `aligned` bytes, if
    /// its region has room.
    pub open spec fn tlab_point(t: Tlab, aligned: int) -> Option<int> {
        let p = Space::bump_point(t.cur as int, aligned);
        if p + aligned <= t.limit {
            Some(p)
        } else {
            None
        }
    }

    /// Bump thread `thread`'s region by an object of `aligned` bytes. `None`,
    /// and no change to any allocation, when the thread has no region or the
    /// region has no room.
    #[verifier::rlimit(60)]
    #[verifier::spinoff_prover]
    pub fn tlab_bump(&mut self, thread: u64, aligned: usize) -> (r: Option<usize>)
        requires
            old(self).wf(),
            aligned % 16 == 0,
            0 < aligned <= 128,
        ensures
            final(self).wf(),
            final(self).same_elsewhere(old(self)),
            final(self).memory == old(self).memory,
            match r {
                Some(point) => exists|t: Tlab| #[trigger]
                    old(self).has_tlab(t) && t.thread == thread && Space::tlab_point(
                        t,
                        aligned as int,
                    ) == Some(point as int) && final(self).bumped(
                        old(self),
                        point as int,
                        aligned as int,
                    ) && final(self).moved_tlab(old(self), t, (point + aligned) as usize),
                None => {
                    &&& final(self).tables == old(self).tables
                    &&& forall|o: Tlab| #[trigger]
                        final(self).has_tlab(o) <==> old(self).has_tlab(o)
                    &&& forall|t: Tlab| #[trigger]
                        old(self).has_tlab(t) && t.thread == thread ==> Space::tlab_point(
                            t,
                            aligned as int,
                        ) is None
                },
            },
    {
        match self.take_tlab(thread) {
            Some(t) => {
                let ghost mid = *self;
                proof {
                    assert forall|o: Tlab| #[trigger]
                        old(self).has_tlab(o) && o.thread == thread implies o == t by {
                        old(self).lemma_one_region(o, t);
                    }
                }
                let tail: usize = t.cur % LINE_SIZE;
                let p: usize = if tail + aligned > LINE_SIZE {
                    round_line(t.cur)
                } else {
                    t.cur
                };
                if p > t.limit || aligned > t.limit - p {
                    self.enter_tlab(t);
                    return None;
                }
                proof {
                    mid.lemma_suffix_open(t.cur as int, p as int, t.limit as int);
                    assert(aligned >= 128 ==> aligned == 128);
                }
                self.open_object(p, aligned, t.limit);
                let ghost put = *self;
                self.enter_tlab(Tlab { cur: p + aligned, ..t });
                proof {
                    assert(old(self).has_tlab(t));
                    assert(self.moved_tlab(old(self), t, (p + aligned) as usize)) by {
                        assert forall|o: Tlab| #[trigger]
                            self.has_tlab(o) <==> (old(self).has_tlab(o) && o.thread != t.thread)
                                || o == (Tlab { cur: (p + aligned) as usize, ..t }) by {
                            assert(put.has_tlab(o) == mid.has_tlab(o));
                        }
                    }
                }
                Some(p)
            },
            None => {
                proof {
                    assert forall|t: Tlab| #[trigger]
                        old(self).has_tlab(t) && t.thread == thread implies Space::tlab_point(
                        t,
                        aligned as int,
                    ) is None by {
                        let k = choose|k: int|
                            0 <= k < old(self).tlabs.len() && #[trigger] old(self).tlabs[k] == t;
                        assert(old(self).has_region(thread));
                    }
                }
                None
            },
        }
    }

    /// Region `t` moved its cursor to `cur`; the others are as they were.
    pub open spec fn moved_tlab(&self, before: &Space, t: Tlab, cur: usize) -> bool {
        forall|o: Tlab| #[trigger]
            self.has_tlab(o) <==> (before.has_tlab(o) && o.thread != t.thread) || o == (Tlab {
                cur,
                ..t
            })
    }

    /// A thread has one region.
    pub proof fn lemma_one_region(&self, a: Tlab, b: Tlab)
        requires
            self.inv(),
            self.has_tlab(a),
            self.has_tlab(b),
            a.thread == b.thread,
        ensures
            a == b,
    {
        let i = choose|i: int| 0 <= i < self.tlabs.len() && #[trigger] self.tlabs[i] == a;
        let j = choose|j: int| 0 <= j < self.tlabs.len() && #[trigger] self.tlabs[j] == b;
        if i < j {
            assert(self.tlabs[i].thread != self.tlabs[j].thread);
        } else if j < i {
            assert(self.tlabs[j].thread != self.tlabs[i].thread);
        }
    }

    /// The end of an open region is open.
    proof fn lemma_suffix_open(&self, lo: int, mid: int, hi: int)
        requires
            self.open_region(lo, hi),
            self.region_ok(lo, hi),
            lo <= mid < hi,
            mid % 16 == 0,
        ensures
            self.open_region(mid, hi),
            self.region_ok(mid, hi),
    {
        assert(self.tables.vacant(mid, hi)) by {
            assert forall|q: int| #[trigger] self.tables.is_start(q) implies apart(
                q * 16,
                (q + self.tables.extent(q)) * 16,
                mid,
                hi,
            ) by {
                assert(apart(q * 16, (q + self.tables.extent(q)) * 16, lo, hi));
            }
        }
        assert(self.region_apart(mid, hi)) by {
            assert forall|i: int| 0 <= i < self.tlabs.len() implies apart(
                mid,
                hi,
                (#[trigger] self.tlabs[i]).cur as int,
                self.tlabs[i].limit as int,
            ) by {
                assert(apart(lo, hi, self.tlabs[i].cur as int, self.tlabs[i].limit as int));
            }
            assert forall|i: int| 0 <= i < self.recycle_spans.len() implies apart(
                mid,
                hi,
                span_lo(#[trigger] self.recycle_spans[i]),
                span_hi(self.recycle_spans[i]),
            ) by {
                assert(apart(
                    lo,
                    hi,
                    span_lo(self.recycle_spans[i]),
                    span_hi(self.recycle_spans[i]),
                ));
            }
        }
    }

    /// `self` is `before` with thread `thread` bumping through the fresh
    /// region `lo..hi` of block `block`, which holds one raw, unclaimed object
    /// of `aligned` bytes at its front and is zeroed throughout.
    pub open spec fn refilled(
        &self,
        before: &Space,
        thread: u64,
        block: usize,
        lo: usize,
        hi: usize,
        aligned: usize,
    ) -> bool {
        let q = lo as int / 16;
        &&& self.tables.is_start(q)
        &&& self.tables.extent(q) * 16 == aligned
        &&& self.tables.objects[q] == (aligned / 16) as u8
        &&& forall|p: int|
            p != q ==> #[trigger] self.tables.is_start(p) == (before.tables.is_start(p) && !(lo <= p
                * 16 < hi))
        &&& forall|p: int|
            p != q && #[trigger] self.tables.is_start(p) ==> self.tables.extent(p)
                == before.tables.extent(p) && self.tables.objects[p] == before.tables.objects[p]
        &&& self.zeroed(before, lo as int, hi - lo)
        &&& self.no_new_marks(before)
        &&& forall|o: Tlab| #[trigger]
            self.has_tlab(o) <==> (before.has_tlab(o) && o.thread != thread) || o == (Tlab {
                thread,
                block,
                cur: (lo + aligned) as usize,
                limit: hi,
            })
    }

    /// Give thread `thread` a fresh region and allocate `aligned` bytes at its
    /// front: the last run of recycled lines long enough, else the last free
    /// block. Runs too short are dropped. `None` when there is no block.
    #[verifier::rlimit(60)]
    #[verifier::spinoff_prover]
    pub fn tlab_refill(&mut self, thread: u64, aligned: usize, recycle: bool) -> (r: Option<
        (usize, usize),
    >)
        requires
            old(self).wf(),
            aligned % 16 == 0,
            0 < aligned <= 128,
        ensures
            final(self).wf(),
            final(self).allocation_point == old(self).allocation_point,
            final(self).current_block_end == old(self).current_block_end,
            final(self).memory.base == old(self).memory.base,
            match r {
                Some((lo, hi)) => {
                    let at = last_fit(old(self).recycle_spans@, 1);
                    if recycle && at >= 0 {
                        let s = old(self).recycle_spans[at];
                        &&& lo == span_lo(s)
                        &&& hi == span_hi(s)
                        &&& final(self).refilled(
                            old(self),
                            thread,
                            s.0,
                            lo,
                            hi,
                            aligned,
                        )
                        &&& final(self).free_blocks@ == old(self).free_blocks@
                        &&& final(self).recycle_spans@ == old(self).recycle_spans@.take(at)
                        &&& final(self).same_marks(old(self))
                        &&& final(self).reuse_due@ == old(self).reuse_due@
                    } else {
                        &&& old(self).free_blocks.len() > 0
                        &&& lo == old(self).free_blocks[old(self).free_blocks.len() - 1]
                        &&& hi == lo + 32768
                        &&& final(self).refilled(old(self), thread, lo, lo, hi, aligned)
                        &&& final(self).free_blocks@ == old(self).free_blocks@.drop_last()
                        &&& recycle ==> final(self).recycle_spans@.len() == 0
                        &&& !recycle ==> final(self).recycle_spans@ == old(self).recycle_spans@
                        &&& final(self).takes_blocks(old(self), lo as int, hi as int)
                        &&& final(self).reuse_due@ == old(self).reuse_due_with(lo as int)
                    }
                },
                None => {
                    &&& old(self).free_blocks.len() == 0
                    &&& recycle ==> last_fit(old(self).recycle_spans@, 1) < 0
                    &&& final(self).tables == old(self).tables
                    &&& final(self).memory == old(self).memory
                    &&& final(self).free_blocks.len() == 0
                    &&& final(self).tlabs@ == old(self).tlabs@
                    &&& final(self).reuse_due@ == old(self).reuse_due@
                    &&& recycle ==> final(self).recycle_spans@.len() == 0
                    &&& !recycle ==> final(self).recycle_spans@ == old(self).recycle_spans@
                },
            },
    {
        if recycle {
            let ghost at = last_fit(self.recycle_spans@, 1);
            proof {
                lemma_last_fit(self.recycle_spans@, 1);
                if at >= 0 {
                    assert(self.span_ok(self.recycle_spans[at]));
                }
            }
            match self.take_recycled_span(1) {
                Some((lo, hi)) => {
                    let ghost mid = *self;
                    let block: usize = lo / BLOCK_SIZE * BLOCK_SIZE;
                    self.adopt_tlab_region(thread, block, lo, hi, aligned);
                    proof {
                        assert(block == old(self).recycle_spans[at].0);
                        self.lemma_refilled(old(self), &mid, thread, block, lo, hi, aligned);
                    }
                    return Some((lo, hi));
                },
                None => {},
            }
        }
        let ghost kept = *self;
        match self.acquire_free_block() {
            Some(block) => {
                let ghost mid = *self;
                self.adopt_tlab_region(thread, block, block, block + BLOCK_SIZE, aligned);
                proof {
                    assert(kept.tables == old(self).tables);
                    assert(mid.takes_blocks(old(self), block as int, block + 32768));
                    self.lemma_takes_chain(&mid, old(self), block as int, block + 32768);
                    self.lemma_refilled(
                        old(self),
                        &mid,
                        thread,
                        block,
                        block,
                        (block + 32768) as usize,
                        aligned,
                    );
                }
                Some((block, block + BLOCK_SIZE))
            },
            None => None,
        }
    }

    proof fn lemma_refilled(
        &self,
        before: &Space,
        mid: &Space,
        thread: u64,
        block: usize,
        lo: usize,
        hi: usize,
        aligned: usize,
    )
        requires
            self.refilled(mid, thread, block, lo, hi, aligned),
            mid.memory == before.memory,
            mid.tlabs@ == before.tlabs@,
            mid.no_new_marks(before),
            forall|q: int| #[trigger]
                mid.tables.is_start(q) ==> before.tables.is_start(q) && !(lo <= q * 16 < hi),
            forall|q: int|
                before.tables.is_start(q) && !(lo <= q * 16 < hi) ==> #[trigger] mid.tables.is_start(
                    q,
                ),
            forall|q: int| #[trigger]
                mid.tables.is_start(q) ==> mid.tables.extent(q) == before.tables.extent(q)
                    && mid.tables.objects[q] == before.tables.objects[q],
        ensures
            self.refilled(before, thread, block, lo, hi, aligned),
    {
        let q = lo as int / 16;
        self.lemma_marks_chain(mid, before);
        assert forall|p: int| p != q implies #[trigger] self.tables.is_start(p) == (
        before.tables.is_start(p) && !(lo <= p * 16 < hi)) by {
            assert(self.tables.is_start(p) == (mid.tables.is_start(p) && !(lo <= p * 16 < hi)));
        }
        assert forall|p: int| p != q && #[trigger] self.tables.is_start(
            p,
        ) implies self.tables.extent(p) == before.tables.extent(p) && self.tables.objects[p]
            == before.tables.objects[p] by {
            assert(mid.tables.is_start(p));
        }
        assert forall|o: Tlab| #[trigger] mid.has_tlab(o) == before.has_tlab(o) by {
            if mid.has_tlab(o) {
                let k = choose|k: int| 0 <= k < mid.tlabs.len() && #[trigger] mid.tlabs[k] == o;
                assert(mid.tlabs@[k] == before.tlabs@[k]);
                assert(before.tlabs[k] == o);
            }
            if before.has_tlab(o) {
                let k = choose|k: int| 0 <= k < before.tlabs.len() && #[trigger] before.tlabs[k] == o;
                assert(mid.tlabs@[k] == before.tlabs@[k]);
                assert(mid.tlabs[k] == o);
            }
        }
        assert forall|o: Tlab| #[trigger]
            self.has_tlab(o) <==> (before.has_tlab(o) && o.thread != thread) || o == (Tlab {
                thread,
                block,
                cur: (lo + aligned) as usize,
                limit: hi,
            }) by {
            assert(mid.has_tlab(o) == before.has_tlab(o));
        }
    }

    /// Make the open region `lo..hi` of `block` thread `thread`'s own, in
    /// place of the one it had, zeroed and with an object at its front.
    #[verifier::rlimit(60)]
    #[verifier::spinoff_prover]
    fn adopt_tlab_region(
        &mut self,
        thread: u64,
        block: usize,
        lo: usize,
        hi: usize,
        aligned: usize,
    )
        requires
            old(self).wf(),
            old(self).region_ok(lo as int, hi as int),
            old(self).open_region(lo as int, hi as int),
            aligned % 16 == 0,
            0 < aligned <= 128,
            lo % 128 == 0,
            lo + 128 <= hi,
            block % 32768 == 0,
            block as int / 32768 < old(self).tables.blocks.len(),
            block <= lo,
            hi <= block + 32768,
        ensures
            final(self).wf(),
            final(self).same_elsewhere(old(self)),
            final(self).refilled(old(self), thread, block, lo, hi, aligned),
            final(self).same_marks(old(self)),
    {
        let _previous: Option<Tlab> = self.take_tlab(thread);
        let ghost mid = *self;
        proof {
            assert(mid.region_apart(lo as int, hi as int)) by {
                assert forall|i: int| 0 <= i < mid.tlabs.len() implies apart(
                    lo as int,
                    hi as int,
                    (#[trigger] mid.tlabs[i]).cur as int,
                    mid.tlabs[i].limit as int,
                ) by {
                    let t = mid.tlabs[i];
                    assert(mid.has_tlab(t));
                    assert(old(self).has_tlab(t));
                    let k = choose|k: int|
                        0 <= k < old(self).tlabs.len() && #[trigger] old(self).tlabs[k] == t;
                }
            }
            assert(!mid.has_region(thread));
            mid.lemma_kept_in(lo as int, hi as int, block as int);
        }
        self.memory.fill(lo / WORD, (hi - lo) / WORD, 0);
        let ghost blank = *self;
        proof {
            blank.lemma_only_memory(&mid);
            assert(blank.open_region(lo as int, hi as int));
        }
        self.open_object(lo, aligned, hi);
        let ghost put = *self;
        let t = Tlab { thread, block, cur: lo + aligned, limit: hi };
        self.enter_tlab(t);
        proof {
            assert forall|o: Tlab| #[trigger]
                self.has_tlab(o) <==> (old(self).has_tlab(o) && o.thread != thread) || o == t by {
                assert(put.has_tlab(o) == mid.has_tlab(o));
            }
            assert(self.tables.objects[lo as int / 16] == (aligned as int / 16) as u8);
            assert forall|p: int| p != lo as int / 16 implies #[trigger] self.tables.is_start(p)
                == (old(self).tables.is_start(p) && !(lo <= p * 16 < hi)) by {
                if old(self).tables.is_start(p) {
                    assert(old(self).tables.entry_ok(p));
                    assert(apart(
                        p * 16,
                        (p + old(self).tables.extent(p)) * 16,
                        lo as int,
                        hi as int,
                    ));
                }
                assert(put.tables.is_start(p) == blank.tables.is_start(p));
            }
        }
    }

    /// A block with an open run in it keeps its allocations.
    proof fn lemma_kept_in(&self, lo: int, hi: int, block: int)
        requires
            self.wf(),
            self.tables.vacant(lo, hi),
            block % 32768 == 0,
            block <= lo < hi <= block + 32768,
        ensures
            self.tables.kept_in(block),
    {
        assert forall|q: int| #[trigger] self.tables.is_start(q) && q / 2048 == block
            / 32768 implies (q + self.tables.extent(q)) * 16 <= block + 32768 by {
            assert(self.tables.entry_ok(q));
            assert(apart(q * 16, (q + self.tables.extent(q)) * 16, lo, hi));
            if q % 2048 != 0 {
                assert(q / 2048 == (q + self.tables.extent(q) - 1) / 2048);
            }
        }
    }

    /// The order of the space does not depend on what its words hold.
    pub proof fn lemma_only_memory(&self, before: &Space)
        requires
            before.wf(),
            self.tables == before.tables,
            self.same_elsewhere(before),
            self.tlabs == before.tlabs,
            self.memory.inv(),
            self.memory.base == before.memory.base,
            self.memory.words.len() == before.memory.words.len(),
        ensures
            self.wf(),
    {
        assert forall|i: int| 0 <= i < self.recycle_spans.len() implies self.span_ok(
            #[trigger] self.recycle_spans[i],
        ) by {
            assert(before.span_ok(before.recycle_spans[i]));
        }
        assert forall|i: int| 0 <= i < self.tlabs.len() implies self.tlab_ok(
            #[trigger] self.tlabs[i],
        ) by {
            assert(before.tlab_ok(before.tlabs[i]));
        }
    }
}

} // verus!
