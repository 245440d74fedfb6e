//! Claims from outside a collection: a runtime that keeps its own collector
//! over this heap marks its objects with the same claim the marker uses, then
//! forgets what it did not claim and ends with a collection here.

use vstd::prelude::*;

use crate::heap::immix::ImmixAllocator;
use crate::heap::layout::{
    lemma_claim_bit, lemma_plain_code, ALLOC_QUANTUM, BLOCK_SIZE, LINE_SIZE, OBJECT_MARK,
    OBJECT_SIZE_MASK, SPAN_OBJECT,
};
use crate::heap::space::Space;
use crate::heap::tables::Tables;

verus! {

impl Space {
    /// Claims change no allocation and no region.
    pub proof fn lemma_claims_wf(&self, before: &Space)
        requires
            before.wf(),
            self.tables.same_starts(&before.tables),
            self.memory == before.memory,
            self.free_blocks == before.free_blocks,
            self.recycle_spans == before.recycle_spans,
            self.tlabs == before.tlabs,
            self.allocation_point == before.allocation_point,
            self.current_block_end == before.current_block_end,
        ensures
            self.wf(),
    {
        self.tables.lemma_same_starts(&before.tables);
        assert forall|q: int| #[trigger] self.tables.is_start(q) implies before.tables.is_start(q)
            && self.tables.extent(q) == before.tables.extent(q) by {
            assert(before.tables.is_start(q));
            assert(self.tables.extent(q) == before.tables.extent(q));
        }
        self.lemma_thinned_regions(before);
        assert forall|b: int| 0 <= b < self.tables.blocks.len() implies (
        #[trigger] self.tables.blocks[b]).used == before.tables.blocks[b].used by {
            assert(self.tables.blocks[b].same_flags(&before.tables.blocks[b]));
        }
        assert forall|i: int| 0 <= i < self.recycle_spans.len() implies self.span_ok(
            #[trigger] self.recycle_spans[i],
        ) by {
            assert(before.span_ok(before.recycle_spans[i]));
        }
        assert forall|i: int| 0 <= i < self.tlabs.len() implies self.tlab_ok(
            #[trigger] self.tlabs[i],
        ) by {
            assert(before.tlab_ok(before.tlabs[i]));
        }
        assert(self.free_ok());
    }
}

impl ImmixAllocator {
    /// Whether `addr` lies in the allocation starting at quantum `q`.
    pub open spec fn addr_in(&self, addr: int, q: int) -> bool {
        self.space.memory.contains(addr) && self.space.tables.holds(
            q,
            addr - self.space.memory.base,
        )
    }

    /// The allocation containing `addr` as `(start, size)`, interior addresses
    /// included. `None` outside the heap, in free space, or in a forgotten
    /// allocation.
    pub fn allocation_containing(&self, addr: usize) -> (r: Option<(usize, usize)>)
        requires
            self.legible(),
        ensures
            match r {
                Some((start, size)) => {
                    let q = (start - self.space.memory.base) / 16;
                    &&& start >= self.space.memory.base
                    &&& (start - self.space.memory.base) % 16 == 0
                    &&& self.addr_in(addr as int, q)
                    &&& size == self.space.tables.extent(q) * 16
                },
                None => forall|q: int| !#[trigger] self.addr_in(addr as int, q),
            },
    {
        match self.space.memory.offset_of(addr) {
            Some(offset) => match self.space.tables.allocation_at(offset) {
                Some((start, size)) => {
                    let at: usize = self.space.memory.base + start;
                    assert((at - self.space.memory.base) / 16 == start as int / 16);
                    Some((at, size))
                },
                None => {
                    proof {
                        assert forall|q: int| !#[trigger] self.addr_in(addr as int, q) by {
                            assert(!self.space.tables.holds(q, offset as int));
                        }
                    }
                    None
                },
            },
            None => None,
        }
    }

    /// Nothing but the side tables, where the claims stand, differs from
    /// `before`.
    pub open spec fn only_claims(&self, before: &ImmixAllocator) -> bool {
        *self == (ImmixAllocator {
            space: Space { tables: self.space.tables, ..before.space },
            ..*before
        })
    }

    /// Claim the allocation containing `addr` for the open cycle exactly as
    /// the marker would; true for the claimer. The claim stands until the next
    /// sweep clears it.
    #[verifier::rlimit(60)]
    #[verifier::spinoff_prover]
    pub fn claim_for_cycle(&mut self, addr: usize) -> (won: bool)
        requires
            old(self).wf(),
        ensures
            final(self).wf(),
            final(self).only_claims(old(self)),
            won <==> exists|q: int| #[trigger]
                old(self).addr_in(addr as int, q) && !old(self).space.tables.claimed(q),
            !won ==> final(self).space.tables == old(self).space.tables,
            won ==> forall|q: int| #[trigger]
                old(self).addr_in(addr as int, q) ==> final(self).space.tables.claims_one(
                    &old(self).space.tables,
                    q,
                ),
            old(self).claims_ok() ==> final(self).claims_ok(),
    {
        match self.space.memory.offset_of(addr) {
            Some(offset) => {
                match self.space.tables.claim_allocation(offset) {
                    Some((start, _)) => {
                        let ghost q0 = start as int / 16;
                        proof {
                            assert(old(self).addr_in(addr as int, q0));
                            assert forall|q: int| #[trigger] old(self).addr_in(
                                addr as int,
                                q,
                            ) implies q == q0 by {
                                old(self).space.tables.lemma_unique(q, q0, offset as int);
                            }
                            self.space.tables.lemma_claims_one(&old(self).space.tables, q0);
                            self.space.lemma_claims_wf(&old(self).space);
                        }
                        true
                    },
                    None => {
                        proof {
                            assert forall|q: int| #[trigger] old(self).addr_in(
                                addr as int,
                                q,
                            ) implies old(self).space.tables.claimed(q) by {
                                assert(old(self).space.tables.holds(q, offset as int));
                            }
                        }
                        false
                    },
                }
            },
            None => false,
        }
    }

    /// [`Self::claim_for_cycle`] for a host that knows an allocation starts at
    /// `addr`: a standing claim stands. The allocation's size, `None` when
    /// nothing starts there.
    #[verifier::rlimit(60)]
    #[verifier::spinoff_prover]
    pub fn claim_start(&mut self, addr: usize) -> (r: Option<usize>)
        requires
            old(self).wf(),
            addr % 16 == 0,
            old(self).space.memory.base % 16 == 0,
        ensures
            final(self).wf(),
            final(self).only_claims(old(self)),
            match r {
                Some(size) => {
                    let q = (addr - old(self).space.memory.base) / 16;
                    &&& old(self).space.memory.contains(addr as int)
                    &&& old(self).space.tables.is_start(q)
                    &&& size == old(self).space.tables.extent(q) * 16
                    &&& old(self).space.tables.claimed(q) ==> final(self).space.tables == old(
                        self,
                    ).space.tables
                    &&& !old(self).space.tables.claimed(q) ==> final(self).space.tables.claims_one(
                        &old(self).space.tables,
                        q,
                    )
                },
                None => {
                    &&& final(self).space.tables == old(self).space.tables
                    &&& old(self).space.memory.contains(addr as int) ==> !old(
                        self,
                    ).space.tables.is_start((addr - old(self).space.memory.base) / 16)
                },
            },
            old(self).claims_ok() ==> final(self).claims_ok(),
    {
        let offset: usize = match self.space.memory.offset_of(addr) {
            Some(o) => o,
            None => {
                return None;
            },
        };
        let q: usize = offset / ALLOC_QUANTUM;
        let code: u8 = self.space.tables.objects[q] & OBJECT_SIZE_MASK;
        if code == 0 {
            return None;
        }
        proof {
            assert(self.space.tables.entry_ok(q as int));
            assert(self.space.tables.is_start(q as int));
        }
        let size: usize = if code == SPAN_OBJECT {
            self.space.tables.alloc_sizes[offset / LINE_SIZE] as usize * LINE_SIZE
        } else {
            code as usize * ALLOC_QUANTUM
        };
        let won: bool = self.space.tables.claim_serial(offset, size);
        proof {
            if won {
                self.space.tables.lemma_claims_one(&old(self).space.tables, q as int);
                self.space.lemma_claims_wf(&old(self).space);
            }
        }
        Some(size)
    }

    /// Whether the allocation containing `addr` is claimed in the open cycle.
    pub fn is_claimed(&self, addr: usize) -> (r: bool)
        requires
            self.legible(),
        ensures
            r <==> exists|q: int| #[trigger]
                self.addr_in(addr as int, q) && self.space.tables.claimed(q),
    {
        match self.space.memory.offset_of(addr) {
            Some(offset) => match self.space.tables.allocation_at(offset) {
                Some((start, _)) => {
                    let q: usize = start / ALLOC_QUANTUM;
                    proof {
                        assert(self.addr_in(addr as int, q as int));
                        assert forall|p: int| #[trigger] self.addr_in(
                            addr as int,
                            p,
                        ) implies p == q by {
                            self.space.tables.lemma_unique(p, q as int, offset as int);
                        }
                    }
                    self.space.tables.objects[q] & OBJECT_MARK != 0
                },
                None => {
                    proof {
                        assert forall|q: int| !#[trigger] self.addr_in(addr as int, q) by {
                            assert(!self.space.tables.holds(q, offset as int));
                        }
                    }
                    false
                },
            },
            None => false,
        }
    }

    /// Withdraw the claim on the allocation containing `addr`. Its lines stay
    /// claimed until the sweep: a stale line claim only retains.
    pub fn unclaim(&mut self, addr: usize)
        requires
            old(self).wf(),
        ensures
            final(self).wf(),
            final(self).only_claims(old(self)),
            final(self).space.tables.same_starts(&old(self).space.tables),
            final(self).space.tables.blocks == old(self).space.tables.blocks,
            forall|q: int| #[trigger]
                final(self).space.tables.claimed(q) <==> old(self).space.tables.claimed(q)
                    && !old(self).addr_in(addr as int, q),
            old(self).claims_ok() ==> final(self).claims_ok(),
    {
        if let Some(offset) = self.space.memory.offset_of(addr) {
            match self.space.tables.allocation_at(offset) {
                Some((start, _)) => {
                    let q: usize = start / ALLOC_QUANTUM;
                    let byte: u8 = self.space.tables.objects[q];
                    self.space.tables.objects[q] = byte & !OBJECT_MARK;
                    proof {
                        let t = self.space.tables;
                        let u = old(self).space.tables;
                        lemma_claim_bit(byte);
                        assert(t.same_starts(&u));
                        t.lemma_same_starts(&u);
                        self.space.lemma_claims_wf(&old(self).space);
                        assert forall|p: int| #[trigger] t.claimed(p) <==> u.claimed(p) && !old(
                            self,
                        ).addr_in(addr as int, p) by {
                            assert(t.is_start(p) == u.is_start(p));
                            if p != q {
                                if old(self).addr_in(addr as int, p) {
                                    u.lemma_unique(p, q as int, offset as int);
                                }
                                if t.is_start(p) {
                                    assert(t.objects[p] == u.objects[p]);
                                }
                            }
                        }
                        if old(self).claims_ok() {
                            assert forall|p: int, l: int|
                                #![trigger t.on_line(p, l)]
                                t.claimed(p) && t.on_line(p, l) implies t.marked_line(l) by {
                                assert(u.on_line(p, l));
                                assert(u.claimed(p));
                            }
                            assert forall|p: int, l: int| #[trigger]
                                t.on_line(p, l) implies t.marked_line(l) == t.marked_line(p / 8) by {
                                assert(u.on_line(p, l));
                            }
                        }
                    }
                },
                None => {
                    proof {
                        assert forall|q: int| !#[trigger] old(self).addr_in(addr as int, q) by {
                            assert(!old(self).space.tables.holds(q, offset as int));
                        }
                    }
                },
            }
        }
    }

    /// Forget the allocation that starts at `addr`: no lookup resolves into
    /// it, no cycle traces or drops it, and its lines return with the next
    /// sweep. The bytes are left as they are.
    #[verifier::rlimit(60)]
    #[verifier::spinoff_prover]
    pub fn forget_allocation(&mut self, addr: usize)
        requires
            old(self).wf(),
            (addr - old(self).space.memory.base) % 16 == 0,
            old(self).space.memory.contains(addr as int) ==> old(self).space.tables.is_start(
                (addr - old(self).space.memory.base) / 16,
            ),
        ensures
            final(self).wf(),
            final(self).only_claims(old(self)),
            final(self).space.tables.blocks == old(self).space.tables.blocks,
            !old(self).space.memory.contains(addr as int) ==> final(self).space.tables == old(
                self,
            ).space.tables,
            old(self).space.memory.contains(addr as int) ==> {
                let q0 = (addr - old(self).space.memory.base) / 16;
                &&& forall|q: int| #[trigger]
                    final(self).space.tables.is_start(q) <==> old(self).space.tables.is_start(q)
                        && q != q0
                &&& forall|q: int| #[trigger]
                    final(self).space.tables.is_start(q) ==> final(self).space.tables.extent(q)
                        == old(self).space.tables.extent(q) && final(self).space.tables.objects[q]
                        == old(self).space.tables.objects[q]
            },
            old(self).claims_ok() ==> final(self).claims_ok(),
    {
        let offset: usize = match self.space.memory.offset_of(addr) {
            Some(o) => o,
            None => {
                return ;
            },
        };
        let q: usize = offset / ALLOC_QUANTUM;
        proof {
            assert(self.space.tables.entry_ok(q as int));
        }
        let code: u8 = self.space.tables.objects[q] & OBJECT_SIZE_MASK;
        if code == SPAN_OBJECT {
            self.space.tables.alloc_sizes[offset / LINE_SIZE] = 0;
        }
        self.space.tables.objects[q] = 0;
        proof {
            self.lemma_forgot(old(self), q as int);
        }
    }

    proof fn lemma_forgot(&self, before: &ImmixAllocator, q0: int)
        requires
            before.wf(),
            before.space.tables.is_start(q0),
            self.only_claims(before),
            self.space.tables.blocks == before.space.tables.blocks,
            self.space.tables.objects@ == before.space.tables.objects@.update(q0, 0),
            self.space.tables.alloc_sizes@ == if before.space.tables.code(q0) == 9 {
                before.space.tables.alloc_sizes@.update(q0 / 8, 0)
            } else {
                before.space.tables.alloc_sizes@
            },
        ensures
            self.wf(),
            forall|q: int| #[trigger]
                self.space.tables.is_start(q) <==> before.space.tables.is_start(q) && q != q0,
            forall|q: int| #[trigger]
                self.space.tables.is_start(q) ==> self.space.tables.extent(q)
                    == before.space.tables.extent(q) && self.space.tables.objects[q]
                    == before.space.tables.objects[q],
            before.claims_ok() ==> self.claims_ok(),
    {
        let t = self.space.tables;
        let u = before.space.tables;
        lemma_plain_code(0);
        assert(u.entry_ok(q0));
        assert forall|q: int| #[trigger] t.is_start(q) <==> u.is_start(q) && q != q0 by {
            if 0 <= q < t.objects.len() && q != q0 {
                assert(t.objects[q] == u.objects[q]);
            }
        }
        assert forall|q: int| #[trigger] t.is_start(q) && t.code(q) == 9 implies t.alloc_sizes[q
            / 8] == u.alloc_sizes[q / 8] by {
            assert(u.is_start(q));
            assert(u.entry_ok(q));
            assert(t.objects[q] == u.objects[q]);
        }
        t.lemma_thinned(&u);
        assert forall|q: int, l: int| #[trigger] t.on_line(q, l) implies t.blocks[l / 256].used && (
        t.code(q) == 9 ==> t.blocks[l / 256].has_span) by {
            assert(u.is_start(q));
            assert(u.on_line(q, l));
        }
        self.space.lemma_thinned_regions(&before.space);
        assert forall|i: int| 0 <= i < self.space.recycle_spans.len() implies self.space.span_ok(
            #[trigger] self.space.recycle_spans[i],
        ) by {
            assert(before.space.span_ok(before.space.recycle_spans[i]));
        }
        assert forall|i: int| 0 <= i < self.space.tlabs.len() implies self.space.tlab_ok(
            #[trigger] self.space.tlabs[i],
        ) by {
            assert(before.space.tlab_ok(before.space.tlabs[i]));
        }
        if before.claims_ok() {
            assert forall|p: int, l: int|
                #![trigger t.on_line(p, l)]
                t.claimed(p) && t.on_line(p, l) implies t.marked_line(l) by {
                assert(u.is_start(p));
                assert(u.on_line(p, l));
                assert(t.objects[p] == u.objects[p]);
                assert(u.claimed(p));
            }
            assert forall|p: int, l: int| #[trigger] t.on_line(p, l) implies t.marked_line(l)
                == t.marked_line(p / 8) by {
                assert(u.is_start(p));
                assert(u.on_line(p, l));
            }
        }
    }

    /// Claim the lines that `size` bytes from `addr` touch every 128 bytes, and
    /// no object. Nothing for an address outside the heap.
    #[verifier::spinoff_prover]
    #[verifier::rlimit(50)]
    pub fn mark_memory(&mut self, addr: usize, size: usize)
        requires
            old(self).wf(),
            addr + size + 128 <= usize::MAX,
        ensures
            final(self).wf(),
            final(self).only_claims(old(self)),
            final(self).space.tables.objects@ == old(self).space.tables.objects@,
            final(self).space.tables.same_starts(&old(self).space.tables),
            !old(self).space.memory.contains(addr as int) ==> final(self).space.tables == old(
                self,
            ).space.tables,
            forall|l: int|
                0 <= l < old(self).space.tables.alloc_sizes.len() ==> #[trigger] final(
                    self).space.tables.marked_line(l) == (old(self).space.tables.marked_line(l)
                    || (old(self).space.memory.contains(addr as int) && exists|k: int|
                    0 <= k && k * 128 < size && #[trigger] old(self).touched_line(
                        addr as int,
                        k,
                    ) == l && old(self).space.memory.contains(addr + k * 128))),
    {
        if self.space.memory.offset_of(addr).is_none() {
            return ;
        }
        let heap_end: usize = self.space.memory.end();
        let end_addr: usize = if addr + size < heap_end {
            addr + size
        } else {
            heap_end
        };
        let mut current: usize = addr;
        let ghost mut k: int = 0;
        while current < end_addr
            invariant
                old(self).wf(),
                old(self).space.memory.contains(addr as int),
                addr + size + 128 <= usize::MAX,
                heap_end == old(self).space.memory.base + old(self).space.memory.size(),
                end_addr == if addr + size < heap_end {
                    (addr + size) as int
                } else {
                    heap_end as int
                },
                0 <= k,
                current == addr + k * 128,
                k > 0 ==> addr + (k - 1) * 128 < end_addr,
                self.only_claims(old(self)),
                self.space.tables.objects@ == old(self).space.tables.objects@,
                self.space.tables.same_starts(&old(self).space.tables),
                forall|l: int|
                    0 <= l < old(self).space.tables.alloc_sizes.len()
                        ==> #[trigger] self.space.tables.marked_line(l) == (old(
                        self,
                    ).space.tables.marked_line(l) || exists|j: int|
                        0 <= j < k && #[trigger] old(self).touched_line(addr as int, j) == l),
            decreases end_addr + 128 - current,
        {
            let offset: usize = current - self.space.memory.base;
            let b: usize = offset / BLOCK_SIZE;
            let line: usize = offset % BLOCK_SIZE / LINE_SIZE;
            let ghost before = self.space.tables;
            proof {
                assert(self.space.tables.blocks.len() == old(self).space.tables.blocks.len());
            }
            self.space.tables.blocks[b].set_mark(line);
            let ghost mid = self.space.tables.blocks[b as int];
            self.space.tables.blocks[b].any_marked = true;
            proof {
                self.space.tables.blocks[b as int].lemma_same_bits(&mid);
                let here = offset as int / 128;
                assert(old(self).touched_line(addr as int, k) == here);
                assert(here / 256 == b && here % 256 == line);
                assert forall|l: int|
                    0 <= l < old(self).space.tables.alloc_sizes.len() implies #[trigger]
                self.space.tables.marked_line(l) == (old(self).space.tables.marked_line(l)
                    || exists|j: int|
                    0 <= j < k + 1 && #[trigger] old(self).touched_line(addr as int, j) == l) by {
                    assert(before.marked_line(l) == (old(self).space.tables.marked_line(l)
                        || exists|j: int|
                        0 <= j < k && #[trigger] old(self).touched_line(addr as int, j) == l));
                    if l != here && l / 256 == b {
                        assert(l % 256 != line);
                    }
                }
                assert(self.space.tables.same_starts(&old(self).space.tables));
                k = k + 1;
            }
            current = current + LINE_SIZE;
        }
        proof {
            self.space.lemma_claims_wf(&old(self).space);
            assert forall|l: int|
                0 <= l < old(self).space.tables.alloc_sizes.len() implies #[trigger]
            self.space.tables.marked_line(l) == (old(self).space.tables.marked_line(l)
                || exists|j: int|
                0 <= j && j * 128 < size && #[trigger] old(self).touched_line(addr as int, j) == l
                    && old(self).space.memory.contains(addr + j * 128)) by {
                assert(self.space.tables.marked_line(l) == (old(self).space.tables.marked_line(l)
                    || exists|j: int|
                    0 <= j < k && #[trigger] old(self).touched_line(addr as int, j) == l));
            }
        }
    }

    /// The heap line of the byte `k` lines past `addr`.
    pub open spec fn touched_line(&self, addr: int, k: int) -> int {
        (addr + k * 128 - self.space.memory.base) / 128
    }
}

/// The allocation containing `addr` as `(start, size)`, interior addresses
/// included; `None` for anything that is not inside a live allocation.
pub fn containing_allocation(gc: &ImmixAllocator, addr: usize) -> (r: Option<(usize, usize)>)
    requires
        gc.legible(),
    ensures
        match r {
            Some((start, size)) => {
                let q = (start - gc.space.memory.base) / 16;
                &&& start >= gc.space.memory.base
                &&& (start - gc.space.memory.base) % 16 == 0
                &&& gc.addr_in(addr as int, q)
                &&& size == gc.space.tables.extent(q) * 16
            },
            None => forall|q: int| !#[trigger] gc.addr_in(addr as int, q),
        },
{
    gc.allocation_containing(addr)
}

/// Claim the allocation containing `addr` for the open cycle; true for the
/// claimer, false when it already was or `addr` is in no allocation.
pub fn claim_for_cycle(gc: &mut ImmixAllocator, addr: usize) -> (won: bool)
    requires
        old(gc).wf(),
    ensures
        final(gc).wf(),
        final(gc).only_claims(old(gc)),
        old(gc).claims_ok() ==> final(gc).claims_ok(),
        won <==> exists|q: int| #[trigger]
            old(gc).addr_in(addr as int, q) && !old(gc).space.tables.claimed(q),
        won ==> forall|q: int| #[trigger]
            old(gc).addr_in(addr as int, q) ==> final(gc).space.tables.claims_one(
                &old(gc).space.tables,
                q,
            ),
        !won ==> final(gc).space.tables == old(gc).space.tables,
{
    gc.claim_for_cycle(addr)
}

/// Whether the allocation containing `addr` is claimed in the open cycle.
pub fn is_claimed(gc: &ImmixAllocator, addr: usize) -> (r: bool)
    requires
        gc.legible(),
    ensures
        r <==> exists|q: int| #[trigger]
            gc.addr_in(addr as int, q) && gc.space.tables.claimed(q),
{
    gc.is_claimed(addr)
}

/// An allocation is claimed once a cycle: claiming what is claimed gives
/// nothing, and a claim that was won stands.
pub proof fn law_claimed_once(before: &Tables, after: &Tables, q: int)
    requires
        before.inv(),
        before.is_start(q),
        !before.claimed(q),
        after.claims_one(before, q),
    ensures
        after.claimed(q),
        forall|p: int| p != q ==> #[trigger] after.claimed(p) == before.claimed(p),
        after.same_starts(before),
{
    after.lemma_claims_one(before, q);
}

/// Every address of an allocation gives one answer: the allocation that holds
/// `addr` holds exactly the addresses from its start up to its size, and no
/// other allocation holds any of them.
pub proof fn law_one_answer(gc: &ImmixAllocator, addr: int, q: int, other: int, p: int)
    requires
        gc.legible(),
        gc.addr_in(addr, q),
    ensures
        ({
            let start = gc.space.memory.base + q * 16;
            let size = gc.space.tables.extent(q) * 16;
            &&& start <= addr < start + size
            &&& gc.space.memory.contains(other) ==> (gc.addr_in(other, q) <==> start <= other
                < start + size)
            &&& gc.addr_in(other, q) && gc.addr_in(other, p) ==> p == q
        }),
{
    if gc.addr_in(other, q) && gc.addr_in(other, p) {
        gc.space.tables.lemma_unique(p, q, other - gc.space.memory.base);
    }
}

/// A claim shows: after it the allocation that holds `addr` is claimed, no
/// other is claimed that was not, and no address changes its allocation.
pub proof fn law_claim_shows(
    before: &ImmixAllocator,
    after: &ImmixAllocator,
    addr: int,
    q: int,
    other: int,
    p: int,
)
    requires
        before.wf(),
        before.addr_in(addr, q),
        !before.space.tables.claimed(q),
        after.only_claims(before),
        after.space.tables.claims_one(&before.space.tables, q),
    ensures
        after.addr_in(other, p) <==> before.addr_in(other, p),
        after.space.tables.claimed(p) <==> before.space.tables.claimed(p) || p == q,
{
    law_claimed_once(&before.space.tables, &after.space.tables, q);
    let t = after.space.tables;
    let u = before.space.tables;
    assert(t.is_start(p) == u.is_start(p));
    if t.is_start(p) {
        assert(t.extent(p) == u.extent(p));
    }
}

} // verus!
