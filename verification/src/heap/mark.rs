//! The conservative marker: from words that may be pointers to the set of
//! allocations they reach. Objects are claimed, not lines: two reachable
//! objects on a line are both traced, an unreachable neighbour is not.

use vstd::prelude::*;

use crate::heap::hooks::TypeHooks;
use crate::heap::layout::{
    kind_bits, ALLOC_QUANTUM, OBJECT_KIND_MASK, OBJECT_KIND_NOPTR, OBJECT_KIND_TRACED, WORD,
};
use crate::heap::memory::HeapMemory;
use crate::heap::tables::Tables;

verus! {

impl Tables {
    /// The memory is that of the tables' heap.
    pub open spec fn covers(&self, mem: &HeapMemory) -> bool {
        &&& mem.inv()
        &&& mem.words.len() == self.blocks.len() * 4096
    }

    /// Whether word `w` points into the allocation starting at `q`.
    pub open spec fn points_at(&self, mem: &HeapMemory, w: u64, q: int) -> bool {
        mem.contains(w as int) && self.holds(q, w - mem.base)
    }

    /// The words of the allocation starting at `q`.
    pub open spec fn object_words(&self, mem: &HeapMemory, q: int) -> Seq<u64> {
        mem.words@.subrange(q * 2, (q + self.extent(q)) * 2)
    }

    /// The words the marker follows out of the allocation starting at `q`. A
    /// pointer-free block has none; a traced object is walked by its
    /// descriptor, or conservatively past word zero when that has no walk; any
    /// other block is taken word for word.
    pub open spec fn edges<H: TypeHooks>(&self, mem: &HeapMemory, hooks: &H, q: int) -> Seq<u64> {
        let words = self.object_words(mem, q);
        let kind = kind_bits(self.objects[q]);
        if kind == 0x20 {
            Seq::empty()
        } else if kind == 0x40 {
            if words[0] != 0 && hooks.traces(words[0]) {
                hooks.targets(words[0], (mem.base + q * 16) as usize, words)
            } else {
                words.subrange(1, words.len() as int)
            }
        } else {
            words
        }
    }

    /// Every allocation that one of `words` points into is claimed.
    pub open spec fn all_claimed(&self, mem: &HeapMemory, words: Seq<u64>) -> bool {
        forall|i: int, q: int|
            #![trigger self.points_at(mem, words[i], q)]
            0 <= i < words.len() && self.points_at(mem, words[i], q) ==> self.claimed(q)
    }

    /// Claimed now, and not in `before`.
    pub open spec fn newly(&self, before: &Tables, q: int) -> bool {
        self.claimed(q) && !before.claimed(q)
    }

    /// A worklist entry for the allocation starting at `e.0 / 16`.
    pub open spec fn entry(&self, e: (usize, usize)) -> bool {
        &&& e.0 % 16 == 0
        &&& self.is_start(e.0 as int / 16)
        &&& e.1 == self.extent(e.0 as int / 16) * 16
    }

    /// `self` is `before` with some more allocations claimed: the same
    /// starts, every earlier claim, and exactly the new allocations' lines.
    pub open spec fn claims_more(&self, before: &Tables) -> bool {
        &&& self.same_starts(before)
        &&& forall|q: int| before.claimed(q) ==> #[trigger] self.claimed(q)
        &&& forall|l: int|
            0 <= l < before.alloc_sizes.len() ==> #[trigger] self.marked_line(l) == (
            before.marked_line(l) || exists|q: int| #[trigger]
                self.newly(before, q) && before.on_line(q, l))
        &&& before.marks_seen() ==> self.marks_seen()
        &&& before.sound() && before.marks_whole() ==> self.marks_whole()
        &&& before.claims_held() ==> self.claims_held()
        &&& forall|b: int|
            0 <= b < self.blocks.len() && before.blocks[b].any_marked
                ==> #[trigger] self.blocks[b].any_marked
    }

    /// Every entry the worklist gained is a newly claimed allocation.
    pub open spec fn work_is_new(
        &self,
        before: &Tables,
        work: Seq<(usize, usize)>,
        grown: Seq<(usize, usize)>,
    ) -> bool {
        forall|i: int|
            work.len() <= i < grown.len() ==> before.entry(#[trigger] grown[i]) && self.newly(
                before,
                grown[i].0 as int / 16,
            )
    }

    /// Every newly claimed allocation is an entry the worklist gained.
    pub open spec fn new_is_work(
        &self,
        before: &Tables,
        work: Seq<(usize, usize)>,
        grown: Seq<(usize, usize)>,
    ) -> bool {
        forall|q: int| #[trigger]
            self.newly(before, q) ==> exists|i: int|
                work.len() <= i < grown.len() && #[trigger] grown[i].0 == q * 16
    }

    /// Some word of `words` points into the allocation starting at `q`.
    pub open spec fn pointed(&self, mem: &HeapMemory, words: Seq<u64>, q: int) -> bool {
        exists|k: int| 0 <= k < words.len() && #[trigger] self.points_at(mem, words[k], q)
    }

    /// Every entry the worklist gained is pointed at by one of `words`.
    pub open spec fn work_is_pointed(
        &self,
        mem: &HeapMemory,
        words: Seq<u64>,
        work: Seq<(usize, usize)>,
        grown: Seq<(usize, usize)>,
    ) -> bool {
        forall|i: int|
            work.len() <= i < grown.len() ==> self.pointed(
                mem,
                words,
                (#[trigger] grown[i]).0 as int / 16,
            )
    }

    /// The worklist grew by exactly the newly claimed allocations, each
    /// pointed at by one of `words`.
    pub open spec fn work_grew(
        &self,
        before: &Tables,
        mem: &HeapMemory,
        words: Seq<u64>,
        work: Seq<(usize, usize)>,
        grown: Seq<(usize, usize)>,
    ) -> bool {
        &&& work.is_prefix_of(grown)
        &&& self.work_is_new(before, work, grown)
        &&& self.new_is_work(before, work, grown)
        &&& before.work_is_pointed(mem, words, work, grown)
    }

    pub proof fn lemma_claims_self(&self)
        ensures
            self.claims_more(self),
    {
    }

    pub proof fn lemma_one_is_more(&self, before: &Tables, q: int)
        requires
            before.inv(),
            before.is_start(q),
            !before.claimed(q),
            self.claims_one(before, q),
        ensures
            self.claims_more(before),
            forall|p: int| #[trigger] self.newly(before, p) <==> p == q,
    {
        self.lemma_claims_one(before, q);
        assert forall|p: int| #[trigger] self.newly(before, p) <==> p == q by {
            if p != q {
                assert(self.claimed(p) == before.claimed(p));
            }
        }
        assert forall|l: int| 0 <= l < before.alloc_sizes.len() implies #[trigger] self.marked_line(
            l,
        ) == (before.marked_line(l) || exists|p: int| #[trigger]
            self.newly(before, p) && before.on_line(p, l)) by {
            assert(self.newly(before, q));
        }
    }

    /// Claims accumulate.
    pub proof fn lemma_claims_chain(&self, mid: &Tables, before: &Tables)
        requires
            before.inv(),
            mid.claims_more(before),
            self.claims_more(mid),
        ensures
            self.claims_more(before),
            self.inv(),
            forall|q: int| #[trigger]
                self.newly(before, q) <==> self.newly(mid, q) || mid.newly(before, q),
    {
        mid.lemma_same_starts(before);
        self.lemma_same_starts(mid);
        assert(self.same_starts(before)) by {
            assert forall|q: int| 0 <= q < self.objects.len() implies kind_bits(
                #[trigger] self.objects[q],
            ) == kind_bits(before.objects[q]) by {
                assert(kind_bits(mid.objects[q]) == kind_bits(before.objects[q]));
            }
            assert forall|b: int| 0 <= b < self.blocks.len() implies (
            #[trigger] self.blocks[b]).same_flags(&before.blocks[b]) by {
                assert(mid.blocks[b].same_flags(&before.blocks[b]));
            }
        }
        self.lemma_same_starts(before);
        assert forall|q: int| before.claimed(q) implies #[trigger] self.claimed(q) by {
            assert(mid.claimed(q));
        }
        assert forall|q: int| #[trigger]
            self.newly(before, q) <==> self.newly(mid, q) || mid.newly(before, q) by {
            if mid.claimed(q) {
                assert(self.claimed(q));
            }
            if before.claimed(q) {
                assert(mid.claimed(q));
            }
        }
        assert forall|l: int| 0 <= l < before.alloc_sizes.len() implies #[trigger] self.marked_line(
            l,
        ) == (before.marked_line(l) || exists|q: int| #[trigger]
            self.newly(before, q) && before.on_line(q, l)) by {
            assert(mid.marked_line(l) == (before.marked_line(l) || exists|q: int| #[trigger]
                mid.newly(before, q) && before.on_line(q, l)));
            if mid.marked_line(l) && !before.marked_line(l) {
                let q = choose|q: int| #[trigger] mid.newly(before, q) && before.on_line(q, l);
                assert(self.newly(before, q));
            }
            if self.marked_line(l) && !mid.marked_line(l) {
                let q = choose|q: int| #[trigger] self.newly(mid, q) && mid.on_line(q, l);
                assert(self.newly(before, q));
                assert(before.on_line(q, l));
            }
            if exists|q: int| #[trigger] self.newly(before, q) && before.on_line(q, l) {
                let q = choose|q: int| #[trigger] self.newly(before, q) && before.on_line(q, l);
                assert(mid.on_line(q, l));
                assert(self.newly(mid, q) || mid.newly(before, q));
            }
        }
        assert forall|b: int| 0 <= b < self.blocks.len()
            && before.blocks[b].any_marked implies #[trigger] self.blocks[b].any_marked by {
            assert(mid.blocks[b].any_marked);
        }
    }

    /// The edges and the pointers of a heap do not depend on its claims.
    pub proof fn lemma_same_edges<H: TypeHooks>(
        &self,
        before: &Tables,
        mem: &HeapMemory,
        hooks: &H,
    )
        requires
            before.inv(),
            self.same_starts(before),
        ensures
            forall|q: int|
                before.is_start(q) ==> #[trigger] self.edges(mem, hooks, q) == before.edges(
                    mem,
                    hooks,
                    q,
                ),
            forall|w: u64, q: int| #[trigger]
                self.points_at(mem, w, q) == before.points_at(mem, w, q),
            forall|e: (usize, usize)| #[trigger] self.entry(e) == before.entry(e),
    {
        self.lemma_same_starts(before);
        assert forall|q: int| before.is_start(q) implies #[trigger] self.edges(mem, hooks, q)
            == before.edges(mem, hooks, q) by {
            assert(self.extent(q) == before.extent(q));
            assert(kind_bits(self.objects[q]) == kind_bits(before.objects[q]));
        }
        assert forall|e: (usize, usize)| #[trigger] self.entry(e) == before.entry(e) by {
            let q = e.0 as int / 16;
            assert(self.is_start(q) == before.is_start(q));
            if before.is_start(q) {
                assert(self.extent(q) == before.extent(q));
            }
        }
    }

    /// Claims already made stay made.
    pub proof fn lemma_all_claimed_more(
        &self,
        before: &Tables,
        mem: &HeapMemory,
        words: Seq<u64>,
    )
        requires
            before.inv(),
            self.claims_more(before),
            before.all_claimed(mem, words),
        ensures
            self.all_claimed(mem, words),
    {
        self.lemma_same_starts(before);
        assert forall|i: int, q: int|
            #![trigger self.points_at(mem, words[i], q)]
            0 <= i < words.len() && self.points_at(mem, words[i], q) implies self.claimed(q) by {
            assert(before.points_at(mem, words[i], q));
            assert(before.claimed(q));
        }
    }

    /// Mark through one word: claim and queue the allocation it points into,
    /// interior pointers included. Anything outside the heap is ignored.
    pub fn mark_word(&mut self, mem: &HeapMemory, w: u64, out: &mut Vec<(usize, usize)>)
        requires
            old(self).inv(),
            old(self).covers(mem),
        ensures
            final(self).inv(),
            final(self).claims_more(old(self)),
            final(self).work_grew(old(self), mem, seq![w], old(out)@, final(out)@),
            old(self).sound() ==> final(self).all_claimed(mem, seq![w]),
    {
        let ghost words = seq![w];
        assert(words[0] == w);
        if w >= mem.base as u64 && w < mem.end() as u64 {
            let offset: usize = w as usize - mem.base;
            self.mark_allocation(offset, out);
            proof {
                if out@.len() > old(out)@.len() {
                    let q = out@.last().0 as int / 16;
                    self.lemma_one_is_more(old(self), q);
                    assert(old(self).points_at(mem, words[0], q));
                    assert(old(out)@.is_prefix_of(out@));
                    assert(old(self).pointed(mem, words, q));
                    assert(self.newly(old(self), q));
                    self.lemma_same_starts(old(self));
                    if old(self).sound() {
                        assert forall|i: int, p: int|
                            #![trigger self.points_at(mem, words[i], p)]
                            0 <= i < words.len() && self.points_at(
                                mem,
                                words[i],
                                p,
                            ) implies self.claimed(p) by {
                            assert(old(self).holds(p, offset as int));
                            old(self).lemma_unique(p, q, offset as int);
                        }
                    }
                } else {
                    assert(*self == *old(self));
                    if old(self).sound() {
                        assert forall|i: int, p: int|
                            #![trigger self.points_at(mem, words[i], p)]
                            0 <= i < words.len() && self.points_at(
                                mem,
                                words[i],
                                p,
                            ) implies self.claimed(p) by {
                            assert(old(self).holds(p, offset as int));
                        }
                    }
                }
            }
        } else {
            assert(!mem.contains(w as int));
        }
    }

    /// Marking one word after another.
    proof fn lemma_work_chain(
        &self,
        mid: &Tables,
        before: &Tables,
        mem: &HeapMemory,
        first: Seq<u64>,
        second: Seq<u64>,
        work: Seq<(usize, usize)>,
        grown: Seq<(usize, usize)>,
        last: Seq<(usize, usize)>,
    )
        requires
            before.inv(),
            mid.claims_more(before),
            self.claims_more(mid),
            mid.work_grew(before, mem, first, work, grown),
            self.work_grew(mid, mem, second, grown, last),
        ensures
            self.work_grew(before, mem, first + second, work, last),
    {
        self.lemma_claims_chain(mid, before);
        mid.lemma_same_starts(before);
        assert(forall|i: int| 0 <= i < grown.len() ==> last[i] == grown[i]);
        assert(work.is_prefix_of(last));
        self.lemma_new_chain(mid, before, work, grown, last);
        self.lemma_found_chain(mid, before, work, grown, last);
        assert forall|i: int| work.len() <= i < last.len() implies before.pointed(
            mem,
            first + second,
            (#[trigger] last[i]).0 as int / 16,
        ) by {
            let q = last[i].0 as int / 16;
            if i < grown.len() {
                assert(last[i] == grown[i]);
                let k = choose|k: int|
                    0 <= k < first.len() && #[trigger] before.points_at(mem, first[k], q);
                assert((first + second)[k] == first[k]);
            } else {
                assert(mid.pointed(mem, second, q));
                let k = choose|k: int|
                    0 <= k < second.len() && #[trigger] mid.points_at(mem, second[k], q);
                assert((first + second)[first.len() + k] == second[k]);
                assert(mid.holds(q, second[k] - mem.base) == before.holds(q, second[k] - mem.base));
                assert(before.points_at(mem, (first + second)[first.len() + k], q));
            }
        }
    }

    proof fn lemma_new_chain(
        &self,
        mid: &Tables,
        before: &Tables,
        work: Seq<(usize, usize)>,
        grown: Seq<(usize, usize)>,
        last: Seq<(usize, usize)>,
    )
        requires
            before.inv(),
            mid.same_starts(before),
            forall|q: int| #[trigger]
                self.newly(before, q) <==> self.newly(mid, q) || mid.newly(before, q),
            work.is_prefix_of(grown),
            grown.is_prefix_of(last),
            mid.work_is_new(before, work, grown),
            self.work_is_new(mid, grown, last),
        ensures
            self.work_is_new(before, work, last),
    {
        mid.lemma_same_starts(before);
        assert forall|i: int| work.len() <= i < last.len() implies before.entry(#[trigger] last[i])
            && self.newly(before, last[i].0 as int / 16) by {
            let q = last[i].0 as int / 16;
            if i < grown.len() {
                assert(last[i] == grown[i]);
                assert(mid.newly(before, q));
            } else {
                assert(mid.entry(last[i]));
                assert(mid.is_start(q) == before.is_start(q));
                assert(mid.extent(q) == before.extent(q));
            }
            assert(self.newly(before, q));
        }
    }

    proof fn lemma_found_chain(
        &self,
        mid: &Tables,
        before: &Tables,
        work: Seq<(usize, usize)>,
        grown: Seq<(usize, usize)>,
        last: Seq<(usize, usize)>,
    )
        requires
            forall|q: int| #[trigger]
                self.newly(before, q) <==> self.newly(mid, q) || mid.newly(before, q),
            work.is_prefix_of(grown),
            grown.is_prefix_of(last),
            mid.new_is_work(before, work, grown),
            self.new_is_work(mid, grown, last),
        ensures
            self.new_is_work(before, work, last),
    {
        assert forall|q: int| #[trigger] self.newly(before, q) implies exists|i: int|
            work.len() <= i < last.len() && #[trigger] last[i].0 == q * 16 by {
            if mid.newly(before, q) {
                let i = choose|i: int|
                    work.len() <= i < grown.len() && #[trigger] grown[i].0 == q * 16;
                assert(last[i] == grown[i]);
            } else {
                let i = choose|i: int|
                    grown.len() <= i < last.len() && #[trigger] last[i].0 == q * 16;
                assert(work.len() <= i && last[i].0 == q * 16);
            }
        }
    }

    /// Mark through each word of `words`.
    pub fn mark_words(&mut self, mem: &HeapMemory, words: &[u64], out: &mut Vec<(usize, usize)>)
        requires
            old(self).inv(),
            old(self).covers(mem),
        ensures
            final(self).inv(),
            final(self).claims_more(old(self)),
            final(self).work_grew(old(self), mem, words@, old(out)@, final(out)@),
            old(self).sound() ==> final(self).all_claimed(mem, words@),
    {
        let mut i: usize = 0;
        while i < words.len()
            invariant
                i <= words.len(),
                old(self).inv(),
                self.inv(),
                self.covers(mem),
                self.claims_more(old(self)),
                self.work_grew(old(self), mem, words@.take(i as int), old(out)@, out@),
                old(self).sound() ==> self.all_claimed(mem, words@.take(i as int)),
            decreases words.len() - i,
        {
            let ghost mid = *self;
            let ghost grown = out@;
            let w: u64 = words[i];
            self.mark_word(mem, w, out);
            proof {
                let done = words@.take(i as int);
                let next = words@.take(i + 1);
                assert(done + seq![w] =~= next);
                self.lemma_work_chain(&mid, old(self), mem, done, seq![w], old(out)@, grown, out@);
                self.lemma_claims_chain(&mid, old(self));
                if old(self).sound() {
                    mid.lemma_same_starts(old(self));
                    self.lemma_all_claimed_more(&mid, mem, done);
                    assert forall|k: int, q: int|
                        #![trigger self.points_at(mem, next[k], q)]
                        0 <= k < next.len() && self.points_at(
                            mem,
                            next[k],
                            q,
                        ) implies self.claimed(q) by {
                        if k < i {
                            assert(self.points_at(mem, done[k], q));
                        } else {
                            assert(self.points_at(mem, seq![w][0], q));
                        }
                    }
                }
            }
            i = i + 1;
        }
        assert(words@.take(i as int) =~= words@);
    }

    /// Trace one allocation's words, and no others on its lines.
    #[verifier::rlimit(60)]
    #[verifier::spinoff_prover]
    pub fn scan_allocation<H: TypeHooks>(
        &mut self,
        mem: &HeapMemory,
        hooks: &H,
        start: usize,
        size: usize,
        out: &mut Vec<(usize, usize)>,
    )
        requires
            old(self).inv(),
            old(self).covers(mem),
            old(self).entry((start, size)),
        ensures
            final(self).inv(),
            final(self).claims_more(old(self)),
            final(self).work_grew(
                old(self),
                mem,
                old(self).edges(mem, hooks, start as int / 16),
                old(out)@,
                final(out)@,
            ),
            old(self).sound() ==> final(self).all_claimed(
                mem,
                old(self).edges(mem, hooks, start as int / 16),
            ),
    {
        let q: usize = start / ALLOC_QUANTUM;
        proof {
            assert(self.entry_ok(q as int));
        }
        let first: usize = start / WORD;
        let last: usize = (start + size) / WORD;
        let all = vstd::slice::slice_subrange(mem.words.as_slice(), first, last);
        let ghost object = self.object_words(mem, q as int);
        assert(all@ =~= object);
        let kind: u8 = self.objects[q] & OBJECT_KIND_MASK;
        if kind == OBJECT_KIND_NOPTR {
                return ;
        }
        if kind == OBJECT_KIND_TRACED {
            let desc: u64 = all[0];
            if desc != 0 && hooks.has_trace(desc) {
                let targets = hooks.trace(desc, mem.base + start, all);
                self.mark_words(mem, targets.as_slice(), out);
                return ;
            }
            let rest = vstd::slice::slice_subrange(all, 1, all.len());
            self.mark_words(mem, rest, out);
            return ;
        }
        self.mark_words(mem, all, out);
    }
}

} // verus!
