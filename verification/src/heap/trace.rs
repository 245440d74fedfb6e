//! The transitive trace: from claimed allocations to everything they reach.

use vstd::prelude::*;

use crate::heap::hooks::TypeHooks;
use crate::heap::memory::HeapMemory;
use crate::heap::tables::Tables;

verus! {

impl Tables {
    /// Whether `q` is reached from one of `initial` in `n` steps along edges.
    pub open spec fn reach<H: TypeHooks>(
        &self,
        mem: &HeapMemory,
        hooks: &H,
        initial: Seq<(usize, usize)>,
        n: nat,
        q: int,
    ) -> bool
        decreases n,
    {
        if n == 0 {
            in_work(initial, q)
        } else {
            exists|p: int|
                self.reach(mem, hooks, initial, (n - 1) as nat, p) && self.step(mem, hooks, p, q)
        }
    }

    /// Whether an edge of `p` points into `q`.
    pub open spec fn step<H: TypeHooks>(
        &self,
        mem: &HeapMemory,
        hooks: &H,
        p: int,
        q: int,
    ) -> bool {
        self.is_start(p) && self.pointed(mem, self.edges(mem, hooks, p), q)
    }

    /// Whether `q` is reached from one of `initial`.
    pub open spec fn reachable<H: TypeHooks>(
        &self,
        mem: &HeapMemory,
        hooks: &H,
        initial: Seq<(usize, usize)>,
        q: int,
    ) -> bool {
        exists|n: nat| self.reach(mem, hooks, initial, n, q)
    }

    /// How many of the first `n` quanta start an unclaimed allocation.
    pub open spec fn unclaimed(&self, n: nat) -> nat
        decreases n,
    {
        if n == 0 {
            0
        } else {
            self.unclaimed((n - 1) as nat) + if self.is_start(n - 1) && !self.claimed(n - 1) {
                1nat
            } else {
                0
            }
        }
    }

    pub proof fn lemma_unclaimed(&self, before: &Tables, n: nat)
        requires
            self.claims_more(before),
            before.inv(),
            n <= before.objects.len(),
        ensures
            self.unclaimed(n) <= before.unclaimed(n),
            (exists|q: int| 0 <= q < n && #[trigger] self.newly(before, q)) ==> self.unclaimed(n)
                < before.unclaimed(n),
        decreases n,
    {
        self.lemma_same_starts(before);
        if n > 0 {
            self.lemma_unclaimed(before, (n - 1) as nat);
            let last = n - 1;
            assert(self.is_start(last) == before.is_start(last));
            if before.claimed(last) {
                assert(self.claimed(last));
            }
            if self.newly(before, last) {
                assert(self.unclaimed(n) < before.unclaimed(n));
            } else if exists|q: int| 0 <= q < n && #[trigger] self.newly(before, q) {
                let q = choose|q: int| 0 <= q < n && #[trigger] self.newly(before, q);
                assert(0 <= q < n - 1);
            }
        }
    }

    /// A step from a reached allocation reaches.
    proof fn lemma_step<H: TypeHooks>(
        &self,
        mem: &HeapMemory,
        hooks: &H,
        initial: Seq<(usize, usize)>,
        p: int,
        q: int,
    )
        requires
            self.reachable(mem, hooks, initial, p),
            self.step(mem, hooks, p, q),
        ensures
            self.reachable(mem, hooks, initial, q),
    {
        let n = choose|n: nat| self.reach(mem, hooks, initial, n, p);
        assert(self.reach(mem, hooks, initial, n, p) && self.step(mem, hooks, p, q));
        assert(self.reach(mem, hooks, initial, n + 1, q));
    }

    /// Transitively scan claimed allocations. Every allocation an edge of a
    /// scanned one points into is claimed and scanned in turn, once; nothing
    /// that is not reached is claimed.
    pub fn conservative_trace<H: TypeHooks>(
        &mut self,
        mem: &HeapMemory,
        hooks: &H,
        initial: Vec<(usize, usize)>,
    )
        requires
            old(self).inv(),
            old(self).covers(mem),
            forall|i: int| 0 <= i < initial.len() ==> old(self).entry(#[trigger] initial[i]),
        ensures
            final(self).inv(),
            final(self).claims_more(old(self)),
            final(self).closed_over(old(self), mem, hooks, initial@),
            forall|q: int| #[trigger]
                final(self).newly(old(self), q) ==> old(self).reachable(mem, hooks, initial@, q),
    {
        let ghost start = initial@;
        let mut work = initial;
        proof {
            self.lemma_claims_self();
            assert forall|i: int| 0 <= i < start.len() implies old(self).reachable(
                mem,
                hooks,
                start,
                (#[trigger] start[i]).0 as int / 16,
            ) by {
                assert(start[i].0 == start[i].0 as int / 16 * 16);
                assert(old(self).reach(mem, hooks, start, 0, start[i].0 as int / 16));
            }
        }
        while work.len() > 0
            invariant
                old(self).inv(),
                self.inv(),
                self.covers(mem),
                self.claims_more(old(self)),
                forall|i: int|
                    0 <= i < work.len() ==> old(self).entry(#[trigger] work[i]) && old(
                        self,
                    ).reachable(mem, hooks, start, work[i].0 as int / 16),
                forall|q: int| #[trigger]
                    self.newly(old(self), q) ==> old(self).reachable(mem, hooks, start, q),
                old(self).sound() ==> forall|q: int|
                    self.newly(old(self), q) || in_work(start, q) ==> #[trigger] self.all_claimed(
                        mem,
                        old(self).edges(mem, hooks, q),
                    ) || in_work(work@, q),
            decreases self.unclaimed(old(self).objects.len() as nat), work.len(),
        {
            let ghost mid = *self;
            let ghost held = work@;
            let (begin, size) = work.pop().unwrap();
            let ghost rest = work@;
            let ghost p = begin as int / 16;
            proof {
                assert(held.last() == (begin, size));
                assert(old(self).entry(held[held.len() - 1]));
                mid.lemma_same_edges(old(self), mem, hooks);
                mid.lemma_same_starts(old(self));
                assert(mid.entry((begin, size)));
            }
            self.scan_allocation(mem, hooks, begin, size, &mut work);
            proof {
                self.lemma_traced(old(self), &mid, mem, hooks, start, held, rest, work@, p);
                self.lemma_unclaimed(&mid, old(self).objects.len() as nat);
                if work@.len() > rest.len() {
                    assert(self.newly(&mid, work@[rest.len() as int].0 as int / 16));
                }
            }
        }
        proof {
            self.lemma_same_edges(old(self), mem, hooks);
            assert forall|q: int|
                old(self).sound() && (self.newly(old(self), q) || in_work(
                    start,
                    q,
                )) implies #[trigger] self.all_claimed(
                mem,
                old(self).edges(mem, hooks, q),
            ) by {
                assert(!in_work(work@, q));
            }
        }
    }

    /// In a sound heap, everything that the edges of the initial and of the
    /// newly claimed allocations point into is claimed.
    pub open spec fn closed_over<H: TypeHooks>(
        &self,
        before: &Tables,
        mem: &HeapMemory,
        hooks: &H,
        initial: Seq<(usize, usize)>,
    ) -> bool {
        before.sound() ==> forall|q: int|
            self.newly(before, q) || in_work(initial, q) ==> #[trigger] self.all_claimed(
                mem,
                before.edges(mem, hooks, q),
            )
    }

    /// One turn of the trace keeps what the loop promises.
    pub proof fn lemma_traced<H: TypeHooks>(
        &self,
        before: &Tables,
        mid: &Tables,
        mem: &HeapMemory,
        hooks: &H,
        start: Seq<(usize, usize)>,
        held: Seq<(usize, usize)>,
        rest: Seq<(usize, usize)>,
        work: Seq<(usize, usize)>,
        p: int,
    )
        requires
            before.inv(),
            mid.inv(),
            mid.claims_more(before),
            self.claims_more(mid),
            held.len() > 0,
            rest == held.drop_last(),
            held.last().0 == p * 16,
            before.is_start(p),
            self.work_grew(mid, mem, mid.edges(mem, hooks, p), rest, work),
            before.sound() ==> self.all_claimed(mem, mid.edges(mem, hooks, p)),
            forall|i: int|
                0 <= i < held.len() ==> before.entry(#[trigger] held[i]) && before.reachable(
                    mem,
                    hooks,
                    start,
                    held[i].0 as int / 16,
                ),
            forall|q: int| #[trigger]
                mid.newly(before, q) ==> before.reachable(mem, hooks, start, q),
            before.sound() ==> forall|q: int|
                mid.newly(before, q) || in_work(start, q) ==> #[trigger] mid.all_claimed(
                    mem,
                    before.edges(mem, hooks, q),
                ) || in_work(held, q),
        ensures
            self.claims_more(before),
            forall|i: int|
                0 <= i < work.len() ==> before.entry(#[trigger] work[i]) && before.reachable(
                    mem,
                    hooks,
                    start,
                    work[i].0 as int / 16,
                ),
            forall|q: int| #[trigger]
                self.newly(before, q) ==> before.reachable(mem, hooks, start, q),
            before.sound() ==> forall|q: int|
                self.newly(before, q) || in_work(start, q) ==> #[trigger] self.all_claimed(
                    mem,
                    before.edges(mem, hooks, q),
                ) || in_work(work, q),
    {
        self.lemma_claims_chain(mid, before);
        mid.lemma_same_edges(before, mem, hooks);
        self.lemma_same_edges(before, mem, hooks);
        assert(mid.edges(mem, hooks, p) == before.edges(mem, hooks, p));
        assert(before.reachable(mem, hooks, start, p)) by {
            assert(held[held.len() - 1].0 as int / 16 == p);
        }
        assert forall|i: int| 0 <= i < work.len() implies before.entry(#[trigger] work[i])
            && before.reachable(mem, hooks, start, work[i].0 as int / 16) by {
            if i < rest.len() {
                assert(work[i] == rest[i]);
                assert(rest[i] == held[i]);
            } else {
                let q = work[i].0 as int / 16;
                assert(mid.entry(work[i]));
                assert(mid.pointed(mem, mid.edges(mem, hooks, p), q));
                self.lemma_pointed_same(mid, before, mem, before.edges(mem, hooks, p), q);
                assert(before.step(mem, hooks, p, q));
                before.lemma_step(mem, hooks, start, p, q);
            }
        }
        assert forall|q: int| #[trigger] self.newly(before, q) implies before.reachable(
            mem,
            hooks,
            start,
            q,
        ) by {
            if !mid.newly(before, q) {
                assert(self.newly(mid, q));
                let i = choose|i: int|
                    rest.len() <= i < work.len() && #[trigger] work[i].0 == q * 16;
                assert(work[i].0 as int / 16 == q);
            }
        }
        if before.sound() {
            mid.lemma_same_starts(before);
            assert forall|q: int|
                self.newly(before, q) || in_work(start, q) implies #[trigger] self.all_claimed(
                mem,
                before.edges(mem, hooks, q),
            ) || in_work(work, q) by {
                if q == p {
                } else if mid.newly(before, q) || in_work(start, q) {
                    if mid.all_claimed(mem, before.edges(mem, hooks, q)) {
                        self.lemma_all_claimed_more(mid, mem, before.edges(mem, hooks, q));
                    } else {
                        let i = choose|i: int| 0 <= i < held.len() && #[trigger] held[i].0 == q * 16;
                        assert(i < rest.len());
                        assert(work[i] == rest[i] && rest[i] == held[i]);
                        assert(work[i].0 == q * 16);
                    }
                } else {
                    assert(self.newly(mid, q));
                }
            }
        }
    }

    proof fn lemma_pointed_same(
        &self,
        mid: &Tables,
        before: &Tables,
        mem: &HeapMemory,
        words: Seq<u64>,
        q: int,
    )
        requires
            before.inv(),
            mid.same_starts(before),
            mid.pointed(mem, words, q),
        ensures
            before.pointed(mem, words, q),
    {
        mid.lemma_same_starts(before);
        let k = choose|k: int| 0 <= k < words.len() && #[trigger] mid.points_at(mem, words[k], q);
        assert(mid.holds(q, words[k] - mem.base) == before.holds(q, words[k] - mem.base));
        assert(before.points_at(mem, words[k], q));
    }

    /// Whether `q` is reached from what `words` point into, in `n` steps.
    pub open spec fn word_reach<H: TypeHooks>(
        &self,
        mem: &HeapMemory,
        hooks: &H,
        words: Seq<u64>,
        n: nat,
        q: int,
    ) -> bool
        decreases n,
    {
        if n == 0 {
            self.pointed(mem, words, q)
        } else {
            exists|p: int|
                self.word_reach(mem, hooks, words, (n - 1) as nat, p) && self.step(mem, hooks, p, q)
        }
    }

    /// Whether `q` is reached from what `words` point into.
    pub open spec fn word_reachable<H: TypeHooks>(
        &self,
        mem: &HeapMemory,
        hooks: &H,
        words: Seq<u64>,
        q: int,
    ) -> bool {
        exists|n: nat| self.word_reach(mem, hooks, words, n, q)
    }

    /// `self` is `before` with what `words` reach claimed, and nothing else:
    /// every allocation pointed into is claimed, so is every one that a newly
    /// claimed allocation points into, and each newly claimed one is reached.
    pub open spec fn marked_from<H: TypeHooks>(
        &self,
        before: &Tables,
        mem: &HeapMemory,
        hooks: &H,
        words: Seq<u64>,
    ) -> bool {
        &&& self.claims_more(before)
        &&& before.sound() ==> self.all_claimed(mem, words)
        &&& before.sound() ==> forall|q: int| #[trigger]
            self.newly(before, q) ==> self.all_claimed(mem, before.edges(mem, hooks, q))
        &&& forall|q: int| #[trigger]
            self.newly(before, q) ==> before.word_reachable(mem, hooks, words, q)
    }

    /// Mark everything that `words` reach.
    pub fn mark_from<H: TypeHooks>(&mut self, mem: &HeapMemory, hooks: &H, words: &Vec<u64>)
        requires
            old(self).inv(),
            old(self).covers(mem),
        ensures
            final(self).inv(),
            final(self).marked_from(old(self), mem, hooks, words@),
    {
        let mut work: Vec<(usize, usize)> = Vec::new();
        self.mark_words(mem, words.as_slice(), &mut work);
        let ghost mid = *self;
        let ghost initial = work@;
        proof {
            mid.lemma_same_edges(old(self), mem, hooks);
            mid.lemma_same_starts(old(self));
            assert forall|i: int| 0 <= i < initial.len() implies mid.entry(
                #[trigger] initial[i],
            ) by {
                assert(old(self).entry(initial[i]));
            }
        }
        self.conservative_trace(mem, hooks, work);
        proof {
            self.lemma_claims_chain(&mid, old(self));
            if old(self).sound() {
                self.lemma_all_claimed_more(&mid, mem, words@);
                assert forall|q: int| #[trigger]
                    self.newly(old(self), q) implies self.all_claimed(
                    mem,
                    old(self).edges(mem, hooks, q),
                ) by {
                    if mid.newly(old(self), q) {
                        let i = choose|i: int|
                            0 <= i < initial.len() && #[trigger] initial[i].0 == q * 16;
                        assert(in_work(initial, q));
                    } else {
                        assert(self.newly(&mid, q));
                    }
                    assert(self.all_claimed(mem, mid.edges(mem, hooks, q)));
                    assert(mid.edges(mem, hooks, q) == old(self).edges(mem, hooks, q));
                }
            }
            assert forall|q: int| #[trigger] self.newly(old(self), q) implies old(
                self,
            ).word_reachable(mem, hooks, words@, q) by {
                if mid.newly(old(self), q) {
                    let i = choose|i: int|
                        0 <= i < initial.len() && #[trigger] initial[i].0 == q * 16;
                    assert(initial[i].0 as int / 16 == q);
                    assert(old(self).pointed(mem, words@, q));
                    assert(old(self).word_reach(mem, hooks, words@, 0, q));
                } else {
                    assert(self.newly(&mid, q));
                    assert(mid.reachable(mem, hooks, initial, q));
                    let n = choose|n: nat| mid.reach(mem, hooks, initial, n, q);
                    mid.lemma_reach_from_words(old(self), mem, hooks, words@, initial, n, q);
                }
            }
        }
    }

    proof fn lemma_reach_from_words<H: TypeHooks>(
        &self,
        before: &Tables,
        mem: &HeapMemory,
        hooks: &H,
        words: Seq<u64>,
        initial: Seq<(usize, usize)>,
        n: nat,
        q: int,
    )
        requires
            before.inv(),
            self.same_starts(before),
            before.work_is_pointed(mem, words, Seq::empty(), initial),
            self.reach(mem, hooks, initial, n, q),
        ensures
            before.word_reach(mem, hooks, words, n, q),
        decreases n,
    {
        if n == 0 {
            let i = choose|i: int| 0 <= i < initial.len() && #[trigger] initial[i].0 == q * 16;
            assert(before.pointed(mem, words, initial[i].0 as int / 16));
        } else {
            let p = choose|p: int|
                self.reach(mem, hooks, initial, (n - 1) as nat, p) && self.step(mem, hooks, p, q);
            self.lemma_reach_from_words(
                before,
                mem,
                hooks,
                words,
                initial,
                (n - 1) as nat,
                p,
            );
            self.lemma_same_edges(before, mem, hooks);
            self.lemma_same_starts(before);
            assert(before.is_start(p));
            self.lemma_pointed_same(self, before, mem, self.edges(mem, hooks, p), q);
            assert(before.step(mem, hooks, p, q));
        }
    }
}

/// From a heap with no claims, marking claims exactly what the words reach: no
/// live allocation is missed, and no neighbour of one is taken along.
pub proof fn law_marks_exactly_the_reached<H: TypeHooks>(
    before: &Tables,
    after: &Tables,
    mem: &HeapMemory,
    hooks: &H,
    words: Seq<u64>,
    q: int,
)
    requires
        before.inv(),
        before.sound(),
        before.covers(mem),
        forall|p: int| !#[trigger] before.claimed(p),
        after.marked_from(before, mem, hooks, words),
    ensures
        after.claimed(q) <==> before.word_reachable(mem, hooks, words, q),
{
    if after.claimed(q) {
        assert(after.newly(before, q));
    }
    if before.word_reachable(mem, hooks, words, q) {
        let n = choose|n: nat| before.word_reach(mem, hooks, words, n, q);
        lemma_reached_is_claimed(before, after, mem, hooks, words, n, q);
    }
}

proof fn lemma_reached_is_claimed<H: TypeHooks>(
    before: &Tables,
    after: &Tables,
    mem: &HeapMemory,
    hooks: &H,
    words: Seq<u64>,
    n: nat,
    q: int,
)
    requires
        before.inv(),
        before.sound(),
        forall|p: int| !#[trigger] before.claimed(p),
        after.marked_from(before, mem, hooks, words),
        before.word_reach(mem, hooks, words, n, q),
    ensures
        after.claimed(q),
    decreases n,
{
    after.lemma_same_edges(before, mem, hooks);
    if n == 0 {
        let k = choose|k: int| 0 <= k < words.len() && #[trigger] before.points_at(mem, words[k], q);
        assert(after.points_at(mem, words[k], q));
    } else {
        let p = choose|p: int|
            before.word_reach(mem, hooks, words, (n - 1) as nat, p) && before.step(
                mem,
                hooks,
                p,
                q,
            );
        lemma_reached_is_claimed(before, after, mem, hooks, words, (n - 1) as nat, p);
        assert(after.newly(before, p));
        let edges = before.edges(mem, hooks, p);
        let k = choose|k: int| 0 <= k < edges.len() && #[trigger] before.points_at(mem, edges[k], q);
        assert(after.points_at(mem, edges[k], q));
    }
}

/// Whether `work` holds an entry for the allocation starting at `q`.
pub open spec fn in_work(work: Seq<(usize, usize)>, q: int) -> bool {
    exists|i: int| 0 <= i < work.len() && #[trigger] work[i].0 == q * 16
}

} // verus!
