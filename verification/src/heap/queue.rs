//! The marking workers' shared queue: what a worker takes, what it gives back,
//! and when the trace is over.

use vstd::prelude::*;

use crate::heap::hooks::TypeHooks;
use crate::heap::memory::HeapMemory;
use crate::heap::tables::Tables;
use crate::heap::trace::in_work;

verus! {

/// How many entries a worker takes from the queue at once.
pub const BATCH: usize = 64;

/// How long a worker's own list grows before half of it goes to the queue.
pub const SPILL: usize = 512;

/// Work shared by the marking workers.
pub struct MarkQueue {
    pub work: Vec<(usize, usize)>,
    /// Workers waiting for work.
    pub idle: usize,
    /// Every worker was idle over an empty queue: the trace is over.
    pub done: bool,
}

/// What a worker with an empty list of its own does next.
pub enum QueueStep {
    /// Scan these.
    Batch(Vec<(usize, usize)>),
    /// Wait for a wakeup, then call [`MarkQueue::resume`] and ask again.
    Wait,
    /// The trace is over. `last` for the worker that found out, which wakes
    /// the others.
    Leave { last: bool },
}

impl MarkQueue {
    pub fn new(work: Vec<(usize, usize)>) -> (q: MarkQueue)
        ensures
            q.work == work,
            q.idle == 0,
            !q.done,
    {
        MarkQueue { work, idle: 0, done: false }
    }

    /// Take a batch from the end of the queue, in its order there; over an
    /// empty one wait, or leave when the trace is over.
    pub fn take(&mut self, threads: usize) -> (step: QueueStep)
        requires
            old(self).idle < usize::MAX,
        ensures
            match step {
                QueueStep::Batch(b) => {
                    &&& old(self).work.len() > 0
                    &&& b.len() == if old(self).work.len() < 64 {
                        old(self).work.len() as int
                    } else {
                        64
                    }
                    &&& old(self).work@ == final(self).work@ + b@
                    &&& final(self).idle == old(self).idle
                    &&& final(self).done == old(self).done
                },
                QueueStep::Wait => {
                    &&& old(self).work.len() == 0
                    &&& !old(self).done
                    &&& old(self).idle + 1 != threads
                    &&& final(self).work@ == old(self).work@
                    &&& final(self).idle == old(self).idle + 1
                    &&& !final(self).done
                },
                QueueStep::Leave { last } => {
                    &&& old(self).work.len() == 0
                    &&& last == !old(self).done
                    &&& last ==> old(self).idle + 1 == threads
                    &&& final(self).work@ == old(self).work@
                    &&& final(self).idle == if last {
                        old(self).idle + 1
                    } else {
                        old(self).idle as int
                    }
                    &&& final(self).done
                },
            },
    {
        if self.work.len() > 0 {
            let n: usize = if self.work.len() < BATCH {
                self.work.len()
            } else {
                BATCH
            };
            let at: usize = self.work.len() - n;
            let batch = self.work.split_off(at);
            assert(old(self).work@ =~= self.work@ + batch@);
            return QueueStep::Batch(batch);
        }
        if self.done {
            return QueueStep::Leave { last: false };
        }
        self.idle = self.idle + 1;
        if self.idle == threads {
            self.done = true;
            return QueueStep::Leave { last: true };
        }
        QueueStep::Wait
    }

    /// A waiting worker is awake again.
    pub fn resume(&mut self)
        requires
            old(self).idle > 0,
        ensures
            final(self).idle == old(self).idle - 1,
            final(self).work == old(self).work,
            final(self).done == old(self).done,
    {
        self.idle = self.idle - 1;
    }

    /// Give the older half of a list that grew past the limit to the queue;
    /// true when the others are to be woken for it.
    pub fn spill(&mut self, local: &mut Vec<(usize, usize)>) -> (woke: bool)
        ensures
            woke == (old(local).len() >= 512),
            final(self).idle == old(self).idle,
            final(self).done == old(self).done,
            !woke ==> final(self).work == old(self).work && *final(local) == *old(local),
            woke ==> final(self).work@ == old(self).work@ + old(local)@.take(
                old(local).len() as int / 2,
            ) && final(local)@ == old(local)@.skip(old(local).len() as int / 2),
    {
        if local.len() < SPILL {
            return false;
        }
        let half: usize = local.len() / 2;
        let kept = local.split_off(half);
        let ghost given = local@;
        assert(given =~= old(local)@.take(half as int));
        assert(kept@ =~= old(local)@.skip(half as int));
        self.work.append(local);
        assert(self.work@ =~= old(self).work@ + given);
        *local = kept;
        true
    }
}

impl Tables {
    /// The worklist of a worker behind what is queued grows as its own does.
    proof fn lemma_behind(
        &self,
        before: &Tables,
        mem: &HeapMemory,
        words: Seq<u64>,
        queued: Seq<(usize, usize)>,
        local: Seq<(usize, usize)>,
        grown: Seq<(usize, usize)>,
    )
        requires
            self.work_grew(before, mem, words, local, grown),
        ensures
            self.work_grew(before, mem, words, queued + local, queued + grown),
    {
        let n = queued.len() as int;
        let a = queued + local;
        let b = queued + grown;
        assert(a.is_prefix_of(b)) by {
            assert forall|i: int| 0 <= i < a.len() implies a[i] == b[i] by {
                if i >= n {
                    assert(local[i - n] == grown[i - n]);
                }
            }
        }
        assert forall|i: int| a.len() <= i < b.len() implies before.entry(#[trigger] b[i])
            && self.newly(before, b[i].0 as int / 16) && before.pointed(
            mem,
            words,
            b[i].0 as int / 16,
        ) by {
            assert(b[i] == grown[i - n]);
        }
        assert forall|q: int| #[trigger] self.newly(before, q) implies exists|i: int|
            a.len() <= i < b.len() && #[trigger] b[i].0 == q * 16 by {
            let i = choose|i: int| local.len() <= i < grown.len() && #[trigger] grown[i].0 == q * 16;
            assert(b[i + n].0 == q * 16);
        }
    }

    /// One worker's share of a marking job: scan batches of the queue, and what
    /// they lead to, until there is no work. Everything queued is then traced;
    /// the worker waits for the others, or leaves with them.
    pub fn mark_worker<H: TypeHooks>(
        &mut self,
        mem: &HeapMemory,
        hooks: &H,
        queue: &mut MarkQueue,
        threads: usize,
    ) -> (step: QueueStep)
        requires
            old(self).inv(),
            old(self).covers(mem),
            old(queue).idle < usize::MAX,
            forall|i: int|
                0 <= i < old(queue).work.len() ==> old(self).entry(#[trigger] old(queue).work[i]),
        ensures
            final(self).inv(),
            final(self).claims_more(old(self)),
            final(self).closed_over(old(self), mem, hooks, old(queue).work@),
            forall|q: int| #[trigger]
                final(self).newly(old(self), q) ==> old(self).reachable(
                    mem,
                    hooks,
                    old(queue).work@,
                    q,
                ),
            final(queue).work.len() == 0,
            step is Wait <==> !old(queue).done && old(queue).idle + 1 != threads,
            step is Leave <==> !(step is Wait),
            step matches QueueStep::Leave { last } ==> last == !old(queue).done,
            final(queue).done == (step is Leave),
            final(queue).idle == if old(queue).done {
                old(queue).idle as int
            } else {
                old(queue).idle + 1
            },
    {
        let mut local: Vec<(usize, usize)> = Vec::new();
        let ghost start = old(queue).work@;
        proof {
            assert forall|i: int| 0 <= i < start.len() implies old(self).entry(
                #[trigger] start[i],
            ) by {
                assert(old(self).entry(old(queue).work[i]));
            }
            self.lemma_tracing_starts(mem, hooks, start);
            assert(queue.work@ + local@ =~= start);
        }
        loop
            invariant
                start == old(queue).work@,
                old(self).inv(),
                self.inv(),
                self.covers(mem),
                old(queue).idle < usize::MAX,
                queue.idle == old(queue).idle,
                queue.done == old(queue).done,
                self.tracing(old(self), mem, hooks, start, queue.work@ + local@),
                self.objects.len() == old(self).objects.len(),
            decreases
                    self.unclaimed(old(self).objects.len() as nat),
                    queue.work.len() + local.len(),
        {
            let ghost whole = queue.work@ + local@;
            if local.len() == 0 {
                match queue.take(threads) {
                    QueueStep::Batch(batch) => {
                        local = batch;
                        assert(queue.work@ + local@ =~= whole);
                    },
                    step => {
                        proof {
                            assert(whole =~= Seq::<(usize, usize)>::empty());
                            self.lemma_tracing_ends(old(self), mem, hooks, start);
                        }
                        return step;
                    },
                }
            }
            self.scan_next(mem, hooks, queue, &mut local, Ghost(*old(self)), Ghost(start));
        }
    }

    /// Scan the last entry of a worker's list, and share the list if it grew
    /// long.
    #[verifier::spinoff_prover]
    #[verifier::rlimit(60)]
    fn scan_next<H: TypeHooks>(
        &mut self,
        mem: &HeapMemory,
        hooks: &H,
        queue: &mut MarkQueue,
        local: &mut Vec<(usize, usize)>,
        Ghost(before): Ghost<Tables>,
        Ghost(start): Ghost<Seq<(usize, usize)>>,
    )
        requires
            before.inv(),
            old(self).inv(),
            old(self).covers(mem),
            old(local).len() > 0,
            old(self).tracing(&before, mem, hooks, start, old(queue).work@ + old(local)@),
        ensures
            final(self).inv(),
            final(self).covers(mem),
            final(self).objects.len() == old(self).objects.len(),
            final(queue).idle == old(queue).idle,
            final(queue).done == old(queue).done,
            final(self).tracing(&before, mem, hooks, start, final(queue).work@ + final(local)@),
            final(self).unclaimed(before.objects.len() as nat) < old(self).unclaimed(
                before.objects.len() as nat,
            ) || final(self).unclaimed(before.objects.len() as nat) == old(self).unclaimed(
                before.objects.len() as nat,
            ) && final(queue).work.len() + final(local).len() < old(queue).work.len() + old(
                local,
            ).len(),
    {
        let ghost whole = queue.work@ + local@;
        let ghost mid = *self;
        let (begin, size) = local.pop().unwrap();
        let ghost short = local@;
        proof {
            assert(whole.last() == (begin, size));
            assert(whole.drop_last() =~= queue.work@ + short);
            mid.lemma_tracing_entry(&before, mem, hooks, start, whole);
        }
        self.scan_allocation(mem, hooks, begin, size, local);
        proof {
            self.lemma_behind(
                &mid,
                mem,
                mid.edges(mem, hooks, begin as int / 16),
                queue.work@,
                short,
                local@,
            );
            self.lemma_tracing_step(
                &before,
                &mid,
                mem,
                hooks,
                start,
                whole,
                queue.work@ + local@,
            );
            if local@.len() > short.len() {
                assert(self.newly(&mid, local@[short.len() as int].0 as int / 16));
            }
        }
        let ghost now = queue.work@ + local@;
        let _woke: bool = queue.spill(local);
        assert(queue.work@ + local@ =~= now);
        assert(queue.work.len() + local.len() == now.len());
    }

    /// Halfway through a trace from `start`, with `work` left to scan: only
    /// what is reached is claimed, and what is claimed is scanned or in `work`.
    #[verifier::opaque]
    spec fn tracing<H: TypeHooks>(
        &self,
        before: &Tables,
        mem: &HeapMemory,
        hooks: &H,
        start: Seq<(usize, usize)>,
        work: Seq<(usize, usize)>,
    ) -> bool {
        &&& self.claims_more(before)
        &&& forall|i: int|
            0 <= i < work.len() ==> before.entry(#[trigger] work[i]) && before.reachable(
                mem,
                hooks,
                start,
                work[i].0 as int / 16,
            )
        &&& forall|q: int| #[trigger]
            self.newly(before, q) ==> before.reachable(mem, hooks, start, q)
        &&& before.sound() ==> forall|q: int|
            self.newly(before, q) || in_work(start, q) ==> #[trigger] self.all_claimed(
                mem,
                before.edges(mem, hooks, q),
            ) || in_work(work, q)
    }

    proof fn lemma_tracing_starts<H: TypeHooks>(
        &self,
        mem: &HeapMemory,
        hooks: &H,
        start: Seq<(usize, usize)>,
    )
        requires
            forall|i: int| 0 <= i < start.len() ==> self.entry(#[trigger] start[i]),
        ensures
            self.tracing(self, mem, hooks, start, start),
    {
        reveal(Tables::tracing);
        self.lemma_claims_self();
        assert forall|i: int| 0 <= i < start.len() implies self.reachable(
            mem,
            hooks,
            start,
            (#[trigger] start[i]).0 as int / 16,
        ) by {
            assert(self.entry(start[i]));
            assert(start[i].0 == start[i].0 as int / 16 * 16);
            assert(self.reach(mem, hooks, start, 0, start[i].0 as int / 16));
        }
    }

    proof fn lemma_tracing_entry<H: TypeHooks>(
        &self,
        before: &Tables,
        mem: &HeapMemory,
        hooks: &H,
        start: Seq<(usize, usize)>,
        work: Seq<(usize, usize)>,
    )
        requires
            before.inv(),
            self.tracing(before, mem, hooks, start, work),
            work.len() > 0,
        ensures
            self.entry(work.last()),
    {
        reveal(Tables::tracing);
        assert(before.entry(work[work.len() - 1]));
        self.lemma_same_edges(before, mem, hooks);
    }

    proof fn lemma_tracing_step<H: TypeHooks>(
        &self,
        before: &Tables,
        mid: &Tables,
        mem: &HeapMemory,
        hooks: &H,
        start: Seq<(usize, usize)>,
        held: Seq<(usize, usize)>,
        work: Seq<(usize, usize)>,
    )
        requires
            before.inv(),
            mid.inv(),
            mid.tracing(before, mem, hooks, start, held),
            held.len() > 0,
            self.claims_more(mid),
            self.work_grew(
                mid,
                mem,
                mid.edges(mem, hooks, held.last().0 as int / 16),
                held.drop_last(),
                work,
            ),
            mid.sound() ==> self.all_claimed(
                mem,
                mid.edges(mem, hooks, held.last().0 as int / 16),
            ),
        ensures
            self.tracing(before, mem, hooks, start, work),
            self.unclaimed(before.objects.len() as nat) <= mid.unclaimed(
                before.objects.len() as nat,
            ),
            (exists|q: int| #[trigger] self.newly(mid, q)) ==> self.unclaimed(
                before.objects.len() as nat,
            ) < mid.unclaimed(before.objects.len() as nat),
    {
        reveal(Tables::tracing);
        let p = held.last().0 as int / 16;
        assert(before.entry(held[held.len() - 1]));
        mid.lemma_same_starts(before);
        self.lemma_traced(before, mid, mem, hooks, start, held, held.drop_last(), work, p);
        self.lemma_unclaimed(mid, before.objects.len() as nat);
    }

    proof fn lemma_tracing_ends<H: TypeHooks>(
        &self,
        before: &Tables,
        mem: &HeapMemory,
        hooks: &H,
        start: Seq<(usize, usize)>,
    )
        requires
            self.tracing(before, mem, hooks, start, Seq::empty()),
        ensures
            self.claims_more(before),
            self.closed_over(before, mem, hooks, start),
            forall|q: int| #[trigger]
                self.newly(before, q) ==> before.reachable(mem, hooks, start, q),
    {
        reveal(Tables::tracing);
        assert forall|q: int|
            before.sound() && (self.newly(before, q) || in_work(
                start,
                q,
            )) implies #[trigger] self.all_claimed(mem, before.edges(mem, hooks, q)) by {
            assert(!in_work(Seq::empty(), q));
        }
    }
}

} // verus!
