//! What the rest of the runtime asks of the heap.

use vstd::prelude::*;

use crate::heap::grant::{granted, Attempt, Grant, TriggerContext};
use crate::heap::handles::HandleTable;
use crate::heap::immix::ImmixAllocator;
use crate::heap::layout::{line_up, ALLOC_QUANTUM, BLOCK_SIZE, LINE_SIZE};
use crate::heap::mutators::MutatorWorld;
use crate::heap::space::Space;

verus! {

/// What an allocation gives is new: an allocation of its own, of at least the
/// bytes asked for, all zero.
#[verifier::rlimit(60)]
#[verifier::spinoff_prover]
pub proof fn law_granted_is_fresh(
    after: &ImmixAllocator,
    before: &ImmixAllocator,
    size: int,
    attempt: Attempt,
    recycle: bool,
    addr: usize,
)
    requires
        before.wf(),
        after.wf(),
        0 <= size,
        after.grants(before, size, attempt, recycle, Grant::At(addr)),
    ensures
        ({
            let at = addr - after.space.memory.base;
            &&& after.space.memory.contains(addr as int)
            &&& at % 16 == 0
            &&& after.space.tables.is_start(at / 16)
            &&& after.space.tables.extent(at / 16) * 16 >= size
            &&& forall|k: int|
                at / 8 <= k < at / 8 + after.space.tables.extent(at / 16) * 2
                    ==> #[trigger] after.space.memory.words[k] == 0
        }),
{
    let at = addr - before.space.memory.base;
    let q = at / 16;
    let aligned = granted(size);
    assert(aligned >= size && aligned % 16 == 0);
    assert(line_up(aligned) >= aligned);
    assert(after.space.memory.base == before.space.memory.base);
    assert(after.space.tables.is_start(q));
    assert(after.space.tables.entry_ok(q));
    if aligned > 32768 {
        let n = Space::blocks_for(size);
        assert(n * 32768 >= line_up(size));
        assert(at + n * 32768 <= after.space.tables.size());
    }
}

impl ImmixAllocator {
    /// Whether `addr` lies on a claimed line of a block that is handed out.
    pub open spec fn on_claimed_line(&self, addr: int) -> bool {
        let at = addr - self.space.memory.base;
        &&& self.space.memory.contains(addr)
        &&& self.space.tables.blocks[at / 32768].used
        &&& self.space.tables.blocks[at / 32768].marked(at % 32768 / 128)
    }

    /// Whether `addr` points into the heap, at a line in use.
    pub fn is_gc_ptr(&self, addr: usize) -> (r: bool)
        requires
            self.wf(),
        ensures
            r == self.on_claimed_line(addr as int),
    {
        match self.space.memory.offset_of(addr) {
            Some(at) => {
                let b: usize = at / BLOCK_SIZE;
                assert(b < self.space.tables.blocks@.len());
                self.space.tables.blocks[b].used && self.space.tables.blocks[b].is_marked(
                    at % BLOCK_SIZE / LINE_SIZE,
                )
            },
            None => false,
        }
    }

    /// [`Self::is_gc_ptr`] for a boxed value: its type must be in the heap too,
    /// unless it has none, and what it points at, where its kind has it point
    /// at something.
    pub fn is_gc_dynamic(&self, addr: usize, ty: usize, points: bool, value: usize) -> (r: bool)
        requires
            self.wf(),
        ensures
            r == (self.on_claimed_line(addr as int) && (ty == 0 || self.on_claimed_line(ty as int))
                && (!points || self.on_claimed_line(value as int))),
    {
        self.is_gc_ptr(addr) && (ty == 0 || self.is_gc_ptr(ty)) && (!points || self.is_gc_ptr(
            value,
        ))
    }

    /// What [`Self::allocate`] came to.
    pub open spec fn allocated(
        &self,
        before: &ImmixAllocator,
        size: int,
        attempt: Attempt,
        ctx: TriggerContext,
        recycle: bool,
        r: Grant,
    ) -> bool {
        if before.stops_first(attempt, ctx) {
            &&& r == Grant::Collect(crate::heap::grant::ORIGIN_PRESSURE)
            &&& self.space == before.space
        } else {
            exists|asked: ImmixAllocator| #[trigger]
                asked.asked_from(before, attempt, ctx) && self.grants(
                    &asked,
                    size,
                    attempt,
                    recycle,
                    r,
                )
        }
    }

    /// What an allocation that succeeded is: see [`law_granted_is_fresh`].
    proof fn lemma_allocated(
        &self,
        before: &ImmixAllocator,
        size: int,
        attempt: Attempt,
        ctx: TriggerContext,
        recycle: bool,
        addr: usize,
    )
        requires
            before.wf(),
            self.wf(),
            0 <= size,
            self.allocated(before, size, attempt, ctx, recycle, Grant::At(addr)),
        ensures
            self.space.memory.contains(addr as int),
            (addr - self.space.memory.base) % 16 == 0,
            self.space.tables.is_start((addr - self.space.memory.base) / 16),
    {
        let asked = choose|asked: ImmixAllocator| #[trigger]
            asked.asked_from(before, attempt, ctx) && self.grants(
                &asked,
                size,
                attempt,
                recycle,
                Grant::At(addr),
            );
        law_granted_is_fresh(self, &asked, size, attempt, recycle, addr);
    }

    /// Allocate memory for the life of the process, pinned as a persistent
    /// root: it is referenced only from memory the scanner never sees.
    pub fn allocate_immortal(
        &mut self,
        size: usize,
        attempt: Attempt,
        ctx: TriggerContext,
        recycle: bool,
    ) -> (r: Grant)
        requires
            old(self).wf(),
            size + 15 <= usize::MAX,
        ensures
            final(self).wf(),
            old(self).unclaimed() ==> final(self).unclaimed(),
            exists|mid: ImmixAllocator| #[trigger]
                mid.allocated(old(self), size as int, attempt, ctx, recycle, r) && final(
                    self).only_persistent(&mid),
            forall|x: u64| #[trigger]
                final(self).roots.persistent_roots@.contains(x) <==> old(
                    self,
                ).roots.persistent_roots@.contains(x) || r == Grant::At(x as usize) && x
                    <= usize::MAX,
    {
        let r: Grant = self.allocate(size, attempt, ctx, recycle);
        assert(self.allocated(old(self), size as int, attempt, ctx, recycle, r));
        if let Grant::At(addr) = r {
            self.make_immortal(addr);
        }
        r
    }

    /// Register the block at `addr` and store its callback.
    fn set_finalizer(&mut self, addr: usize, finalize: u64)
        requires
            old(self).wf(),
            old(self).space.memory.contains(addr as int),
            (addr - old(self).space.memory.base) % 16 == 0,
        ensures
            final(self).wf(),
            final(self).space.tables == old(self).space.tables,
            final(self).space.memory.base == old(self).space.memory.base,
            final(self).space.memory.words@ == old(self).space.memory.words@.update(
                (addr - old(self).space.memory.base) / 8,
                finalize,
            ),
            final(self).is_finalizable((addr - old(self).space.memory.base) as usize),
            final(self).only_finalizables(old(self)),
            final(self).finalizables@ == ({
                let at = (addr - old(self).space.memory.base) as usize;
                if old(self).is_finalizable(at) {
                    old(self).finalizables@
                } else {
                    old(self).finalizables@.push(at)
                }
            }),
    {
        self.register_finalizable(addr);
        proof {
            let now = self.finalizables@;
            let at = (addr - old(self).space.memory.base) as usize;
            if !old(self).is_finalizable(at) {
                assert(now[now.len() - 1] == at);
            }
        }
        let ghost held = self.space;
        assert(addr % 8 == 0);
        let _stored: bool = self.space.memory.write(addr, finalize);
        proof {
            self.space.lemma_only_memory(&held);
        }
    }

    /// Allocate a block whose word zero holds `finalize`, called once nothing
    /// can reach the block. The size leaves room for it.
    pub fn alloc_with_finalizer(
        &mut self,
        size: usize,
        finalize: u64,
        attempt: Attempt,
        ctx: TriggerContext,
        recycle: bool,
    ) -> (r: Grant)
        requires
            old(self).wf(),
            8 <= size,
            size + 15 <= usize::MAX,
        ensures
            final(self).wf(),
            old(self).unclaimed() ==> final(self).unclaimed(),
            exists|mid: ImmixAllocator| #[trigger]
                mid.allocated(old(self), size as int, attempt, ctx, recycle, r) && final(
                    self).only_finalizables(&mid) && match r {
                    Grant::At(addr) => final(self).space.memory.words@
                        == mid.space.memory.words@.update(
                        (addr - mid.space.memory.base) / 8,
                        finalize,
                    ),
                    _ => final(self).space.memory == mid.space.memory,
                },
            r matches Grant::At(addr) ==> final(self).finalizables@ == ({
                let at = (addr - old(self).space.memory.base) as usize;
                if old(self).is_finalizable(at) {
                    old(self).finalizables@
                } else {
                    old(self).finalizables@.push(at)
                }
            }),
            !(r is At) ==> final(self).finalizables == old(self).finalizables,
    {
        let r: Grant = self.allocate(size, attempt, ctx, recycle);
        let ghost mid = *self;
        assert(mid.allocated(old(self), size as int, attempt, ctx, recycle, r));
        if let Grant::At(addr) = r {
            proof {
                mid.lemma_allocated(old(self), size as int, attempt, ctx, recycle, addr);
            }
            self.set_finalizer(addr, finalize);
        }
        r
    }

    /// The address behind every live handle: the roots a hosted collector adds
    /// to its own.
    pub fn for_each_handle(&self) -> (r: Vec<u64>)
        ensures
            r@ == HandleTable::roots(self.handles.slots@),
    {
        self.handles.live_addresses()
    }

    /// The objects among the first `n` quanta that have a word zero, with it.
    pub open spec fn walked(&self, n: nat) -> Seq<(usize, u64)>
        decreases n,
    {
        if n == 0 {
            Seq::empty()
        } else {
            let q = n - 1;
            let init = self.walked(q as nat);
            if self.space.tables.is_start(q) && self.space.memory.words[q * 2] != 0 {
                init.push(
                    ((self.space.memory.base + q * 16) as usize, self.space.memory.words[q * 2]),
                )
            } else {
                init
            }
        }
    }

    /// Every allocation that has a type, with it, in the order of their
    /// addresses.
    pub fn walk_heap(&self) -> (r: Vec<(usize, u64)>)
        requires
            self.wf(),
        ensures
            r@ == self.walked(self.space.tables.objects@.len()),
    {
        let mut r: Vec<(usize, u64)> = Vec::new();
        let mut q: usize = 0;
        while q < self.space.tables.objects.len()
            invariant
                self.wf(),
                q <= self.space.tables.objects@.len(),
                r@ == self.walked(q as nat),
            decreases self.space.tables.objects.len() - q,
        {
            let word: u64 = self.space.memory.words[q * 2];
            if self.space.tables.objects[q] & crate::heap::layout::OBJECT_SIZE_MASK != 0 && word
                != 0 {
                r.push((self.space.memory.base + q * ALLOC_QUANTUM, word));
            }
            q = q + 1;
        }
        r
    }

    /// The bytes reserved for the allocation that contains `addr`; zero for
    /// addresses outside the heap, free space and padding.
    pub fn allocation_size(&self, addr: usize) -> (n: usize)
        requires
            self.wf(),
        ensures
            self.space.memory.contains(addr as int) ==> forall|q: int| #[trigger]
                self.space.tables.holds(q, addr - self.space.memory.base) ==> n
                    == self.space.tables.extent(q) * 16,
            n != 0 ==> self.space.memory.contains(addr as int) && exists|q: int| #[trigger]
                self.space.tables.holds(q, addr - self.space.memory.base),
    {
        match self.space.memory.offset_of(addr) {
            Some(at) => match self.space.tables.allocation_at(at) {
                Some((begin, size)) => {
                    proof {
                        let p = begin as int / 16;
                        assert forall|q: int| #[trigger]
                            self.space.tables.holds(q, at as int) implies size
                            == self.space.tables.extent(q) * 16 by {
                            if p < q {
                                assert(self.space.tables.is_start(p)
                                    && self.space.tables.is_start(q));
                            }
                            if q < p {
                                assert(self.space.tables.is_start(q)
                                    && self.space.tables.is_start(p));
                            }
                        }
                    }
                    size
                },
                None => 0,
            },
            None => 0,
        }
    }

    /// The collector's three counters: bytes handed out in all, external memory
    /// excluded; nothing, since the fast path counts no allocations; and the
    /// bytes of the blocks handed out now.
    pub fn stats(&self) -> (r: (u64, u64, u64))
        requires
            self.wf(),
        ensures
            r.0 == self.stats.bytes_allocated,
            r.1 == 0,
            r.2 == self.live() * 32768,
    {
        let live: usize = self.live_blocks();
        assert(live * 32768 <= self.space.tables.blocks@.len() * 32768);
        (self.stats.bytes_allocated, 0, (live * BLOCK_SIZE) as u64)
    }
}

/// Register a persistent root; nothing for null.
pub fn register_root(gc: &mut ImmixAllocator, ptr: u64)
    requires
        old(gc).wf(),
    ensures
        final(gc).wf(),
        final(gc).only_persistent(old(gc)),
        final(gc).roots.persistent_roots@ == if ptr == 0 || old(
            gc,
        ).roots.persistent_roots@.contains(ptr) {
            old(gc).roots.persistent_roots@
        } else {
            old(gc).roots.persistent_roots@.push(ptr)
        },
{
    if ptr != 0 {
        gc.roots.register_persistent(ptr);
    }
}

pub fn gc_add_persistent(gc: &mut ImmixAllocator, ptr: u64)
    requires
        old(gc).wf(),
    ensures
        final(gc).wf(),
        final(gc).only_persistent(old(gc)),
        final(gc).roots.persistent_roots@ == if old(gc).roots.persistent_roots@.contains(ptr) {
            old(gc).roots.persistent_roots@
        } else {
            old(gc).roots.persistent_roots@.push(ptr)
        },
{
    gc.roots.register_persistent(ptr);
}

pub fn gc_remove_persistent(gc: &mut ImmixAllocator, ptr: u64)
    requires
        old(gc).wf(),
    ensures
        final(gc).wf(),
        final(gc).only_persistent(old(gc)),
        forall|x: u64| #[trigger]
            final(gc).roots.persistent_roots@.contains(x) <==> old(
                gc,
            ).roots.persistent_roots@.contains(x) && x != ptr,
{
    gc.roots.unregister_persistent(ptr);
}

/// No answer: nothing records an allocation's type, and a marked line is not an
/// object's address. Zero would claim there are none.
pub fn get_live_objects() -> (n: i32)
    ensures
        n == -1,
{
    -1
}

/// Whether the thread is a registered mutator.
pub fn thread_registered(world: &MutatorWorld, thread: u64) -> (r: bool)
    ensures
        r == world.registered(thread),
{
    let mut i: usize = 0;
    while i < world.mutators.len()
        invariant
            i <= world.mutators.len(),
            forall|k: int| 0 <= k < i ==> (#[trigger] world.mutators[k]).thread != thread,
        decreases world.mutators.len() - i,
    {
        if world.mutators[i].thread == thread {
            return true;
        }
        i = i + 1;
    }
    false
}

// A virtual: a view of an object by the names of its fields.

/// Bytes of a virtual's header: its type, its object and the next one.
pub const VIRTUAL_HEADER: usize = 24;

/// The bytes of a virtual of `fields` fields and `data` bytes of data.
pub fn virtual_size(fields: usize, data: usize) -> (n: usize)
    requires
        24 + fields * 8 + data <= usize::MAX,
    ensures
        n == 24 + fields * 8 + data,
{
    VIRTUAL_HEADER + fields * 8 + data
}

/// The words of a virtual's header and fields: each field points as many bytes
/// into the virtual as its index says; nowhere while the type has no indexes.
pub open spec fn virtual_words(
    addr: usize,
    ty: u64,
    fields: nat,
    indexes: Option<Seq<usize>>,
) -> Seq<u64> {
    seq![ty, 0, 0] + Seq::new(
        fields,
        |i: int|
            match indexes {
                Some(at) => (addr + at[i]) as u64,
                None => 0,
            },
    )
}

impl ImmixAllocator {
    /// Fill in the virtual at `addr`; the data behind its fields is zero as it
    /// was allocated.
    #[verifier::rlimit(60)]
    #[verifier::spinoff_prover]
    pub fn alloc_virtual(
        &mut self,
        addr: usize,
        ty: u64,
        fields: usize,
        indexes: Option<&Vec<usize>>,
    )
        requires
            old(self).wf(),
            old(self).space.memory.contains(addr as int),
            (addr - old(self).space.memory.base) % 8 == 0,
            addr - old(self).space.memory.base + 24 + fields * 8 <= old(self).space.memory.size(),
            indexes matches Some(at) ==> at@.len() == fields && forall|i: int|
                0 <= i < fields ==> addr + #[trigger] at@[i] <= usize::MAX,
        ensures
            final(self).wf(),
            *final(self) == (ImmixAllocator {
                space: Space { memory: final(self).space.memory, ..old(self).space },
                ..*old(self)
            }),
            final(self).space.memory.base == old(self).space.memory.base,
            final(self).space.memory.words@ == ({
                let at = (addr - old(self).space.memory.base) / 8;
                let words = virtual_words(
                    addr,
                    ty,
                    fields as nat,
                    match indexes {
                        Some(v) => Some(v@),
                        None => None,
                    },
                );
                Seq::new(
                    old(self).space.memory.words@.len(),
                    |k: int|
                        if at <= k < at + words.len() {
                            words[k - at]
                        } else {
                            old(self).space.memory.words@[k]
                        },
                )
            }),
    {
        let ghost before = self.space.memory.words@;
        let ghost at = (addr - self.space.memory.base) / 8;
        let ghost words = virtual_words(
            addr,
            ty,
            fields as nat,
            match indexes {
                Some(v) => Some(v@),
                None => None,
            },
        );
        let n: usize = fields + 3;
        let mut i: usize = 0;
        while i < n
            invariant
                old(self).wf(),
                n == fields + 3,
                i <= n,
                before == old(self).space.memory.words@,
                old(self).space.memory.contains(addr as int),
                (addr - old(self).space.memory.base) % 8 == 0,
                at == (addr - old(self).space.memory.base) / 8,
                addr - old(self).space.memory.base + 24 + fields * 8
                    <= old(self).space.memory.size(),
                indexes matches Some(v) ==> v@.len() == fields && forall|k: int|
                    0 <= k < fields ==> addr + #[trigger] v@[k] <= usize::MAX,
                words == virtual_words(
                    addr,
                    ty,
                    fields as nat,
                    match indexes {
                        Some(v) => Some(v@),
                        None => None,
                    },
                ),
                self.space.memory.inv(),
                self.space.memory.base == old(self).space.memory.base,
                self.space.memory.words@.len() == before.len(),
                forall|k: int|
                    0 <= k < before.len() ==> #[trigger] self.space.memory.words@[k] == if at <= k
                        < at + i {
                        words[k - at]
                    } else {
                        before[k]
                    },
                self.space.tables == old(self).space.tables,
                self.space.free_blocks == old(self).space.free_blocks,
                self.space.recycle_spans == old(self).space.recycle_spans,
                self.space.allocation_point == old(self).space.allocation_point,
                self.space.current_block_end == old(self).space.current_block_end,
                self.space.tlabs == old(self).space.tlabs,
                self.space.reuse_due == old(self).space.reuse_due,
                self.same_registered(old(self)),
                self.finalizables == old(self).finalizables,
                self.trigger == old(self).trigger,
                self.stats == old(self).stats,
            decreases n - i,
        {
            let word: u64 = if i == 0 {
                ty
            } else if i < 3 {
                0
            } else {
                match indexes {
                    Some(v) => (addr + v[i - 3]) as u64,
                    None => 0,
                }
            };
            assert(word == words[i as int]);
            let _stored: bool = self.space.memory.write(addr + i * 8, word);
            i = i + 1;
        }
        proof {
            self.space.lemma_only_memory(&old(self).space);
            assert(self.space.memory.words@ =~= Seq::new(
                before.len(),
                |k: int|
                    if at <= k < at + words.len() {
                        words[k - at]
                    } else {
                        before[k]
                    },
            ));
        }
    }
}

} // verus!
