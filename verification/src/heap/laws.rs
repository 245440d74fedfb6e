//! What holds of every collection, whatever the heap holds.

use vstd::prelude::*;

use crate::heap::collect::{by_claim, offset_words, Collection};
use crate::heap::handles::{Handle, HandleTable};
use crate::heap::hooks::TypeHooks;
use crate::heap::immix::ImmixAllocator;
use crate::heap::layout::{claim_bit, kind_bits};
use crate::heap::memory::HeapMemory;
use crate::heap::mutators::MutatorSnapshot;
use crate::heap::space::Space;
use crate::heap::tables::Tables;
use crate::heap::trace::law_marks_exactly_the_reached;

verus! {

/// Everything the roots reach survives a collection: it keeps its place, its
/// size and its words.
pub proof fn law_reached_survives<H: TypeHooks>(
    before: &ImmixAllocator,
    after: &ImmixAllocator,
    hooks: &H,
    mutators: Seq<MutatorSnapshot>,
    words: Seq<u64>,
    c: Collection,
    m: Tables,
    f: Tables,
    d: Space,
    q: int,
)
    requires
        before.wf(),
        before.claims_ok(),
        before.unclaimed(),
        after.cycled(before, hooks, mutators, words, c, m, f, d),
        before.space.tables.word_reachable(
            &before.space.memory,
            hooks,
            before.root_words(mutators, c.collector, words),
            q,
        ),
    ensures
        after.space.tables.is_start(q),
        after.space.tables.extent(q) == before.space.tables.extent(q),
        forall|k: int|
            q * 2 <= k < (q + before.space.tables.extent(q)) * 2
                ==> #[trigger] after.space.memory.words[k] == before.space.memory.words[k],
{
    let t = before.space.tables;
    let mem = before.space.memory;
    law_marks_exactly_the_reached(
        &t,
        &m,
        &mem,
        hooks,
        before.root_words(mutators, c.collector, words),
        q,
    );
    assert(m.claimed(q));
    lemma_marked_survives(before, after, hooks, mutators, words, c, m, f, d, q);
}

/// What a host claimed before a collection survives it: it keeps its place, its
/// size and its words.
pub proof fn law_claimed_survives<H: TypeHooks>(
    before: &ImmixAllocator,
    after: &ImmixAllocator,
    hooks: &H,
    mutators: Seq<MutatorSnapshot>,
    words: Seq<u64>,
    c: Collection,
    m: Tables,
    f: Tables,
    d: Space,
    q: int,
)
    requires
        before.wf(),
        before.claims_ok(),
        after.cycled(before, hooks, mutators, words, c, m, f, d),
        before.space.tables.claimed(q),
    ensures
        after.space.tables.is_start(q),
        after.space.tables.extent(q) == before.space.tables.extent(q),
        forall|k: int|
            q * 2 <= k < (q + before.space.tables.extent(q)) * 2
                ==> #[trigger] after.space.memory.words[k] == before.space.memory.words[k],
{
    m.lemma_same_starts(&before.space.tables);
    assert(m.claimed(q));
    lemma_marked_survives(before, after, hooks, mutators, words, c, m, f, d, q);
}

/// What the marking claims survives the collection.
pub(crate) proof fn lemma_marked_survives<H: TypeHooks>(
    before: &ImmixAllocator,
    after: &ImmixAllocator,
    hooks: &H,
    mutators: Seq<MutatorSnapshot>,
    words: Seq<u64>,
    c: Collection,
    m: Tables,
    f: Tables,
    d: Space,
    q: int,
)
    requires
        before.wf(),
        before.claims_ok(),
        after.cycled(before, hooks, mutators, words, c, m, f, d),
        m.claimed(q),
    ensures
        after.space.tables.is_start(q),
        after.space.tables.extent(q) == before.space.tables.extent(q),
        forall|k: int|
            q * 2 <= k < (q + before.space.tables.extent(q)) * 2
                ==> #[trigger] after.space.memory.words[k] == before.space.memory.words[k],
{
    let t = before.space.tables;
    let mem = before.space.memory;
    assert(f.claimed(q));
    m.lemma_same_starts(&t);
    f.lemma_same_starts(&m);
    lemma_claimed_survives(after, d, f, c, q);
    assert(t.is_start(q));
    assert(m.extent(q) == t.extent(q));
    assert(f.extent(q) == m.extent(q));
    assert forall|k: int| q * 2 <= k < (q + t.extent(q)) * 2 implies #[trigger]
    after.space.memory.words[k] == mem.words[k] by {
        assert(f.entry_ok(q));
        let l = k / 16;
        assert(f.on_line(q, l));
        assert(d.tables.is_start(q));
        assert(d.tables.on_line(q, l));
        d.tables.lemma_line_in_heap(q, l);
        let b = l / 256;
        assert(k / 4096 == b);
        d.lemma_blocks_kept(q, l, c.opts);
        assert(after.space.block_swept(&d, b, c.opts));
    }
}

/// A claimed allocation survives the drop pass and the sweep.
proof fn lemma_claimed_survives(
    after: &ImmixAllocator,
    d: Space,
    f: Tables,
    c: Collection,
    q: int,
)
    requires
        f.inv(),
        f.sound(),
        f.marks_whole(),
        f.marks_seen(),
        f.claims_held(),
        d.wf(),
        d.tables.dropped_below(&f, f.objects.len() as int),
        d.tables.drop_flags(&f, f.blocks.len() as int),
        after.space.swept(&d, c.opts),
        f.claimed(q),
    ensures
        d.tables.is_start(q),
        d.tables.marks_whole(),
        d.tables.marks_seen(),
        !d.frees(q / 2048, c.opts),
        after.space.tables.is_start(q),
        after.space.tables.extent(q) == f.extent(q),
{
    d.tables.lemma_dropped_claims(&f);
    assert(d.tables.claimed(q));
    assert(d.tables.is_start(q));
    assert(d.tables.entry_ok(q));
    assert(d.tables.on_line(q, q / 8));
    d.tables.lemma_line_in_heap(q, q / 8);
    assert(d.tables.marked_line(q / 8));
    let b = q / 2048;
    assert(!d.frees(b, c.opts)) by {
        if d.frees(b, c.opts) {
            assert(d.tables.blocks[b].clear());
            assert(!d.tables.blocks[b].marked((q / 8) % 256));
        }
    }
    after.space.lemma_swept_starts(&d, c.opts);
    assert(after.space.tables.is_start(q));
    assert(after.space.tables.code(q) == d.tables.code(q));
    if d.tables.code(q) == 9 {
        assert(after.space.tables.alloc_sizes[q / 8] == d.tables.alloc_sizes[q / 8]);
    }
}

/// A collection makes no allocation: what stands after one stood before.
pub proof fn law_collection_adds_nothing<H: TypeHooks>(
    before: &ImmixAllocator,
    after: &ImmixAllocator,
    hooks: &H,
    mutators: Seq<MutatorSnapshot>,
    words: Seq<u64>,
    c: Collection,
    m: Tables,
    f: Tables,
    d: Space,
    q: int,
)
    requires
        before.wf(),
        after.cycled(before, hooks, mutators, words, c, m, f, d),
        after.space.tables.is_start(q),
    ensures
        before.space.tables.is_start(q),
{
    after.space.lemma_swept_starts(&d, c.opts);
    d.tables.lemma_dropped_claims(&f);
    f.lemma_same_starts(&m);
    m.lemma_same_starts(&before.space.tables);
    assert(d.tables.is_start(q));
    assert(f.is_start(q));
    assert(m.is_start(q));
}

/// What nothing reaches is reclaimed: a block that holds only allocations that
/// neither the roots nor a block due for its finalizer reach is given back,
/// unless a mutator bumps through it or reclaiming is off.
pub proof fn law_unreached_block_is_freed<H: TypeHooks>(
    before: &ImmixAllocator,
    after: &ImmixAllocator,
    hooks: &H,
    mutators: Seq<MutatorSnapshot>,
    words: Seq<u64>,
    c: Collection,
    m: Tables,
    f: Tables,
    d: Space,
    b: int,
)
    requires
        before.wf(),
        before.unclaimed(),
        after.cycled(before, hooks, mutators, words, c, m, f, d),
        0 <= b < before.space.tables.blocks.len(),
        before.space.tables.blocks[b].used,
        !before.space.tlab_block(b),
        !c.opts.no_reclaim,
        forall|q: int, l: int| #[trigger]
            before.space.tables.on_line(q, l) && l / 256 == b ==> !before.space.tables.word_reachable(
                &before.space.memory,
                hooks,
                before.root_words(mutators, c.collector, words),
                q,
            ) && !m.word_reachable(
                &before.space.memory,
                hooks,
                offset_words(
                    before.space.memory.base,
                    by_claim(m, before.finalizables@, false),
                ),
                q,
            ),
    ensures
        !after.space.tables.blocks[b].used,
        forall|q: int| b * 2048 <= q < (b + 1) * 2048 ==> !#[trigger] after.space.tables.is_start(q),
{
    let t = before.space.tables;
    assert forall|i: int| 0 <= i < 256 implies !#[trigger] d.tables.blocks[b].marked(i) by {
        let l = b * 256 + i;
        assert(l / 256 == b && l % 256 == i);
        assert(!t.marked_line(l)) by {
            assert(t.blocks[b].clear());
        }
        assert(!m.marked_line(l)) by {
            if m.marked_line(l) {
                let q = choose|q: int| #[trigger] m.newly(&t, q) && t.on_line(q, l);
                assert(t.on_line(q, l));
            }
        }
        assert(!f.marked_line(l)) by {
            if f.marked_line(l) {
                let q = choose|q: int| #[trigger] f.newly(&m, q) && m.on_line(q, l);
                m.lemma_same_starts(&t);
                assert(m.is_start(q));
                assert(t.is_start(q));
                assert(m.extent(q) == t.extent(q));
                assert(t.on_line(q, l));
            }
        }
        assert(d.tables.blocks[b].mark_bits == f.blocks[b].mark_bits);
    }
    assert(d.tables.blocks[b].clear());
    assert(d.tables.blocks[b].used) by {
        assert(m.blocks[b].used == t.blocks[b].used);
        assert(f.blocks[b].used == m.blocks[b].used);
    }
    assert(d.frees(b, c.opts));
    assert(after.space.block_swept(&d, b, c.opts));
    assert forall|q: int| b * 2048 <= q < (b + 1) * 2048 implies !#[trigger] after.space.tables.is_start(
        q,
    ) by {
        assert(after.space.tables.objects[q] == d.swept_byte(b, q, c.opts));
        crate::heap::layout::lemma_plain_code(0);
    }
}

/// A finalizer runs at most once: a block whose callback a collection queues
/// has left the table when the collection ends.
pub proof fn law_finalized_once(t: Tables, registered: Seq<usize>, o: usize)
    requires
        by_claim(t, registered, false).contains(o),
    ensures
        !by_claim(t, registered, true).contains(o),
{
    lemma_sorted_by_claim(t, registered, o, true);
    lemma_sorted_by_claim(t, registered, o, false);
}

pub(crate) proof fn lemma_sorted_by_claim(t: Tables, registered: Seq<usize>, o: usize, claimed: bool)
    ensures
        by_claim(t, registered, claimed).contains(o) <==> registered.contains(o) && claim_bit(
            t.objects[o as int / 16],
        ) == claimed,
    decreases registered.len(),
{
    if registered.len() > 0 {
        let front = registered.drop_last();
        let last = registered.last();
        lemma_sorted_by_claim(t, front, o, claimed);
        let init = by_claim(t, front, claimed);
        let all = by_claim(t, registered, claimed);
        if all.contains(o) {
            let k = choose|k: int| 0 <= k < all.len() && all[k] == o;
            if k < init.len() {
                assert(init[k] == o);
                assert(front.contains(o));
                let j = choose|j: int| 0 <= j < front.len() && front[j] == o;
                assert(registered[j] == o);
            } else {
                assert(registered[registered.len() - 1] == o);
            }
        }
        if registered.contains(o) && claim_bit(t.objects[o as int / 16]) == claimed {
            let j = choose|j: int| 0 <= j < registered.len() && registered[j] == o;
            if j < front.len() {
                assert(front[j] == o);
                assert(init.contains(o));
                let k = choose|k: int| 0 <= k < init.len() && init[k] == o;
                assert(all[k] == o);
            } else {
                assert(all[all.len() - 1] == o);
            }
        }
    }
}

/// A block without pointers retains nothing it points at.
pub proof fn law_pointer_free_retains_nothing<H: TypeHooks>(
    t: &Tables,
    mem: &HeapMemory,
    hooks: &H,
    p: int,
    q: int,
)
    requires
        kind_bits(t.objects[p]) == 0x20,
    ensures
        !t.step(mem, hooks, p, q),
{
}

/// A traced object that a cycle drops is forgotten by it, so no later cycle
/// can drop it again.
pub proof fn law_dropped_is_forgotten(before: &Space, after: &Space, q: int)
    requires
        before.wf(),
        after.tables.inv(),
        after.tables.dropped_below(&before.tables, before.tables.objects.len() as int),
        after.tables.drop_flags(&before.tables, before.tables.blocks.len() as int),
        before.tables.dead_traced(q),
    ensures
        !after.tables.is_start(q),
        !after.tables.dead_traced(q),
{
    after.tables.lemma_dropped_claims(&before.tables);
    assert(after.tables.objects[q] == 0);
    crate::heap::layout::lemma_plain_code(0);
    assert(kind_bits(0) == 0);
}

/// No two allocations of a heap in order share a byte.
pub proof fn law_allocations_apart(s: &Space, p: int, q: int, offset: int)
    requires
        s.wf(),
        s.tables.holds(p, offset),
        s.tables.holds(q, offset),
    ensures
        p == q,
{
    s.tables.lemma_unique(p, q, offset);
}

/// A live handle's object is a root: a collection keeps it.
pub proof fn law_handle_roots<H: TypeHooks>(
    gc: &ImmixAllocator,
    hooks: &H,
    mutators: Seq<MutatorSnapshot>,
    collector: u64,
    words: Seq<u64>,
    h: Handle,
    q: int,
)
    requires
        gc.wf(),
        gc.handles.live(h) is Some,
        gc.addr_in((gc.handles.live(h)->0).0 as int, q),
    ensures
        gc.space.tables.word_reachable(
            &gc.space.memory,
            hooks,
            gc.root_words(mutators, collector, words),
            q,
        ),
{
    gc.handles.lemma_roots(h);
    let w = (gc.handles.live(h)->0).0 as u64;
    let held = HandleTable::roots(gc.handles.slots@);
    let i = choose|i: int| 0 <= i < held.len() && held[i] == w;
    let all = gc.root_words(mutators, collector, words);
    let front = gc.roots.globals@ + gc.roots.stack_roots@ + gc.roots.persistent_roots@;
    assert(all[front.len() + i] == w);
    assert(gc.space.tables.points_at(&gc.space.memory, all[front.len() + i], q));
    assert(gc.space.tables.pointed(&gc.space.memory, all, q));
    assert(gc.space.tables.word_reach(&gc.space.memory, hooks, all, 0, q));
}

/// A neighbour is not retained: an allocation that no root and no other
/// allocation points into is not reached, whatever shares its lines, and a
/// marking does not claim it.
pub proof fn law_unpointed_is_not_claimed<H: TypeHooks>(
    before: &Tables,
    after: &Tables,
    mem: &HeapMemory,
    hooks: &H,
    words: Seq<u64>,
    q: int,
)
    requires
        after.marked_from(before, mem, hooks, words),
        !before.claimed(q),
        !before.pointed(mem, words, q),
        forall|p: int| !#[trigger] before.step(mem, hooks, p, q),
    ensures
        !before.word_reachable(mem, hooks, words, q),
        !after.claimed(q),
{
    assert forall|n: nat| !#[trigger] before.word_reach(mem, hooks, words, n, q) by {}
    if after.claimed(q) {
        assert(after.newly(before, q));
    }
}

/// A claim ends with the cycle it was made in, and what it claimed outlives it:
/// after the collection the allocation stands as it stood, and no address in it
/// is claimed.
pub proof fn law_claim_ends_with_the_cycle<H: TypeHooks>(
    before: &ImmixAllocator,
    after: &ImmixAllocator,
    hooks: &H,
    mutators: Seq<MutatorSnapshot>,
    words: Seq<u64>,
    c: Collection,
    m: Tables,
    f: Tables,
    d: Space,
    addr: int,
    q: int,
)
    requires
        before.wf(),
        before.claims_ok(),
        after.cycled(before, hooks, mutators, words, c, m, f, d),
        after.unclaimed(),
        before.addr_in(addr, q),
        before.space.tables.claimed(q),
    ensures
        after.addr_in(addr, q),
        after.space.tables.extent(q) == before.space.tables.extent(q),
        !after.space.tables.claimed(q),
{
    law_claimed_survives(before, after, hooks, mutators, words, c, m, f, d, q);
    assert(after.space.memory.words.len() == before.space.memory.words.len());
}

/// A collection keeps what the handles hold: each live handle's object keeps its
/// place, its size and its words.
pub proof fn law_handles_keep_their_objects<H: TypeHooks>(
    before: &ImmixAllocator,
    after: &ImmixAllocator,
    hooks: &H,
    mutators: Seq<MutatorSnapshot>,
    words: Seq<u64>,
    c: Collection,
    m: Tables,
    f: Tables,
    d: Space,
    h: Handle,
    q: int,
)
    requires
        before.wf(),
        before.claims_ok(),
        after.cycled(before, hooks, mutators, words, c, m, f, d),
        before.handles.live(h) is Some,
        before.addr_in((before.handles.live(h)->0).0 as int, q),
    ensures
        after.handles.live(h) == before.handles.live(h),
        after.kept(before, q),
{
    let w = (before.handles.live(h)->0).0 as u64;
    before.handles.lemma_roots(h);
    let held = HandleTable::roots(before.handles.slots@);
    let i = choose|i: int| 0 <= i < held.len() && held[i] == w;
    let all = before.root_words(mutators, c.collector, words);
    let front = before.roots.globals@ + before.roots.stack_roots@ + before.roots.persistent_roots@;
    let k = front.len() + i;
    assert(all[k] == w);
    m.lemma_same_starts(&before.space.tables);
    assert(before.space.tables.points_at(&before.space.memory, all[k], q));
    assert(m.points_at(&before.space.memory, all[k], q));
    assert(m.claimed(q));
    lemma_marked_survives(before, after, hooks, mutators, words, c, m, f, d, q);
    assert(after.space.memory.words.len() == before.space.memory.words.len());
}

impl ImmixAllocator {
    /// The allocation at quantum `q` stands as it did in `before`: in its place,
    /// of its size, with its words.
    pub open spec fn kept(&self, before: &ImmixAllocator, q: int) -> bool {
        &&& self.space.memory.base == before.space.memory.base
        &&& self.space.tables.is_start(q)
        &&& self.space.tables.extent(q) == before.space.tables.extent(q)
        &&& forall|k: int|
            q * 2 <= k < (q + before.space.tables.extent(q)) * 2
                ==> #[trigger] self.space.memory.words[k] == before.space.memory.words[k]
    }
}

} // verus!
