//! What a collection keeps, told from where each root is held, and what keeps
//! it.

use vstd::prelude::*;

use crate::heap::collect::{register_words, Collection};
use crate::heap::handles::{Handle, HandleSlot, HandleTable};
use crate::heap::hooks::TypeHooks;
use crate::heap::immix::ImmixAllocator;
use crate::heap::layout::kind_bits;
use crate::heap::laws::lemma_marked_survives;
use crate::heap::mutators::MutatorSnapshot;
use crate::heap::roots::{candidates, readings};
use crate::heap::space::Space;
use crate::heap::tables::Tables;

verus! {

/// A part of a sequence is in the whole.
proof fn lemma_part(a: Seq<u64>, b: Seq<u64>, c: Seq<u64>, w: u64)
    requires
        b.contains(w),
    ensures
        (a + b + c).contains(w),
{
    let i = choose|i: int| 0 <= i < b.len() && b[i] == w;
    assert((a + b + c)[a.len() + i] == w);
}

/// The marker reads every word as it stands.
proof fn lemma_read_plain(words: Seq<u64>, i: int)
    requires
        0 <= i < words.len(),
    ensures
        candidates(words).contains(words[i]),
        words[i] & 0xFFF8_0000_0000_0000 == 0x7FF8_0000_0000_0000 ==> candidates(words).contains(
            words[i] & 0x0000_FFFF_FFFF_FFFF,
        ),
    decreases words.len(),
{
    let init = candidates(words.drop_last());
    let all = candidates(words);
    if i == words.len() - 1 {
        assert(all[init.len() as int] == words[i]);
        if words[i] & 0xFFF8_0000_0000_0000 == 0x7FF8_0000_0000_0000 {
            assert(all[init.len() as int + 1] == words[i] & 0x0000_FFFF_FFFF_FFFF);
        }
    } else {
        assert(words.drop_last()[i] == words[i]);
        lemma_read_plain(words.drop_last(), i);
        lemma_part(Seq::empty(), init, readings(words.last()), words[i]);
        assert(Seq::<u64>::empty() + init + readings(words.last()) =~= all);
        if words[i] & 0xFFF8_0000_0000_0000 == 0x7FF8_0000_0000_0000 {
            lemma_part(
                Seq::empty(),
                init,
                readings(words.last()),
                words[i] & 0x0000_FFFF_FFFF_FFFF,
            );
        }
    }
}

/// What the marker reads is a word, or what a word boxes.
proof fn lemma_read_from(words: Seq<u64>, w: u64)
    requires
        candidates(words).contains(w),
    ensures
        exists|i: int|
            0 <= i < words.len() && (w == #[trigger] words[i] || (words[i] & 0xFFF8_0000_0000_0000
                == 0x7FF8_0000_0000_0000 && w == words[i] & 0x0000_FFFF_FFFF_FFFF)),
    decreases words.len(),
{
    let all = candidates(words);
    let k = choose|k: int| 0 <= k < all.len() && all[k] == w;
    if words.len() > 0 {
        let init = candidates(words.drop_last());
        if k < init.len() {
            assert(init[k] == w);
            lemma_read_from(words.drop_last(), w);
            let i = choose|i: int|
                0 <= i < words.len() - 1 && (w == #[trigger] words.drop_last()[i] || (
                words.drop_last()[i] & 0xFFF8_0000_0000_0000 == 0x7FF8_0000_0000_0000 && w
                    == words.drop_last()[i] & 0x0000_FFFF_FFFF_FFFF));
            assert(words[i] == words.drop_last()[i]);
        } else {
            assert(readings(words.last())[k - init.len()] == w);
            assert(words[words.len() - 1] == words.last());
        }
    }
}

/// A stopped mutator's saved registers are read.
proof fn lemma_read_registers(mutators: Seq<MutatorSnapshot>, collector: u64, n: int, i: int)
    requires
        0 <= n < mutators.len(),
        mutators[n].thread != collector,
        mutators[n].stack_sp != 0,
        0 <= i < 10,
    ensures
        register_words(mutators, collector).contains(mutators[n].saved_regs[i]),
    decreases mutators.len(),
{
    let init = register_words(mutators.drop_last(), collector);
    let m = mutators.last();
    if n == mutators.len() - 1 {
        lemma_read_plain(m.saved_regs@, i);
        lemma_part(init, candidates(m.saved_regs@), Seq::empty(), m.saved_regs[i]);
        assert(init + candidates(m.saved_regs@) + Seq::<u64>::empty() =~= register_words(
            mutators,
            collector,
        ));
    } else {
        assert(mutators.drop_last()[n] == mutators[n]);
        lemma_read_registers(mutators.drop_last(), collector, n, i);
        let w = mutators[n].saved_regs[i];
        if m.thread != collector && m.stack_sp != 0 {
            lemma_part(Seq::empty(), init, candidates(m.saved_regs@), w);
            assert(Seq::<u64>::empty() + init + candidates(m.saved_regs@) =~= register_words(
                mutators,
                collector,
            ));
        }
    }
}

proof fn lemma_from_registers(mutators: Seq<MutatorSnapshot>, collector: u64, w: u64)
    requires
        register_words(mutators, collector).contains(w),
    ensures
        exists|n: int, i: int|
            #![trigger mutators[n].saved_regs@[i]]
            0 <= n < mutators.len() && 0 <= i < 10 && mutators[n].thread != collector && (w
                == mutators[n].saved_regs@[i] || w == mutators[n].saved_regs@[i]
                & 0x0000_FFFF_FFFF_FFFF),
    decreases mutators.len(),
{
    let all = register_words(mutators, collector);
    let k = choose|k: int| 0 <= k < all.len() && all[k] == w;
    if mutators.len() > 0 {
        let front = mutators.drop_last();
        let init = register_words(front, collector);
        let m = mutators.last();
        if k < init.len() {
            assert(init[k] == w);
            lemma_from_registers(front, collector, w);
            let (n, i) = choose|n: int, i: int|
                #![trigger front[n].saved_regs@[i]]
                0 <= n < front.len() && 0 <= i < 10 && front[n].thread != collector && (w
                    == front[n].saved_regs@[i] || w == front[n].saved_regs@[i]
                    & 0x0000_FFFF_FFFF_FFFF);
            assert(mutators[n].saved_regs@[i] == front[n].saved_regs@[i]);
        } else {
            assert(candidates(m.saved_regs@)[k - init.len()] == w);
            lemma_read_from(m.saved_regs@, w);
            let i = choose|i: int|
                0 <= i < m.saved_regs@.len() && (w == #[trigger] m.saved_regs@[i] || (
                m.saved_regs@[i] & 0xFFF8_0000_0000_0000 == 0x7FF8_0000_0000_0000 && w
                    == m.saved_regs@[i] & 0x0000_FFFF_FFFF_FFFF));
            let n = mutators.len() - 1;
            assert(mutators[n].saved_regs@[i] == m.saved_regs@[i]);
        }
    }
}

/// Where the parts of the marker's words stand.
proof fn lemma_root_parts(
    gc: &ImmixAllocator,
    mutators: Seq<MutatorSnapshot>,
    collector: u64,
    words: Seq<u64>,
    w: u64,
)
    ensures
        gc.root_words(mutators, collector, words).contains(w) <==> gc.roots.globals@.contains(w)
            || gc.roots.stack_roots@.contains(w) || gc.roots.persistent_roots@.contains(w)
            || HandleTable::roots(gc.handles.slots@).contains(w) || candidates(words).contains(w)
            || register_words(mutators, collector).contains(w),
{
    let a = gc.roots.globals@;
    let b = gc.roots.stack_roots@;
    let c = gc.roots.persistent_roots@;
    let d = HandleTable::roots(gc.handles.slots@);
    let e = candidates(words);
    let f = register_words(mutators, collector);
    let none = Seq::<u64>::empty();
    let all = gc.root_words(mutators, collector, words);
    assert(none + a + (b + c + d + e + f) =~= all);
    assert(a + b + (c + d + e + f) =~= all);
    assert((a + b) + c + (d + e + f) =~= all);
    assert((a + b + c) + d + (e + f) =~= all);
    assert((a + b + c + d) + e + f =~= all);
    assert((a + b + c + d + e) + f + none =~= all);
    if a.contains(w) {
        lemma_part(none, a, b + c + d + e + f, w);
    }
    if b.contains(w) {
        lemma_part(a, b, c + d + e + f, w);
    }
    if c.contains(w) {
        lemma_part(a + b, c, d + e + f, w);
    }
    if d.contains(w) {
        lemma_part(a + b + c, d, e + f, w);
    }
    if e.contains(w) {
        lemma_part(a + b + c + d, e, f, w);
    }
    if f.contains(w) {
        lemma_part(a + b + c + d + e, f, none, w);
    }
    if all.contains(w) {
        let k = choose|k: int| 0 <= k < all.len() && all[k] == w;
        if k < a.len() {
            assert(a[k] == w);
        } else if k < a.len() + b.len() {
            assert(b[k - a.len()] == w);
        } else if k < a.len() + b.len() + c.len() {
            assert(c[k - a.len() - b.len()] == w);
        } else if k < a.len() + b.len() + c.len() + d.len() {
            assert(d[k - a.len() - b.len() - c.len()] == w);
        } else if k < a.len() + b.len() + c.len() + d.len() + e.len() {
            assert(e[k - a.len() - b.len() - c.len() - d.len()] == w);
        } else {
            assert(f[k - a.len() - b.len() - c.len() - d.len() - e.len()] == w);
        }
    }
}

/// A word among the roots is followed.
proof fn lemma_root_marked<H: TypeHooks>(
    gc: &ImmixAllocator,
    m: &Tables,
    hooks: &H,
    mutators: Seq<MutatorSnapshot>,
    collector: u64,
    words: Seq<u64>,
    w: u64,
    q: int,
)
    requires
        gc.wf(),
        m.marked_from(
            &gc.space.tables,
            &gc.space.memory,
            hooks,
            gc.root_words(mutators, collector, words),
        ),
        gc.root_words(mutators, collector, words).contains(w),
        gc.addr_in(w as int, q),
    ensures
        m.claimed(q),
{
    let all = gc.root_words(mutators, collector, words);
    let k = choose|k: int| 0 <= k < all.len() && all[k] == w;
    m.lemma_same_starts(&gc.space.tables);
    assert(m.is_start(q));
    assert(m.extent(q) == gc.space.tables.extent(q));
    assert(m.points_at(&gc.space.memory, all[k], q));
}

/// An address lies in an allocation exactly when it is one of the allocation's
/// bytes, from its first to its last.
pub proof fn law_an_allocation_is_its_bytes(gc: &ImmixAllocator, addr: int, q: int)
    requires
        gc.wf(),
        gc.space.tables.is_start(q),
    ensures
        gc.addr_in(addr, q) <==> gc.space.memory.base + q * 16 <= addr < gc.space.memory.base + (q
            + gc.space.tables.extent(q)) * 16,
{
    let t = gc.space.tables;
    assert(t.entry_ok(q));
    t.lemma_line_in_heap(q, (q + t.extent(q) - 1) / 8);
}

/// A marking claims what every registered root points into: the globals, the
/// stack roots and the persistent ones, whether or not anything else points
/// there.
pub proof fn law_registered_roots_are_marked<H: TypeHooks>(
    gc: &ImmixAllocator,
    m: &Tables,
    hooks: &H,
    mutators: Seq<MutatorSnapshot>,
    collector: u64,
    words: Seq<u64>,
    w: u64,
    q: int,
)
    requires
        gc.wf(),
        m.marked_from(
            &gc.space.tables,
            &gc.space.memory,
            hooks,
            gc.root_words(mutators, collector, words),
        ),
        gc.roots.globals@.contains(w) || gc.roots.stack_roots@.contains(w)
            || gc.roots.persistent_roots@.contains(w),
        gc.addr_in(w as int, q),
    ensures
        m.claimed(q),
{
    lemma_root_parts(gc, mutators, collector, words, w);
    lemma_root_marked(gc, m, hooks, mutators, collector, words, w, q);
}

/// A marking claims what the words read outside the heap point into, whether a
/// word is the address itself or boxes it.
pub proof fn law_scanned_words_are_marked<H: TypeHooks>(
    gc: &ImmixAllocator,
    m: &Tables,
    hooks: &H,
    mutators: Seq<MutatorSnapshot>,
    collector: u64,
    words: Seq<u64>,
    i: int,
    q: int,
)
    requires
        gc.wf(),
        m.marked_from(
            &gc.space.tables,
            &gc.space.memory,
            hooks,
            gc.root_words(mutators, collector, words),
        ),
        0 <= i < words.len(),
        gc.addr_in(words[i] as int, q) || (words[i] & 0xFFF8_0000_0000_0000
            == 0x7FF8_0000_0000_0000 && gc.addr_in((words[i] & 0x0000_FFFF_FFFF_FFFF) as int, q)),
    ensures
        m.claimed(q),
{
    lemma_read_plain(words, i);
    let w = if gc.addr_in(words[i] as int, q) {
        words[i]
    } else {
        words[i] & 0x0000_FFFF_FFFF_FFFF
    };
    lemma_root_parts(gc, mutators, collector, words, w);
    lemma_root_marked(gc, m, hooks, mutators, collector, words, w, q);
}

/// A marking claims what the registers of a stopped mutator point into.
pub proof fn law_saved_registers_are_marked<H: TypeHooks>(
    gc: &ImmixAllocator,
    m: &Tables,
    hooks: &H,
    mutators: Seq<MutatorSnapshot>,
    collector: u64,
    words: Seq<u64>,
    n: int,
    i: int,
    q: int,
)
    requires
        gc.wf(),
        m.marked_from(
            &gc.space.tables,
            &gc.space.memory,
            hooks,
            gc.root_words(mutators, collector, words),
        ),
        0 <= n < mutators.len(),
        mutators[n].thread != collector,
        mutators[n].stack_sp != 0,
        0 <= i < 10,
        gc.addr_in(mutators[n].saved_regs[i] as int, q),
    ensures
        m.claimed(q),
{
    let w = mutators[n].saved_regs[i];
    lemma_read_registers(mutators, collector, n, i);
    lemma_root_parts(gc, mutators, collector, words, w);
    lemma_root_marked(gc, m, hooks, mutators, collector, words, w, q);
}

/// A collection keeps what every registered root points into: the allocation
/// has its place, its size and its words afterwards, and is still registered.
pub proof fn law_registered_roots_are_kept<H: TypeHooks>(
    before: &ImmixAllocator,
    after: &ImmixAllocator,
    hooks: &H,
    mutators: Seq<MutatorSnapshot>,
    words: Seq<u64>,
    c: Collection,
    m: Tables,
    f: Tables,
    d: Space,
    w: u64,
    q: int,
)
    requires
        before.wf(),
        before.claims_ok(),
        after.cycled(before, hooks, mutators, words, c, m, f, d),
        before.roots.globals@.contains(w) || before.roots.stack_roots@.contains(w)
            || before.roots.persistent_roots@.contains(w),
        before.addr_in(w as int, q),
    ensures
        after.kept(before, q),
        after.roots == before.roots,
{
    law_registered_roots_are_marked(before, &m, hooks, mutators, c.collector, words, w, q);
    lemma_marked_survives(before, after, hooks, mutators, words, c, m, f, d, q);
}

/// A collection keeps what the words read outside the heap point into.
pub proof fn law_scanned_words_are_kept<H: TypeHooks>(
    before: &ImmixAllocator,
    after: &ImmixAllocator,
    hooks: &H,
    mutators: Seq<MutatorSnapshot>,
    words: Seq<u64>,
    c: Collection,
    m: Tables,
    f: Tables,
    d: Space,
    i: int,
    q: int,
)
    requires
        before.wf(),
        before.claims_ok(),
        after.cycled(before, hooks, mutators, words, c, m, f, d),
        0 <= i < words.len(),
        before.addr_in(words[i] as int, q),
    ensures
        after.kept(before, q),
{
    law_scanned_words_are_marked(before, &m, hooks, mutators, c.collector, words, i, q);
    lemma_marked_survives(before, after, hooks, mutators, words, c, m, f, d, q);
}

/// A collection keeps what the registers of a stopped mutator point into.
pub proof fn law_saved_registers_are_kept<H: TypeHooks>(
    before: &ImmixAllocator,
    after: &ImmixAllocator,
    hooks: &H,
    mutators: Seq<MutatorSnapshot>,
    words: Seq<u64>,
    c: Collection,
    m: Tables,
    f: Tables,
    d: Space,
    n: int,
    i: int,
    q: int,
)
    requires
        before.wf(),
        before.claims_ok(),
        after.cycled(before, hooks, mutators, words, c, m, f, d),
        0 <= n < mutators.len(),
        mutators[n].thread != c.collector,
        mutators[n].stack_sp != 0,
        0 <= i < 10,
        before.addr_in(mutators[n].saved_regs[i] as int, q),
    ensures
        after.kept(before, q),
{
    law_saved_registers_are_marked(before, &m, hooks, mutators, c.collector, words, n, i, q);
    lemma_marked_survives(before, after, hooks, mutators, words, c, m, f, d, q);
}

/// What a newly marked block holds is marked too: any word of a block that is
/// neither without pointers nor walked by a descriptor is followed, wherever in
/// the block it stands.
pub proof fn law_words_of_the_marked_are_followed<H: TypeHooks>(
    gc: &ImmixAllocator,
    m: &Tables,
    hooks: &H,
    roots: Seq<u64>,
    p: int,
    k: int,
    q: int,
)
    requires
        gc.wf(),
        m.marked_from(&gc.space.tables, &gc.space.memory, hooks, roots),
        m.claimed(p),
        !gc.space.tables.claimed(p),
        gc.space.tables.objects[p] & 0x60 == 0,
        p * 2 <= k < (p + gc.space.tables.extent(p)) * 2,
        gc.addr_in(gc.space.memory.words[k] as int, q),
    ensures
        m.claimed(q),
{
    let t = gc.space.tables;
    let mem = gc.space.memory;
    m.lemma_same_starts(&t);
    assert(m.newly(&t, p));
    assert(kind_bits(t.objects[p]) == 0);
    let held = t.edges(&mem, hooks, p);
    assert(t.is_start(p));
    assert(t.entry_ok(p));
    t.lemma_line_in_heap(p, (p + t.extent(p) - 1) / 8);
    assert(held[k - p * 2] == mem.words[k]);
    assert(m.is_start(q));
    assert(m.extent(q) == t.extent(q));
    assert(m.points_at(&mem, held[k - p * 2], q));
}

/// What a newly marked traced object names through its descriptor is marked too.
pub proof fn law_targets_of_the_marked_are_followed<H: TypeHooks>(
    gc: &ImmixAllocator,
    m: &Tables,
    hooks: &H,
    roots: Seq<u64>,
    p: int,
    k: int,
    q: int,
)
    requires
        gc.wf(),
        m.marked_from(&gc.space.tables, &gc.space.memory, hooks, roots),
        m.claimed(p),
        !gc.space.tables.claimed(p),
        gc.space.tables.objects[p] & 0x60 == 0x40,
        gc.space.memory.words[p * 2] != 0,
        hooks.traces(gc.space.memory.words[p * 2]),
        ({
            let named = hooks.targets(
                gc.space.memory.words[p * 2],
                (gc.space.memory.base + p * 16) as usize,
                gc.space.memory.words@.subrange(p * 2, (p + gc.space.tables.extent(p)) * 2),
            );
            0 <= k < named.len() && gc.addr_in(named[k] as int, q)
        }),
    ensures
        m.claimed(q),
{
    let t = gc.space.tables;
    let mem = gc.space.memory;
    m.lemma_same_starts(&t);
    assert(m.newly(&t, p));
    assert(kind_bits(t.objects[p]) == 0x40);
    assert(t.is_start(p));
    assert(t.entry_ok(p));
    t.lemma_line_in_heap(p, (p + t.extent(p) - 1) / 8);
    let held = t.edges(&mem, hooks, p);
    assert(t.object_words(&mem, p)[0] == mem.words[p * 2]);
    assert(m.is_start(q));
    assert(m.extent(q) == t.extent(q));
    assert(m.points_at(&mem, held[k], q));
}

/// Nothing is marked without a cause: what a marking newly claims is pointed into
/// by a registered root, a live handle, a word read outside the heap or a saved
/// register, or by something the marking claims.
pub proof fn law_marked_for_a_cause<H: TypeHooks>(
    gc: &ImmixAllocator,
    m: &Tables,
    hooks: &H,
    mutators: Seq<MutatorSnapshot>,
    collector: u64,
    words: Seq<u64>,
    q: int,
)
    requires
        gc.wf(),
        gc.unclaimed(),
        m.marked_from(
            &gc.space.tables,
            &gc.space.memory,
            hooks,
            gc.root_words(mutators, collector, words),
        ),
        m.claimed(q),
    ensures
        ({
            ||| exists|w: u64|
                gc.addr_in(w as int, q) && (#[trigger] gc.roots.globals@.contains(w)
                    || gc.roots.stack_roots@.contains(w) || gc.roots.persistent_roots@.contains(w))
            ||| exists|h: Handle|
                #[trigger] gc.handles.live(h) is Some && gc.addr_in(
                    (gc.handles.live(h)->0).0 as int,
                    q,
                )
            ||| exists|i: int|
                0 <= i < words.len() && (gc.addr_in(#[trigger] words[i] as int, q) || gc.addr_in(
                    (words[i] & 0x0000_FFFF_FFFF_FFFF) as int,
                    q,
                ))
            ||| exists|n: int, i: int|
                #![trigger mutators[n].saved_regs@[i]]
                0 <= n < mutators.len() && 0 <= i < 10 && mutators[n].thread != collector && (
                gc.addr_in(mutators[n].saved_regs@[i] as int, q) || gc.addr_in(
                    (mutators[n].saved_regs@[i] & 0x0000_FFFF_FFFF_FFFF) as int,
                    q,
                ))
            ||| exists|p: int|
                #[trigger] m.claimed(p) && gc.space.tables.step(&gc.space.memory, hooks, p, q)
        }),
{
    let t = gc.space.tables;
    let mem = gc.space.memory;
    let all = gc.root_words(mutators, collector, words);
    assert(!t.claimed(q));
    assert(m.newly(&t, q));
    let n = choose|n: nat| t.word_reach(&mem, hooks, all, n, q);
    if n == 0 {
        let k = choose|k: int| 0 <= k < all.len() && #[trigger] t.points_at(&mem, all[k], q);
        let w = all[k];
        assert(all.contains(w));
        assert(gc.addr_in(w as int, q));
        lemma_root_parts(gc, mutators, collector, words, w);
        if HandleTable::roots(gc.handles.slots@).contains(w) {
            let i = lemma_held(gc.handles.slots@, w);
            let h = Handle((i + 1) as u32);
            assert(gc.handles.live(h) is Some);
            assert(gc.addr_in((gc.handles.live(h)->0).0 as int, q));
        } else if candidates(words).contains(w) {
            lemma_read_from(words, w);
        } else if register_words(mutators, collector).contains(w) {
            lemma_from_registers(mutators, collector, w);
        } else {
            assert(gc.roots.globals@.contains(w) || gc.roots.stack_roots@.contains(w)
                || gc.roots.persistent_roots@.contains(w));
        }
    } else {
        let p = choose|p: int|
            t.word_reach(&mem, hooks, all, (n - 1) as nat, p) && t.step(&mem, hooks, p, q);
        crate::heap::trace::law_marks_exactly_the_reached(&t, m, &mem, hooks, all, p);
        assert(t.word_reachable(&mem, hooks, all, p));
        assert(m.claimed(p));
    }
}

/// What the handles hold is a live slot's address.
proof fn lemma_held(slots: Seq<HandleSlot>, w: u64) -> (i: int)
    requires
        HandleTable::roots(slots).contains(w),
    ensures
        0 <= i < slots.len(),
        slots[i].refs != 0,
        slots[i].ptr as u64 == w,
    decreases slots.len(),
{
    let all = HandleTable::roots(slots);
    let k = choose|k: int| 0 <= k < all.len() && all[k] == w;
    let init = HandleTable::roots(slots.drop_last());
    if k < init.len() {
        assert(init[k] == w);
        lemma_held(slots.drop_last(), w)
    } else {
        slots.len() - 1
    }
}

} // verus!
