//! What holds of memory as it is granted and given back.

use vstd::prelude::*;

use crate::heap::block::Block;
use crate::heap::collect::{by_claim, due_finalizers};
use crate::heap::grant::{granted, Attempt, Grant};
use crate::heap::handback::{findings, found_in, resident, surplus, Finding};
use crate::heap::harvest::occupancy_bar_of;
use crate::heap::hooks::{field_words, TypeHooks};
use crate::heap::immix::ImmixAllocator;
use crate::heap::layout::{claim_bit, kind_bits};
use crate::heap::laws::lemma_sorted_by_claim;
use crate::heap::memory::HeapMemory;
use crate::heap::space::Space;
use crate::heap::sweep::SweepOptions;
use crate::heap::tables::Tables;

verus! {

// Finalizers and drops.

/// A registered block that the marking reached stays registered and is not
/// finalized; one that it did not leaves the table, and its callback is queued with
/// the word that names it, unless that word is null.
pub proof fn law_the_dead_are_finalized(
    mem: HeapMemory,
    t: Tables,
    registered: Seq<usize>,
    o: usize,
)
    requires
        registered.contains(o),
        forall|i: int|
            0 <= i < registered.len() ==> mem.base + (#[trigger] registered[i]) <= usize::MAX,
    ensures
        ({
            let queued = due_finalizers(mem, by_claim(t, registered, false));
            let reached = t.objects[o as int / 16] & 0x80 != 0;
            let word = mem.words[o as int / 8];
            &&& by_claim(t, registered, true).contains(o) <==> reached
            &&& !reached && word != 0 ==> queued.contains(((mem.base + o) as usize, word))
            &&& reached || word == 0 ==> forall|w: u64|
                !(#[trigger] queued.contains(((mem.base + o) as usize, w)))
        }),
{
    lemma_sorted_by_claim(t, registered, o, true);
    lemma_sorted_by_claim(t, registered, o, false);
    let dead = by_claim(t, registered, false);
    let reached = t.objects[o as int / 16] & 0x80 != 0;
    let word = mem.words[o as int / 8];
    assert(claim_bit(t.objects[o as int / 16]) == reached);
    let k = choose|k: int| 0 <= k < registered.len() && registered[k] == o;
    assert(mem.base + registered[k] <= usize::MAX);
    assert forall|i: int| 0 <= i < dead.len() implies mem.base + (#[trigger] dead[i])
        <= usize::MAX by {
        assert(dead.contains(dead[i]));
        lemma_sorted_by_claim(t, registered, dead[i], false);
        let j = choose|j: int| 0 <= j < registered.len() && registered[j] == dead[i];
        assert(mem.base + registered[j] <= usize::MAX);
    }
    lemma_queued(mem, dead, o, word);
    if reached || word == 0 {
        assert forall|w: u64| !(#[trigger] due_finalizers(mem, dead).contains(
            ((mem.base + o) as usize, w),
        )) by {
            lemma_queued(mem, dead, o, w);
        }
    }
}

proof fn lemma_queued(mem: HeapMemory, dead: Seq<usize>, o: usize, w: u64)
    requires
        mem.base + o <= usize::MAX,
        forall|i: int| 0 <= i < dead.len() ==> mem.base + (#[trigger] dead[i]) <= usize::MAX,
    ensures
        due_finalizers(mem, dead).contains(((mem.base + o) as usize, w)) <==> dead.contains(o) && w
            == mem.words[o as int / 8] && w != 0,
    decreases dead.len(),
{
    if dead.len() > 0 {
        let front = dead.drop_last();
        assert forall|i: int| 0 <= i < front.len() implies mem.base + (#[trigger] front[i])
            <= usize::MAX by {
            assert(front[i] == dead[i]);
        }
        lemma_queued(mem, front, o, w);
        let init = due_finalizers(mem, front);
        let all = due_finalizers(mem, dead);
        let x = ((mem.base + o) as usize, w);
        let last = dead[dead.len() - 1];
        assert(mem.base + last <= usize::MAX);
        if all.contains(x) {
            let i = choose|i: int| 0 <= i < all.len() && all[i] == x;
            if i < init.len() {
                assert(init[i] == x);
                let j = choose|j: int| 0 <= j < front.len() && front[j] == o;
                assert(dead[j] == o);
            } else {
                assert(last == o);
            }
        }
        if dead.contains(o) && w == mem.words[o as int / 8] && w != 0 {
            let j = choose|j: int| 0 <= j < dead.len() && dead[j] == o;
            if j < front.len() {
                assert(front[j] == o);
                let i = choose|i: int| 0 <= i < init.len() && init[i] == x;
                assert(all[i] == x);
            } else {
                assert(all[all.len() - 1] == x);
            }
        }
    }
}

/// A traced object that was not reached, in a block that may hold one with a drop
/// hook, is dropped if its descriptor has one; nothing else is.
pub proof fn law_the_dead_are_dropped<H: TypeHooks>(
    t: &Tables,
    mem: &HeapMemory,
    hooks: &H,
    q: int,
)
    requires
        t.inv(),
        0 <= q < t.objects.len(),
        mem.base + t.objects.len() * 16 <= usize::MAX,
    ensures
        t.to_drop(mem, hooks, t.objects.len() as nat).contains((mem.base + q * 16) as usize)
            <==> t.blocks[q / 2048].used && t.blocks[q / 2048].has_drop && t.objects[q] & 0x60 == 0x40
            && t.objects[q] & 0x80 == 0 && mem.words[q * 2] != 0 && hooks.drops(mem.words[q * 2]),
{
    lemma_dropped(t, mem, hooks, q, t.objects.len() as nat);
    assert(kind_bits(t.objects[q]) == t.objects[q] & 0x60);
}

proof fn lemma_dropped<H: TypeHooks>(t: &Tables, mem: &HeapMemory, hooks: &H, q: int, n: nat)
    requires
        0 <= q,
        n <= t.objects.len(),
        q < t.objects.len(),
        mem.base + t.objects.len() * 16 <= usize::MAX,
    ensures
        t.to_drop(mem, hooks, n).contains((mem.base + q * 16) as usize) <==> q < n
            && t.dead_traced(q) && mem.words[q * 2] != 0 && hooks.drops(mem.words[q * 2]),
    decreases n,
{
    if n > 0 {
        let m = (n - 1) as nat;
        lemma_dropped(t, mem, hooks, q, m);
        let init = t.to_drop(mem, hooks, m);
        let all = t.to_drop(mem, hooks, n);
        let x = (mem.base + q * 16) as usize;
        if all.len() > init.len() {
            assert(all[init.len() as int] == (mem.base + m * 16) as usize);
            if init.contains(x) {
                let i = choose|i: int| 0 <= i < init.len() && init[i] == x;
                assert(all[i] == x);
            }
            if all.contains(x) {
                let i = choose|i: int| 0 <= i < all.len() && all[i] == x;
                if i < init.len() {
                    assert(init[i] == x);
                }
            }
        }
    }
}

// Blocks and lines.

/// A sweep gives back a block exactly when it is handed out, holds no claimed line,
/// no mutator bumps through it and reclaiming is on: it is in the report, and in the
/// free list unless freed blocks are kept out of use.
pub proof fn law_an_empty_block_is_given_back(
    before: &Space,
    after: &Space,
    opts: SweepOptions,
    b: int,
)
    requires
        after.swept(before, opts),
        before.tables.marks_seen(),
        0 <= b < before.tables.blocks.len(),
        before.tables.blocks.len() * 32768 <= usize::MAX,
    ensures
        ({
            let freed = before.freed_upto(before.tables.blocks.len() as nat, opts);
            let empty = before.tables.blocks[b].used && (forall|l: int|
                0 <= l < 256 ==> !#[trigger] before.tables.blocks[b].marked(l)) && (forall|i: int|
                0 <= i < before.tlabs.len() ==> (#[trigger] before.tlabs[i]).block != b * 32768)
                && !opts.no_reclaim;
            &&& freed.contains((b * 32768) as usize) <==> empty
            &&& empty ==> !after.tables.blocks[b].used
            &&& before.tables.blocks[b].used && !empty ==> after.tables.blocks[b].used
            &&& empty && !opts.quarantine ==> after.free_blocks@.contains((b * 32768) as usize)
            &&& opts.quarantine ==> after.free_blocks@ == before.free_blocks@
            &&& forall|a: usize|
                before.free_blocks@.contains(a) ==> #[trigger] after.free_blocks@.contains(a)
            &&& empty && (opts.poison || opts.quarantine) ==> forall|k: int|
                b * 4096 <= k < (b + 1) * 4096 ==> #[trigger] after.memory.words[k]
                    == 0xA5A5_A5A5_A5A5_A5A5
            &&& !(empty && (opts.poison || opts.quarantine)) ==> forall|k: int|
                b * 4096 <= k < (b + 1) * 4096 ==> #[trigger] after.memory.words[k]
                    == before.memory.words[k]
        }),
{
    let n = before.tables.blocks.len() as nat;
    let freed = before.freed_upto(n, opts);
    lemma_freed(before, opts, n, b);
    assert(after.block_swept(before, b, opts));
    let empty = before.tables.blocks[b].used && (forall|l: int|
        0 <= l < 256 ==> !#[trigger] before.tables.blocks[b].marked(l)) && (forall|i: int|
        0 <= i < before.tlabs.len() ==> (#[trigger] before.tlabs[i]).block != b * 32768)
        && !opts.no_reclaim;
    assert(before.frees(b, opts) == empty) by {
        let blk = before.tables.blocks[b];
        if !blk.any_marked {
            assert(blk.clear());
        }
    }
    if !opts.quarantine {
        let was = before.free_blocks@;
        let now = after.free_blocks@;
        assert(now == was + freed);
        if empty {
            let i = choose|i: int| 0 <= i < freed.len() && freed[i] == (b * 32768) as usize;
            assert(now[was.len() + i] == freed[i]);
        }
        assert forall|a: usize| was.contains(a) implies #[trigger] now.contains(a) by {
            let i = choose|i: int| 0 <= i < was.len() && was[i] == a;
            assert(now[i] == a);
        }
    }
}

proof fn lemma_freed(s: &Space, opts: SweepOptions, n: nat, b: int)
    requires
        0 <= b,
        n <= s.tables.blocks.len(),
        b < s.tables.blocks.len(),
        s.tables.blocks.len() * 32768 <= usize::MAX,
    ensures
        s.freed_upto(n, opts).contains((b * 32768) as usize) <==> b < n && s.frees(b, opts),
    decreases n,
{
    if n > 0 {
        let m = (n - 1) as nat;
        lemma_freed(s, opts, m, b);
        let init = s.freed_upto(m, opts);
        let all = s.freed_upto(n, opts);
        let x = (b * 32768) as usize;
        if all.len() > init.len() {
            assert(all[init.len() as int] == (m * 32768) as usize);
            if init.contains(x) {
                let i = choose|i: int| 0 <= i < init.len() && init[i] == x;
                assert(all[i] == x);
            }
            if all.contains(x) {
                let i = choose|i: int| 0 <= i < all.len() && all[i] == x;
                if i < init.len() {
                    assert(init[i] == x);
                }
            }
        }
    }
}

/// The free lines of a kept block are used again: where lines are recycled, each
/// unclaimed line of a block with a claimed one, through which no mutator bumps, is
/// in a span to be reused. Where they are not, there is none.
pub proof fn law_free_lines_are_recycled(
    before: &Space,
    after: &Space,
    opts: SweepOptions,
    b: int,
    l: int,
)
    requires
        after.swept(before, opts),
        0 <= b < before.tables.blocks.len(),
        before.tables.blocks.len() * 32768 <= usize::MAX,
    ensures
        !opts.recycle ==> after.recycle_spans@.len() == 0,
        opts.recycle && before.tables.blocks[b].used && before.tables.blocks[b].any_marked && (
        exists|k: int| 0 <= k < 256 && #[trigger] before.tables.blocks[b].marked(k)) && (forall|
            i: int,
        |
            0 <= i < before.tlabs.len() ==> (#[trigger] before.tlabs[i]).block != b * 32768) && 0
            <= l < 256 && !before.tables.blocks[b].marked(l) ==> exists|i: int|
            0 <= i < after.recycle_spans@.len() && (#[trigger] after.recycle_spans@[i]).0 == b
                * 32768 && after.recycle_spans@[i].1 <= l < after.recycle_spans@[i].1
                + after.recycle_spans@[i].2,
{
    let n = before.tables.blocks.len() as nat;
    lemma_no_spans(before, opts, n);
    let blk = before.tables.blocks[b];
    if opts.recycle && blk.used && blk.any_marked && (exists|k: int|
        0 <= k < 256 && #[trigger] blk.marked(k)) && (forall|i: int|
        0 <= i < before.tlabs.len() ==> (#[trigger] before.tlabs[i]).block != b * 32768) && 0 <= l
        < 256 && !blk.marked(l) {
        let k = choose|k: int| 0 <= k < 256 && #[trigger] blk.marked(k);
        assert(!blk.clear());
        assert(before.recycles(b, opts));
        blk.law_every_free_line_is_in_a_run(l);
        let j = choose|j: int|
            0 <= j < blk.runs().len() && (#[trigger] blk.runs()[j]).0 <= l < blk.runs()[j].0
                + blk.runs()[j].1;
        lemma_spans(before, opts, n, b, j);
    }
}

proof fn lemma_no_spans(s: &Space, opts: SweepOptions, n: nat)
    ensures
        !opts.recycle ==> s.recycled_upto(n, opts).len() == 0,
    decreases n,
{
    if n > 0 {
        lemma_no_spans(s, opts, (n - 1) as nat);
    }
}

proof fn lemma_spans(s: &Space, opts: SweepOptions, n: nat, b: int, j: int)
    requires
        0 <= b < n,
        n <= s.tables.blocks.len(),
        s.recycles(b, opts),
        0 <= j < s.tables.blocks[b].runs().len(),
        s.tables.blocks.len() * 32768 <= usize::MAX,
    ensures
        exists|i: int|
            0 <= i < s.recycled_upto(n, opts).len() && #[trigger] s.recycled_upto(n, opts)[i] == (
                (b * 32768) as usize,
                s.tables.blocks[b].runs()[j].0,
                s.tables.blocks[b].runs()[j].1,
            ),
    decreases n,
{
    let m = (n - 1) as nat;
    let init = s.recycled_upto(m, opts);
    let all = s.recycled_upto(n, opts);
    if b == m {
        assert(all[init.len() + j] == s.block_runs(b)[j]);
    } else {
        lemma_spans(s, opts, m, b, j);
        let i = choose|i: int|
            0 <= i < init.len() && #[trigger] init[i] == (
                (b * 32768) as usize,
                s.tables.blocks[b].runs()[j].0,
                s.tables.blocks[b].runs()[j].1,
            );
        assert(all[i] == init[i]);
    }
}

/// The report adds up: the chart counts each kept block once, and a kept block has
/// at least one claimed line and no more than its 256.
pub proof fn law_the_report_adds_up(d: &Space, n: nat)
    ensures
        d.bar_upto(n, 0) + d.bar_upto(n, 1) + d.bar_upto(n, 2) + d.bar_upto(n, 3) + d.bar_upto(n, 4)
            + d.bar_upto(n, 5) == d.retained_upto(n),
        d.retained_upto(n) <= d.lines_upto(n) <= d.retained_upto(n) * 256,
        d.retained_upto(n) <= n,
    decreases n,
{
    if n > 0 {
        law_the_report_adds_up(d, (n - 1) as nat);
        lemma_count(d.tables.blocks[n - 1], 256);
    }
}

proof fn lemma_count(b: Block, n: nat)
    ensures
        b.count_marked(n) <= n,
        b.count_marked(n) == 0 <==> forall|l: int| 0 <= l < n ==> !#[trigger] b.marked(l),
    decreases n,
{
    if n > 0 {
        lemma_count(b, (n - 1) as nat);
        let _ = b.marked(n - 1);
    }
}

/// The chart's bars are by how full a block is: one line, up to four, up to sixteen,
/// up to a quarter, up to three quarters, and more.
pub proof fn law_bars_go_by_how_full(a: int, b: int)
    requires
        1 <= a <= b <= 256,
    ensures
        0 <= occupancy_bar_of(a) <= occupancy_bar_of(b) <= 5,
        occupancy_bar_of(a) == 0 <==> a == 1,
        occupancy_bar_of(a) <= 1 <==> a <= 4,
        occupancy_bar_of(a) <= 2 <==> a <= 16,
        occupancy_bar_of(a) <= 3 <==> a <= 64,
        occupancy_bar_of(a) <= 4 <==> a <= 192,
{
}

// Grants.

/// An allocation takes whole quanta, at least one and no more than its size needs.
pub proof fn law_an_allocation_takes_whole_quanta(size: int)
    requires
        0 <= size,
    ensures
        granted(size) % 16 == 0,
        granted(size) >= size,
        granted(size) >= 16,
        granted(size) < size + 16 || granted(size) == 16,
{
}

/// Memory is refused only where there is none: for no more than a block, while no
/// block is free; for more, while no run of free blocks is long enough.
pub proof fn law_refused_only_for_want_of_room(
    after: &ImmixAllocator,
    before: &ImmixAllocator,
    size: int,
    attempt: Attempt,
    recycle: bool,
    r: Grant,
)
    requires
        0 <= size,
        after.grants(before, size, attempt, recycle, r),
        !(r is At),
    ensures
        granted(size) <= 32768 ==> before.space.free_blocks.len() == 0,
        granted(size) > 32768 ==> before.space.free_blocks.len() * 32768 < size || forall|
            b: usize,
        |
            #[trigger] before.space.free_blocks@.contains(b) ==> exists|k: int|
                0 <= k && k * 32768 < size && !(#[trigger] before.space.is_free(b + k * 32768)),
{
    if granted(size) > 32768 {
        let n = Space::blocks_for(size);
        if before.space.free_blocks.len() * 32768 >= size {
            assert(before.space.free_blocks.len() >= n);
            assert forall|b: usize| #[trigger] before.space.free_blocks@.contains(b) implies exists|
                k: int,
            |
                0 <= k && k * 32768 < size && !(#[trigger] before.space.is_free(b + k * 32768)) by {
                let a = b as int;
                assert(!before.space.run_free(a, n));
                let k = choose|k: int|
                    0 <= k < n && !(#[trigger] crate::heap::large::listed(
                        before.space.free_blocks@,
                        a + k * 32768,
                    ));
                assert(!before.space.is_free(a + k * 32768));
            }
        }
    }
}

/// A grant is counted: the bytes it takes are among those since the last collection,
/// and among those ever allocated.
pub proof fn law_a_grant_is_counted(
    after: &ImmixAllocator,
    before: &ImmixAllocator,
    size: int,
    attempt: Attempt,
    recycle: bool,
    r: Grant,
)
    requires
        0 <= size,
        after.grants(before, size, attempt, recycle, r),
        before.trigger.bytes_since_gc + size + 65536 <= usize::MAX,
        before.stats.bytes_allocated + size + 65536 <= u64::MAX,
    ensures
        r is At ==> {
            &&& after.trigger.bytes_since_gc - before.trigger.bytes_since_gc >= size
            &&& after.trigger.bytes_since_gc - before.trigger.bytes_since_gc
                == after.stats.bytes_allocated - before.stats.bytes_allocated
            &&& granted(size) <= 32768 ==> after.trigger.bytes_since_gc
                - before.trigger.bytes_since_gc == granted(size)
            &&& granted(size) > 32768 ==> after.trigger.bytes_since_gc
                - before.trigger.bytes_since_gc < size + 32768
        },
        !(r is At) ==> after.trigger == before.trigger && after.stats == before.stats,
        after.stats.collections == before.stats.collections,
{
}

// Pages.

/// What is handed back are freed blocks whose pages are still taken, and enough free
/// blocks stay resident.
pub proof fn law_resident_blocks_stay(freed: Seq<usize>, blocks: Seq<Block>, free: nat, a: usize)
    ensures
        resident(freed, blocks).contains(a) <==> freed.contains(a) && !blocks[a as int
            / 32768].reusable,
        surplus(free, freed.len()) <= freed.len(),
        free >= 16 ==> free - surplus(free, freed.len()) >= 16,
        free < 16 ==> surplus(free, freed.len()) == 0,
        free >= 16 + freed.len() ==> surplus(free, freed.len()) == freed.len(),
    decreases freed.len(),
{
    if freed.len() > 0 {
        let front = freed.drop_last();
        law_resident_blocks_stay(front, blocks, free, a);
        let init = resident(front, blocks);
        let all = resident(freed, blocks);
        if all.contains(a) {
            let i = choose|i: int| 0 <= i < all.len() && all[i] == a;
            if i < init.len() {
                assert(init[i] == a);
                let j = choose|j: int| 0 <= j < front.len() && front[j] == a;
                assert(freed[j] == a);
            } else {
                assert(freed[freed.len() - 1] == a);
            }
        }
        if freed.contains(a) && !blocks[a as int / 32768].reusable {
            let j = choose|j: int| 0 <= j < freed.len() && freed[j] == a;
            if j < front.len() {
                assert(front[j] == a);
                let i = choose|i: int| 0 <= i < init.len() && init[i] == a;
                assert(all[i] == a);
            } else {
                assert(all[all.len() - 1] == a);
            }
        }
    }
}

/// The audit finds every word that points into the block, as it stands or boxed, and
/// nothing else.
pub proof fn law_the_audit_finds_every_word(words: Seq<u64>, lo: usize, hi: usize, x: Finding)
    requires
        words.len() <= usize::MAX,
    ensures
        findings(words, lo, hi).contains(x) <==> x.at < words.len() && lo <= x.address < hi && (if x.boxed {
            words[x.at as int] & 0xFFF8_0000_0000_0000 == 0x7FF8_0000_0000_0000 && x.address
                == words[x.at as int] & 0x0000_FFFF_FFFF_FFFF
        } else {
            x.address == words[x.at as int]
        }),
    decreases words.len(),
{
    if words.len() > 0 {
        let front = words.drop_last();
        law_the_audit_finds_every_word(front, lo, hi, x);
        let init = findings(front, lo, hi);
        let here = found_in(words.last(), words.len() - 1, lo, hi);
        let all = findings(words, lo, hi);
        assert(all == init + here);
        if all.contains(x) {
            let i = choose|i: int| 0 <= i < all.len() && all[i] == x;
            if i < init.len() {
                assert(init[i] == x);
                assert(front[x.at as int] == words[x.at as int]);
            } else {
                assert(here[i - init.len()] == x);
            }
        }
        if init.contains(x) {
            let i = choose|i: int| 0 <= i < init.len() && init[i] == x;
            assert(all[i] == x);
        }
        if x.at == words.len() - 1 && lo <= x.address < hi {
            let w = words.last();
            if !x.boxed && x.address == w {
                assert(here[0] == x);
                assert(all[init.len() as int] == x);
            }
            if x.boxed && w & 0xFFF8_0000_0000_0000 == 0x7FF8_0000_0000_0000 && x.address == w
                & 0x0000_FFFF_FFFF_FFFF {
                let k = here.len() - 1;
                assert(here[k] == x);
                assert(all[init.len() + k] == x);
            }
        }
        if x.at < words.len() - 1 {
            assert(front[x.at as int] == words[x.at as int]);
        }
    }
}

/// A descriptor that lists fields names the words of those fields, in order, and
/// none past the end of the object.
pub proof fn law_fields_are_walked(fields: Seq<usize>, words: Seq<u64>, k: int)
    requires
        0 <= k < fields.len(),
    ensures
        fields[k] < words.len() ==> field_words(fields, words).contains(words[fields[k] as int]),
        (forall|i: int| 0 <= i < fields.len() ==> (#[trigger] fields[i]) < words.len()) ==> {
            &&& field_words(fields, words).len() == fields.len()
            &&& field_words(fields, words)[k] == words[fields[k] as int]
        },
    decreases fields.len(),
{
    let front = fields.drop_last();
    let init = field_words(front, words);
    let all = field_words(fields, words);
    if forall|i: int| 0 <= i < fields.len() ==> (#[trigger] fields[i]) < words.len() {
        assert forall|i: int| 0 <= i < front.len() implies (#[trigger] front[i]) < words.len() by {
            assert(front[i] == fields[i]);
        }
        let _ = fields[fields.len() - 1];
        if front.len() > 0 {
            law_fields_are_walked(front, words, 0);
        }
    }
    if k < front.len() {
        assert(front[k] == fields[k]);
        law_fields_are_walked(front, words, k);
        if fields[k] < words.len() {
            let i = choose|i: int| 0 <= i < init.len() && init[i] == words[fields[k] as int];
            assert(all[i] == init[i]);
        }
    } else if fields[k] < words.len() {
        assert(all[init.len() as int] == words[fields[k] as int]);
    }
}

/// A block counts as kept exactly when it is handed out, the marking came to it and
/// claimed a line of it; each of its claimed lines counts.
pub proof fn law_which_blocks_are_kept(d: &Space, b: nat)
    ensures
        ({
            let block = d.tables.blocks[b as int];
            let seen = block.used && block.any_marked;
            let some = exists|l: int| 0 <= l < 256 && #[trigger] block.marked(l);
            &&& d.retained_upto(b + 1) == d.retained_upto(b) + (if seen && some {
                1nat
            } else {
                0
            })
            &&& d.lines_upto(b + 1) == d.lines_upto(b) + (if seen {
                block.count_marked(256)
            } else {
                0
            })
        }),
        d.retained_upto(0) == 0 && d.lines_upto(0) == 0,
{
    lemma_count(d.tables.blocks[b as int], 256);
}

/// A sweep closes the region that is bumped through, and keeps those of the mutators.
pub proof fn law_a_sweep_closes_the_region(before: &Space, after: &Space, opts: SweepOptions)
    requires
        after.swept(before, opts),
    ensures
        after.allocation_point == 0,
        after.current_block_end == 0,
        after.tlabs == before.tlabs,
        after.memory.base == before.memory.base,
        after.memory.words.len() == before.memory.words.len(),
{
}

/// Dropping clears the records of what was dropped alone, and a block's flag for drops
/// where none is left to drop; no other flag differs.
pub proof fn law_dropping_changes_only_the_dropped(before: &Tables, after: &Tables, q: int, b: int)
    requires
        after.dropped_below(before, before.objects.len() as int),
        after.drop_flags(before, before.blocks.len() as int),
        0 <= q < before.objects.len(),
        0 <= b < before.blocks.len(),
    ensures
        !before.dead_traced(q) ==> after.objects[q] == before.objects[q],
        before.dead_traced(q) ==> after.objects[q] == 0,
        after.blocks[b].used == before.blocks[b].used,
        after.blocks[b].reusable == before.blocks[b].reusable,
        after.blocks[b].any_marked == before.blocks[b].any_marked,
        after.blocks[b].has_span == before.blocks[b].has_span,
        after.blocks[b].mark_bits == before.blocks[b].mark_bits,
        after.blocks[b].has_drop ==> before.blocks[b].has_drop,
{
    let _ = after.objects[q];
    let _ = after.blocks[b];
}

} // verus!
