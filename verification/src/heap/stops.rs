//! What holds of mutators, of what they keep, and of the lists the heap keeps of them.

use vstd::prelude::*;
use vstd::string::*;

use crate::heap::deferred::{after_releases, times};
use crate::heap::handback::{blocks_of, run_blocks, runs_apart};
use crate::heap::grant::origin_text;
use crate::heap::handles::{Handle, HandleTable};
use crate::heap::hooks::{FieldDesc, FieldHooks, TypeHooks};
use crate::heap::immix::{GcStats, ImmixAllocator};
use crate::heap::mutators::{
    site_text, MutatorRecord, MutatorWorld, Park, Register, SITE_SAFEPOINT_WORLD_LOCK,
};
use crate::heap::roots::FiberStackInfo;
use crate::heap::sizing::{clamped, setting};
use crate::heap::space::{last_fit, span_hi, span_lo, Space};
use crate::heap::surface::virtual_words;
use crate::heap::sweep::SweepOptions;
use crate::heap::swept::SweepReport;
use crate::text::{decimal, hex};

verus! {

// Mutators.

/// A thread joins with its stack, unless it has none; while another thread stops the
/// world it waits. The others stay as they are, and a thread that is there already only
/// has its stack's top set.
pub proof fn law_a_thread_joins(
    before: &MutatorWorld,
    after: &MutatorWorld,
    thread: u64,
    top: usize,
    role: Seq<char>,
    r: Register,
    i: int,
)
    requires
        after.joined(before, thread, top, role, r),
        0 <= i < before.mutators.len(),
    ensures
        top == 0 ==> r is Ignored && after == before,
        top != 0 && before.stop_requested && before.collector != thread ==> r is Wait && after
            == before,
        top != 0 && !(before.stop_requested && before.collector != thread) ==> r is Done,
        r is Done ==> {
            &&& after.stop_requested == before.stop_requested
            &&& after.collector == before.collector
            &&& before.mutators[i].thread != thread ==> after.mutators[i] == before.mutators[i]
            &&& before.mutators[i].thread == thread ==> after.mutators[i].stack_top == top
                && after.mutators[i].parked == before.mutators[i].parked
                && after.mutators[i].blocking_depth == before.mutators[i].blocking_depth
                && after.mutators[i].scan_ranges == before.mutators[i].scan_ranges
            &&& !before.registered(thread) ==> {
                let m = after.mutators@.last();
                &&& m.thread == thread
                &&& m.stack_top == top
                &&& m.role@ == role
                &&& !m.at_rest()
                &&& m.scan_ranges@.len() == 0
                &&& m.staged_scan_ranges@.len() == 0
                &&& m.scan_live is None
                &&& m.polls == 0
                &&& m.stopped_sp == 0
            }
        },
{
    if r is Done {
        if !before.registered(thread) {
            assert(after.mutators@.drop_last()[i] == after.mutators@[i]);
            assert(before.mutators[i].thread != thread);
        } else {
            assert(after.mutators[i].thread == before.mutators[i].thread);
        }
    }
}

/// A thread that leaves is gone, and the others stay.
pub proof fn law_a_thread_leaves(before: &MutatorWorld, after: &MutatorWorld, thread: u64, i: int)
    requires
        before.inv(),
        after.parted(before, thread),
        0 <= i < before.mutators.len(),
    ensures
        !after.registered(thread),
        before.mutators[i].thread != thread ==> after.mutators@.contains(before.mutators[i]),
        before.registered(thread) ==> after.mutators.len() == before.mutators.len() - 1,
        after.stop_requested == before.stop_requested,
{
    if before.registered(thread) {
        let k = choose|k: int|
            0 <= k < before.mutators.len() && (#[trigger] before.mutators[k]).thread == thread
                && after.mutators@ == before.mutators@.remove(k);
        if i < k {
            assert(after.mutators@[i] == before.mutators[i]);
        } else if i > k {
            assert(after.mutators@[i - 1] == before.mutators[i]);
        }
    } else {
        assert(after.mutators@[i] == before.mutators[i]);
    }
}

/// A poll is counted; one that has to wait leaves the thread parked, with where its
/// stack stands and its registers, and one that passes does not.
pub proof fn law_a_poll_is_counted(m: MutatorRecord, sp: usize, regs: [u64; 10])
    ensures
        m.polls < u64::MAX ==> m.polled(Park::Pass, sp, regs).polls == m.polls + 1 && m.polled(
            Park::Wait,
            sp,
            regs,
        ).polls == m.polls + 1,
        m.polls == u64::MAX ==> m.polled(Park::Pass, sp, regs).polls == 0,
        m.polled(Park::Pass, sp, regs).parked == m.parked,
        m.polled(Park::Pass, sp, regs).stopped_sp == m.stopped_sp,
        m.polled(Park::Pass, sp, regs).saved_regs == m.saved_regs,
        m.polled(Park::Wait, sp, regs).parked,
        m.polled(Park::Wait, sp, regs).stopped_sp == sp,
        m.polled(Park::Wait, sp, regs).saved_regs == regs,
        m.polled(Park::Wait, sp, regs).site == SITE_SAFEPOINT_WORLD_LOCK,
        m.polled(Park::Wait, sp, regs).scan_ranges == m.scan_ranges,
        m.polled(Park::Wait, sp, regs).stack_top == m.stack_top,
        m.polled(Park::Wait, sp, regs).thread == m.thread,
        m.polled(Park::Wait, sp, regs).blocking_depth == m.blocking_depth,
{
}

/// Ranges are staged one by one, and published together; a null or empty one is not
/// taken.
pub proof fn law_ranges_are_staged_and_published(
    before: &MutatorWorld,
    staged: &MutatorWorld,
    after: &MutatorWorld,
    thread: u64,
    start: usize,
    size: usize,
    i: int,
)
    requires
        staged.staged(before, thread, start, size),
        after.published(staged, thread),
        0 <= i < before.mutators.len(),
    ensures
        ({
            let was = before.mutators[i];
            let now = after.mutators[i];
            &&& was.thread != thread ==> now == was
            &&& staged.mutators[i].scan_ranges == was.scan_ranges
            &&& was.thread == thread ==> {
                &&& start != 0 && size != 0 ==> now.scan_ranges@ == was.staged_scan_ranges@.push(
                    (start, size),
                )
                &&& start == 0 || size == 0 ==> now.scan_ranges@ == was.staged_scan_ranges@
                &&& now.staged_scan_ranges@.len() == 0
                &&& now.parked == was.parked && now.stack_top == was.stack_top && now.stopped_sp
                    == was.stopped_sp
            }
        }),
{
    assert(after.mutators[i].thread == staged.mutators[i].thread);
    assert(staged.mutators[i].thread == before.mutators[i].thread);
}

/// Ranges that are handed over whole take the place of those that were published; a
/// table that a thread keeps itself is only noted.
pub proof fn law_ranges_are_replaced(
    before: &MutatorWorld,
    after: &MutatorWorld,
    thread: u64,
    ranges: Seq<(usize, usize)>,
    table: usize,
    len: usize,
    i: int,
)
    requires
        0 <= i < before.mutators.len(),
    ensures
        after.replaced(before, thread, ranges) ==> {
            &&& before.mutators[i].thread == thread ==> after.mutators[i].scan_ranges@
                == ranges.filter(|r: (usize, usize)| r.0 != 0 && r.1 != 0)
            &&& before.mutators[i].thread != thread ==> after.mutators[i] == before.mutators[i]
        },
        after.keeps_own(before, thread, table, len) ==> {
            &&& before.mutators[i].thread == thread ==> after.mutators[i].scan_live == Some(
                (table, len),
            ) && after.mutators[i].scan_ranges == before.mutators[i].scan_ranges
            &&& before.mutators[i].thread != thread ==> after.mutators[i] == before.mutators[i]
        },
        after.cleared(before, thread) && before.mutators[i].thread == thread
            ==> after.mutators[i].staged_scan_ranges@.len() == 0 && after.mutators[i].scan_ranges
            == before.mutators[i].scan_ranges,
{
    lemma_real_ranges(ranges);
    if after.replaced(before, thread, ranges) || after.keeps_own(before, thread, table, len)
        || after.cleared(before, thread) {
        assert(after.mutators[i].thread == before.mutators[i].thread);
    }
}

proof fn lemma_real_ranges(ranges: Seq<(usize, usize)>)
    ensures
        MutatorWorld::real_ranges(ranges) == ranges.filter(
            |r: (usize, usize)| r.0 != 0 && r.1 != 0,
        ),
    decreases ranges.len(),
{
    reveal(Seq::filter);
    if ranges.len() > 0 {
        lemma_real_ranges(ranges.drop_last());
    }
}

/// The published ranges are counted over all mutators.
pub proof fn law_ranges_are_counted(w: &MutatorWorld, n: nat, i: int)
    requires
        n <= w.mutators.len(),
    ensures
        w.ranges_upto(0) == 0,
        n > 0 ==> w.ranges_upto(n) - w.ranges_upto((n - 1) as nat) == w.mutators[n
            - 1].scan_ranges@.len(),
        0 <= i < n ==> w.ranges_upto(n) >= w.mutators[i].scan_ranges@.len(),
    decreases n,
{
    if n > 0 {
        law_ranges_are_counted(w, (n - 1) as nat, i);
    }
}

/// A mutator that keeps the world from stopping is named; the collector, and those at
/// rest, are not.
pub proof fn law_the_late_are_named(w: &MutatorWorld, collector: u64, n: nat, i: int)
    requires
        0 <= i < n,
        n <= w.mutators.len(),
        w.mutators[i].thread != collector,
        !w.mutators[i].parked,
        w.mutators[i].blocking_depth == 0,
    ensures
        w.late_upto(collector, n).contains(
            w.mutators[i].role@ + " 0x"@ + hex(w.mutators[i].thread as nat),
        ),
    decreases n,
{
    let m = (n - 1) as nat;
    let init = w.late_upto(collector, m);
    let all = w.late_upto(collector, n);
    let name = w.mutators[i].role@ + " 0x"@ + hex(w.mutators[i].thread as nat);
    if i < m {
        law_the_late_are_named(w, collector, m, i);
        let k = choose|k: int| 0 <= k < init.len() && init[k] == name;
        assert(all[k] == name);
    } else {
        assert(all[init.len() as int] == name);
    }
}

/// A mutator is told by its name and what it does: that it collects, that it is parked,
/// how deep it blocks, or how often it polled since the stop and where it is.
pub proof fn law_a_mutator_is_told(m: MutatorRecord, collector: u64)
    ensures
        ({
            let row = MutatorWorld::row_of(m, collector);
            let name = m.role@ + " 0x"@ + hex(m.thread as nat);
            let depth = " blocking="@ + decimal(m.blocking_depth as nat);
            let polls = " polls="@ + decimal((m.polls - m.polls_at_stop) as nat) + " at="@
                + site_text(m.site);
            &&& m.blocking_depth != 0 && m.thread == collector && m.parked ==> row =~= name
                + " collector"@ + " parked"@ + depth
            &&& m.blocking_depth != 0 && m.thread != collector && m.parked ==> row =~= name
                + " parked"@ + depth
            &&& m.blocking_depth != 0 && m.thread != collector && !m.parked ==> row =~= name + depth
            &&& m.blocking_depth == 0 && m.thread != collector && m.parked && m.polls
                >= m.polls_at_stop ==> row =~= name + " parked"@ + polls
            &&& m.blocking_depth == 0 && m.thread != collector && !m.parked && m.polls
                >= m.polls_at_stop ==> row =~= name + polls
            &&& m.blocking_depth == 0 && m.thread == collector && !m.parked && m.polls
                >= m.polls_at_stop ==> row =~= name + " collector"@ + polls
            &&& m.blocking_depth == 0 && m.thread != collector && !m.parked && m.polls
                < m.polls_at_stop ==> row =~= name + (" polls="@ + decimal(0) + " at="@ + site_text(
                m.site,
            ))
        }),
{
}

/// Each place where a thread may wait has a name of its own.
pub proof fn law_places_are_named(site: u64)
    ensures
        site_text(site)[0] == 'r' <==> site == 0,
        site_text(site)[0] == 'e' <==> site == 2,
        site_text(site)[0] == 'l' <==> site == 3,
        site_text(site)[0] == 't' <==> site == 6,
        site_text(site)[0] == 'g' <==> site == 4 || site == 5,
        site_text(site)[0] == 's' <==> site == 1 || site >= 7,
        site == 1 <==> site_text(site).len() == 20,
        site == 4 <==> site_text(site).len() == 12,
{
    reveal_strlit("running");
    reveal_strlit("safepoint-world-lock");
    reveal_strlit("enter-blocking");
    reveal_strlit("leave-blocking");
    reveal_strlit("gclock-inner");
    reveal_strlit("gclock-condvar");
    reveal_strlit("tlab-refill");
    reveal_strlit("scheduler-idle");
}

/// Whether a mutator is at rest: it is parked, or in a section that blocks.
pub proof fn law_who_is_at_rest(w: &MutatorWorld, collector: u64, i: int)
    requires
        w.at_rest(collector),
        0 <= i < w.mutators.len(),
    ensures
        w.mutators[i].thread == collector || w.mutators[i].parked || w.mutators[i].blocking_depth > 0,
{
}

// Lists.

/// A stack that goes is taken off the list: one with an id of its own wherever it is,
/// and the thread's own for that thread alone. A thread that goes takes all of its own.
pub proof fn law_stacks_go(stacks: Seq<FiberStackInfo>, thread: u64, id: u32)
    ensures
        ImmixAllocator::stacks_left(stacks, thread, id) == stacks.filter(
            |f: FiberStackInfo| f.id != id || (id == 0 && f.thread != thread),
        ),
        ImmixAllocator::stacks_elsewhere(stacks, thread) == stacks.filter(
            |f: FiberStackInfo| f.thread != thread,
        ),
    decreases stacks.len(),
{
    reveal(Seq::filter);
    if stacks.len() > 0 {
        law_stacks_go(stacks.drop_last(), thread, id);
    }
}

/// A walk meets every allocation whose first word is not null, at its address, with that
/// word, and nothing else.
pub proof fn law_a_walk_meets_every_object(gc: &ImmixAllocator, n: nat, q: int)
    requires
        0 <= q < n,
        gc.space.memory.base + n * 16 <= usize::MAX,
    ensures
        gc.walked(n).contains(
            ((gc.space.memory.base + q * 16) as usize, gc.space.memory.words[q * 2]),
        ) <==> gc.space.tables.is_start(q) && gc.space.memory.words[q * 2] != 0,
{
    lemma_walked(gc, n, q);
}

proof fn lemma_walked(gc: &ImmixAllocator, n: nat, q: int)
    requires
        0 <= q,
        gc.space.memory.base + n * 16 <= usize::MAX,
        gc.space.memory.base + q * 16 <= usize::MAX,
    ensures
        gc.walked(n).contains(
            ((gc.space.memory.base + q * 16) as usize, gc.space.memory.words[q * 2]),
        ) <==> q < n && gc.space.tables.is_start(q) && gc.space.memory.words[q * 2] != 0,
    decreases n,
{
    if n > 0 {
        let m = (n - 1) as nat;
        lemma_walked(gc, m, q);
        let init = gc.walked(m);
        let all = gc.walked(n);
        let x = ((gc.space.memory.base + q * 16) as usize, gc.space.memory.words[q * 2]);
        if all.len() > init.len() {
            assert(all[init.len() as int] == (
                (gc.space.memory.base + m * 16) as usize,
                gc.space.memory.words[(m * 2) as int],
            ));
            if init.contains(x) {
                let i = choose|i: int| 0 <= i < init.len() && init[i] == x;
                assert(all[i] == x);
            }
            if all.contains(x) {
                let i = choose|i: int| 0 <= i < all.len() && all[i] == x;
                if i < init.len() {
                    assert(init[i] == x);
                }
            }
        }
    }
}

/// A virtual object begins with its type and two empty words; each field that has a
/// place points there, and without places they are null.
pub proof fn law_a_virtual_object_begins(
    addr: usize,
    ty: u64,
    fields: nat,
    at: Seq<usize>,
    i: int,
)
    ensures
        virtual_words(addr, ty, fields, Some(at)).len() == 3 + fields,
        virtual_words(addr, ty, fields, Some(at))[0] == ty,
        virtual_words(addr, ty, fields, Some(at))[1] == 0,
        virtual_words(addr, ty, fields, Some(at))[2] == 0,
        0 <= i < fields ==> virtual_words(addr, ty, fields, Some(at))[3 + i] == (addr + at[i]) as u64,
        0 <= i < fields ==> virtual_words(addr, ty, fields, None)[3 + i] == 0,
        virtual_words(addr, ty, fields, None)[0] == ty,
{
}

/// Releases add up: some and then more are all of them, and each that is queued counts.
pub proof fn law_releases_add_up(
    v: Option<(usize, u32)>,
    a: nat,
    b: nat,
    queued: Seq<Handle>,
    h: Handle,
)
    ensures
        after_releases(after_releases(v, a), b) == after_releases(v, a + b),
        v matches Some((_, refs)) ==> refs > 0 ==> after_releases(v, 0) == v,
        v matches Some((p, refs)) ==> refs > 1 ==> after_releases(v, 1) == Some(
            (p, (refs - 1) as u32),
        ),
        times(queued, h) == queued.filter(|x: Handle| x == h).len(),
    decreases queued.len(),
{
    reveal(Seq::filter);
    if queued.len() > 0 {
        law_releases_add_up(v, a, b, queued.drop_last(), h);
    }
}

/// The blocks of runs are those between their ends.
pub proof fn law_runs_are_their_blocks(runs: Seq<(usize, usize)>, i: int, k: int)
    requires
        0 <= i < runs.len(),
        0 <= k,
        (k + 1) * 32768 <= runs[i].1,
        runs[i].0 + runs[i].1 <= usize::MAX,
    ensures
        blocks_of(runs).contains((runs[i].0 + k * 32768) as usize),
        run_blocks(runs[i]).len() == runs[i].1 / 32768,
    decreases runs.len(),
{
    let front = runs.drop_last();
    let init = blocks_of(front);
    let all = blocks_of(runs);
    let a = (runs[i].0 + k * 32768) as usize;
    if i < front.len() {
        assert(front[i] == runs[i]);
        law_runs_are_their_blocks(front, i, k);
        let j = choose|j: int| 0 <= j < init.len() && init[j] == a;
        assert(all[j] == a);
    } else {
        assert(run_blocks(runs[i])[k] == a);
        assert(all[init.len() + k] == a);
    }
}

/// A run that is taken up is the last that is long enough, and lies behind its block's
/// start as many lines as it says.
pub proof fn law_the_last_run_that_fits(spans: Seq<(usize, usize, usize)>, want: int, k: int)
    ensures
        last_fit(spans, want) < spans.len(),
        last_fit(spans, want) >= 0 ==> spans[last_fit(spans, want)].2 >= want,
        0 <= k < spans.len() && k > last_fit(spans, want) ==> spans[k].2 < want,
        0 <= k < spans.len() ==> span_lo(spans[k]) == spans[k].0 + 128 * spans[k].1 && span_hi(
            spans[k],
        ) - span_lo(spans[k]) == 128 * spans[k].2,
    decreases spans.len(),
{
    if spans.len() > 0 {
        let front = spans.drop_last();
        law_the_last_run_that_fits(front, want, k);
        if 0 <= k < front.len() {
            assert(front[k] == spans[k]);
        }
        if spans.last().2 < want && last_fit(front, want) >= 0 {
            assert(front[last_fit(front, want)] == spans[last_fit(front, want)]);
        }
    }
}

/// As many blocks are taken as a size needs, and no more.
pub proof fn law_as_many_blocks_as_needed(size: int)
    requires
        0 < size,
    ensures
        Space::blocks_for(size) * 32768 >= size,
        (Space::blocks_for(size) - 1) * 32768 < size,
{
}

/// A block whose pages were handed back is due to be taken up again once it is used. It
/// is then empty, and nothing outside it differs.
pub proof fn law_pages_are_taken_up_again(before: &Space, after: &Space, addr: int, q: int)
    requires
        after.handed_out(before, addr) || after.took_block(before, addr),
    ensures
        before.tables.blocks[addr / 32768].reusable ==> after.reuse_due@ == before.reuse_due@.push(
            addr as usize,
        ),
        !before.tables.blocks[addr / 32768].reusable ==> after.reuse_due@ == before.reuse_due@,
        after.tables.blocks[addr / 32768].used,
        !after.tables.blocks[addr / 32768].reusable,
        forall|l: int| 0 <= l < 256 ==> !#[trigger] after.tables.blocks[addr / 32768].marked(l),
        !(addr <= q * 16 < addr + 32768) ==> after.tables.is_start(q) == before.tables.is_start(q),
        after.tables.is_start(q) ==> after.tables.objects[q] == before.tables.objects[q]
            && after.tables.extent(q) == before.tables.extent(q),
        addr <= q * 16 < addr + 32768 ==> !after.tables.is_start(q),
{
}

/// A descriptor is found by its word, the first that has it.
pub proof fn law_a_descriptor_is_found(descs: Seq<FieldDesc>, desc: u64, k: int)
    ensures
        0 <= FieldHooks::find(descs, desc) <= descs.len(),
        FieldHooks::find(descs, desc) < descs.len() ==> descs[FieldHooks::find(descs, desc)].desc
            == desc,
        0 <= k < FieldHooks::find(descs, desc) ==> descs[k].desc != desc,
    decreases descs.len(),
{
    if descs.len() > 0 {
        let front = descs.drop_last();
        law_a_descriptor_is_found(front, desc, k);
        law_a_descriptor_is_found(front, desc, 0);
        let i = FieldHooks::find(front, desc);
        if i < front.len() {
            assert(front[i] == descs[i]);
        }
        if 0 <= k < front.len() {
            assert(front[k] == descs[k]);
        }
    }
}

/// A handle counts its references: one that is made has one, one more is one more, one
/// fewer is one fewer, and the last takes it away. Every other handle stays as it is.
pub proof fn law_handles_are_counted(
    before: &HandleTable,
    after: &HandleTable,
    h: Handle,
    ptr: usize,
    refs: u32,
    other: Handle,
)
    requires
        before.inv(),
        other != h,
    ensures
        after.inserted(before, ptr, h) && ptr != 0 && before.slots.len() < u32::MAX ==> {
            &&& after.live(h) == Some((ptr, 1u32))
            &&& before.live(h) is None
            &&& after.live(other) == before.live(other)
            &&& h.0 != 0
        },
        after.inserted(before, 0, h) ==> h.0 == 0 && after == before,
        before.live(h) == Some((ptr, refs)) ==> {
            &&& after.retained(before, h) && refs < u32::MAX ==> after.live(h) == Some(
                (ptr, (refs + 1) as u32),
            ) && after.live(other) == before.live(other)
            &&& after.released(before, h) && refs > 1 ==> after.live(h) == Some(
                (ptr, (refs - 1) as u32),
            ) && after.live(other) == before.live(other)
            &&& after.released(before, h) && refs == 1 ==> after.live(h) is None && after.live(
                other,
            ) == before.live(other)
        },
        before.live(h) is None ==> {
            &&& after.released(before, h) ==> after == before
            &&& after.retained(before, h) ==> after.slots@ == before.slots@
        },
{
    if after.inserted(before, ptr, h) && ptr != 0 && before.slots.len() < u32::MAX
        && before.free.len() > 0 {
        let i = before.free@.last();
        assert(before.free[before.free.len() - 1] == i);
        assert(before.slots[i as int].refs == 0);
    }
}

/// What set a collection off is told by a name of its own.
pub proof fn law_causes_of_collections_are_named(o: u8)
    ensures
        origin_text(o)[0] == '?' <==> o == 0,
        origin_text(o)[0] == 's' <==> o == 1,
        origin_text(o)[0] == 't' <==> o == 2,
        origin_text(o)[0] == 'h' <==> o == 3,
        origin_text(o)[0] == 'l' <==> o == 5,
        origin_text(o).len() == 10 <==> o == 4,
        origin_text(o).len() == 8 <==> o > 5,
{
    reveal_strlit("?");
    reveal_strlit("snapshot-done");
    reveal_strlit("tlab-safepoint");
    reveal_strlit("hard-pressure");
    reveal_strlit("exhaustion");
    reveal_strlit("large-exhaustion");
    reveal_strlit("explicit");
}

/// A setting is the number it spells, with blanks round it or not, and none where it is
/// not set; a figure that is kept between two bounds is the nearest to itself.
pub proof fn law_settings_and_bounds(n: int, lo: int, hi: int)
    requires
        lo <= hi,
    ensures
        setting(None) is None,
        lo <= clamped(n, lo, hi) <= hi,
        lo <= n <= hi ==> clamped(n, lo, hi) == n,
        n < lo ==> clamped(n, lo, hi) == lo,
        n > hi ==> clamped(n, lo, hi) == hi,
{
}

/// An object is given its kind once, in the two bits that hold it; its size, and the
/// others, stay, and a block that may hold one to drop is flagged.
pub proof fn law_a_kind_is_given(
    before: &Space,
    after: &Space,
    q: int,
    kind: u8,
    has_drop: bool,
    p: int,
)
    requires
        after.kind_set(before, q, kind, has_drop),
        0 <= q < before.tables.objects.len(),
        0 <= q / 2048 < before.tables.blocks.len(),
        kind == 0x20 || kind == 0x40,
        before.tables.objects[q] & 0x60 == 0,
        after.tables.blocks.len() == before.tables.blocks.len(),
    ensures
        after.tables.objects[q] & 0x60 == kind,
        after.tables.objects[q] & 0x1F == before.tables.objects[q] & 0x1F,
        after.tables.objects[q] & 0x80 == before.tables.objects[q] & 0x80,
        p != q && 0 <= p < before.tables.objects.len() ==> after.tables.objects[p]
            == before.tables.objects[p],
        kind == 0x40 && has_drop ==> after.tables.blocks[q / 2048].has_drop,
        kind == 0x20 ==> after.tables.blocks[q / 2048].has_drop == before.tables.blocks[q
            / 2048].has_drop,
{
    let b = before.tables.objects[q];
    assert(b & 0x60 == 0 && (kind == 0x20 || kind == 0x40) ==> (b | kind) & 0x60 == kind && (b
        | kind) & 0x1F == b & 0x1F && (b | kind) & 0x80 == b & 0x80) by (bit_vector);
}

/// A collection that has to wait is remembered, and one that was is not forgotten; a
/// world that publishes its roots only at safepoints is waited for. Nothing else
/// differs.
pub proof fn law_what_is_noted_on_the_trigger(
    before: &ImmixAllocator,
    after: &ImmixAllocator,
    later: bool,
)
    ensures
        before.noting(later).trigger.collect_pending == (later || before.trigger.collect_pending),
        before.noting(later).space == before.space,
        before.noting(later).stats == before.stats,
        before.noting(later).roots == before.roots,
        before.noting(later).trigger.bytes_since_gc == before.trigger.bytes_since_gc,
        before.noting(later).trigger.enabled == before.trigger.enabled,
        after.waits_for_safepoints(before) ==> after.trigger.safepoint_mode && after.space
            == before.space && after.trigger.enabled == before.trigger.enabled
            && after.trigger.collect_pending == before.trigger.collect_pending,
{
}

/// Before anything was allocated or collected, every figure is nought.
pub proof fn law_figures_begin_at_nought()
    ensures
        GcStats::zero().collections == 0 && GcStats::zero().blocks_reclaimed == 0,
        GcStats::zero().lines_recycled == 0 && GcStats::zero().bytes_allocated == 0,
        GcStats::zero().external_bytes == 0 && GcStats::zero().live_blocks == 0,
        GcStats::zero().pause_ns_total == 0 && GcStats::zero().pause_ns_max == 0,
        GcStats::zero().stops_abandoned == 0,
{
}

/// A sweep reports the blocks it gave back, and counts the others and their lines.
pub proof fn law_a_sweep_reports_what_it_found(r: &SweepReport, d: Space, opts: SweepOptions, i: int)
    requires
        r.tells(d, opts),
        0 <= i < 6,
    ensures
        ({
            let n = d.tables.blocks.len() as nat;
            &&& r.freed@ == d.freed_upto(n, opts)
            &&& r.retained == d.retained_upto(n)
            &&& r.marked_lines == d.lines_upto(n)
            &&& r.bars[i] == d.bar_upto(n, i)
        }),
        r.bars[0] + r.bars[1] + r.bars[2] + r.bars[3] + r.bars[4] + r.bars[5] == r.retained,
        r.retained <= r.marked_lines,
{
    crate::heap::reclaim::law_the_report_adds_up(&d, d.tables.blocks.len() as nat);
    assert(r.bars[0] == d.bar_upto(d.tables.blocks.len() as nat, 0));
    assert(r.bars[1] == d.bar_upto(d.tables.blocks.len() as nat, 1));
    assert(r.bars[2] == d.bar_upto(d.tables.blocks.len() as nat, 2));
    assert(r.bars[3] == d.bar_upto(d.tables.blocks.len() as nat, 3));
    assert(r.bars[4] == d.bar_upto(d.tables.blocks.len() as nat, 4));
    assert(r.bars[5] == d.bar_upto(d.tables.blocks.len() as nat, 5));
}

/// Pages that are handed back together lie together: no two runs touch, and none is
/// empty.
pub proof fn law_runs_do_not_touch(runs: Seq<(usize, usize)>, i: int)
    requires
        runs_apart(runs),
        0 <= i < runs.len(),
    ensures
        runs[i].1 > 0 && runs[i].1 % 32768 == 0,
        i + 1 < runs.len() ==> runs[i].0 + runs[i].1 != runs[i + 1].0,
{
}

/// A descriptor that is not known neither traces nor drops; one that is does what it says.
pub proof fn law_unknown_descriptors_do_nothing(h: &FieldHooks, desc: u64, i: int)
    ensures
        (forall|k: int| 0 <= k < h.descs.len() ==> (#[trigger] h.descs[k]).desc != desc)
            ==> !h.traces(desc) && !h.drops(desc),
        0 <= i < h.descs.len() && h.descs[i].desc == desc && (forall|k: int|
            0 <= k < i ==> (#[trigger] h.descs[k]).desc != desc) ==> h.traces(desc)
            == h.descs[i].traces && h.drops(desc) == h.descs[i].drops,
{
    law_a_descriptor_is_found(h.descs@, desc, i);
    let at = FieldHooks::find(h.descs@, desc);
    if at < h.descs.len() {
        let _ = h.descs[at];
    }
}

} // verus!
