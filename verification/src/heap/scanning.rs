//! What a scan plan covers: every place outside the heap where a pointer may be.

use vstd::prelude::*;

use crate::heap::mutators::{MutatorRecord, MutatorSnapshot, MutatorWorld};
use crate::heap::roots::{
    all_published, published_plan, range_plan, running_on, scan_plan_of, slot_plan, stack_plan,
    stack_plans, suspended_plan, suspended_plans, FiberStackInfo,
};
use crate::platform::Platform;

verus! {

/// Whether the word at `a` is read under the plan.
pub open spec fn covers(plan: Seq<(usize, usize)>, a: int) -> bool {
    exists|i: int| 0 <= i < plan.len() && (#[trigger] plan[i]).0 <= a && a + 8 <= plan[i].1
}

proof fn lemma_covers_part(
    x: Seq<(usize, usize)>,
    y: Seq<(usize, usize)>,
    z: Seq<(usize, usize)>,
    a: int,
)
    requires
        covers(y, a),
    ensures
        covers(x + y + z, a),
{
    let i = choose|i: int| 0 <= i < y.len() && (#[trigger] y[i]).0 <= a && a + 8 <= y[i].1;
    assert((x + y + z)[x.len() + i] == y[i]);
}

/// The parts of a plan are each covered by the whole.
proof fn lemma_parts(
    slots: Seq<usize>,
    globals: Option<(usize, usize)>,
    ranges: Seq<(usize, usize)>,
    fibers: Seq<FiberStackInfo>,
    mutators: Seq<MutatorSnapshot>,
    collector: u64,
    probe: usize,
    platform: Platform,
    a: int,
)
    ensures
        ({
            let plan = scan_plan_of(
                slots,
                globals,
                ranges,
                fibers,
                mutators,
                collector,
                probe,
                platform,
            );
            &&& covers(slot_plan(slots), a) ==> covers(plan, a)
            &&& globals matches Some((p, n)) ==> (covers(seq![(p, (p + n * 8) as usize)], a)
                ==> covers(plan, a))
            &&& covers(range_plan(ranges), a) ==> covers(plan, a)
            &&& covers(all_published(mutators), a) ==> covers(plan, a)
            &&& covers(stack_plans(fibers, mutators, collector, probe, platform), a) ==> covers(
                plan,
                a,
            )
        }),
{
    let s = slot_plan(slots);
    let g = match globals {
        Some((p, n)) => seq![(p, (p + n * 8) as usize)],
        None => Seq::empty(),
    };
    let r = range_plan(ranges);
    let p = all_published(mutators);
    let k = stack_plans(fibers, mutators, collector, probe, platform);
    let none = Seq::<(usize, usize)>::empty();
    let plan = s + g + r + p + k;
    assert(none + s + (g + r + p + k) =~= plan);
    assert(s + g + (r + p + k) =~= plan);
    assert((s + g) + r + (p + k) =~= plan);
    assert((s + g + r) + p + k =~= plan);
    assert((s + g + r + p) + k + none =~= plan);
    if covers(s, a) {
        lemma_covers_part(none, s, g + r + p + k, a);
    }
    if covers(g, a) {
        lemma_covers_part(s, g, r + p + k, a);
    }
    if covers(r, a) {
        lemma_covers_part(s + g, r, p + k, a);
    }
    if covers(p, a) {
        lemma_covers_part(s + g + r, p, k, a);
    }
    if covers(k, a) {
        lemma_covers_part(s + g + r + p, k, none, a);
    }
}

/// Every root slot is read, every word of the globals, and every aligned word of a
/// registered range.
pub proof fn law_registered_places_are_read(
    slots: Seq<usize>,
    globals: Option<(usize, usize)>,
    ranges: Seq<(usize, usize)>,
    fibers: Seq<FiberStackInfo>,
    mutators: Seq<MutatorSnapshot>,
    collector: u64,
    probe: usize,
    platform: Platform,
    i: int,
    a: int,
)
    ensures
        ({
            let plan = scan_plan_of(
                slots,
                globals,
                ranges,
                fibers,
                mutators,
                collector,
                probe,
                platform,
            );
            &&& 0 <= i < slots.len() && slots[i] + 8 <= usize::MAX ==> covers(
                plan,
                slots[i] as int,
            )
            &&& globals matches Some((p, n)) ==> (0 <= i < n && p + n * 8 <= usize::MAX ==> covers(
                plan,
                p + i * 8,
            ))
            &&& 0 <= i < ranges.len() && ranges[i].0 + ranges[i].1 <= usize::MAX && a % 8 == 0
                && ranges[i].0 <= a && a + 8 <= ranges[i].0 + ranges[i].1 ==> covers(plan, a)
        }),
{
    if 0 <= i < slots.len() && slots[i] + 8 <= usize::MAX {
        assert(slot_plan(slots)[i] == (slots[i], (slots[i] + 8) as usize));
        assert(covers(slot_plan(slots), slots[i] as int));
        lemma_parts(
            slots,
            globals,
            ranges,
            fibers,
            mutators,
            collector,
            probe,
            platform,
            slots[i] as int,
        );
    }
    match globals {
        Some((p, n)) => {
            if 0 <= i < n && p + n * 8 <= usize::MAX {
                let one = seq![(p, (p + n * 8) as usize)];
                assert(one[0].0 <= p + i * 8 && p + i * 8 + 8 <= one[0].1);
                assert(covers(one, p + i * 8));
                lemma_parts(
                    slots,
                    globals,
                    ranges,
                    fibers,
                    mutators,
                    collector,
                    probe,
                    platform,
                    p + i * 8,
                );
            }
        },
        None => {},
    }
    if 0 <= i < ranges.len() && ranges[i].0 + ranges[i].1 <= usize::MAX && a % 8 == 0
        && ranges[i].0 <= a && a + 8 <= ranges[i].0 + ranges[i].1 {
        assert(range_plan(ranges)[i].0 <= a && a + 8 <= range_plan(ranges)[i].1);
        assert(covers(range_plan(ranges), a));
        lemma_parts(slots, globals, ranges, fibers, mutators, collector, probe, platform, a);
    }
}

proof fn lemma_published(ranges: Seq<(usize, usize)>, k: int, a: int)
    requires
        0 <= k < ranges.len(),
        ranges[k].0 + ranges[k].1 <= usize::MAX,
        ranges[k].0 <= a,
        a + 8 <= ranges[k].0 + ranges[k].1,
    ensures
        covers(published_plan(ranges), a),
    decreases ranges.len(),
{
    let init = published_plan(ranges.drop_last());
    let all = published_plan(ranges);
    if k == ranges.len() - 1 {
        assert(all[init.len() as int].0 <= a && a + 8 <= all[init.len() as int].1);
    } else {
        assert(ranges.drop_last()[k] == ranges[k]);
        lemma_published(ranges.drop_last(), k, a);
        let i = choose|i: int|
            0 <= i < init.len() && (#[trigger] init[i]).0 <= a && a + 8 <= init[i].1;
        assert(all[i] == init[i]);
    }
}

proof fn lemma_all_published(mutators: Seq<MutatorSnapshot>, n: int, a: int)
    requires
        0 <= n < mutators.len(),
        covers(published_plan(mutators[n].scan_ranges@), a),
    ensures
        covers(all_published(mutators), a),
    decreases mutators.len(),
{
    let none = Seq::<(usize, usize)>::empty();
    let init = all_published(mutators.drop_last());
    let last = published_plan(mutators.last().scan_ranges@);
    if n == mutators.len() - 1 {
        lemma_covers_part(init, last, none, a);
        assert(init + last + none =~= all_published(mutators));
    } else {
        assert(mutators.drop_last()[n] == mutators[n]);
        lemma_all_published(mutators.drop_last(), n, a);
        lemma_covers_part(none, init, last, a);
        assert(none + init + last =~= all_published(mutators));
    }
}

/// Every word of a range that a mutator published is read.
pub proof fn law_published_ranges_are_read(
    slots: Seq<usize>,
    globals: Option<(usize, usize)>,
    ranges: Seq<(usize, usize)>,
    fibers: Seq<FiberStackInfo>,
    mutators: Seq<MutatorSnapshot>,
    collector: u64,
    probe: usize,
    platform: Platform,
    n: int,
    k: int,
    a: int,
)
    requires
        0 <= n < mutators.len(),
        0 <= k < mutators[n].scan_ranges@.len(),
        mutators[n].scan_ranges@[k].0 + mutators[n].scan_ranges@[k].1 <= usize::MAX,
        mutators[n].scan_ranges@[k].0 <= a,
        a + 8 <= mutators[n].scan_ranges@[k].0 + mutators[n].scan_ranges@[k].1,
    ensures
        covers(
            scan_plan_of(
                slots,
                globals,
                ranges,
                fibers,
                mutators,
                collector,
                probe,
                platform,
            ),
            a,
        ),
{
    lemma_published(mutators[n].scan_ranges@, k, a);
    lemma_all_published(mutators, n, a);
    lemma_parts(slots, globals, ranges, fibers, mutators, collector, probe, platform, a);
}

proof fn lemma_stacks(
    fibers: Seq<FiberStackInfo>,
    mutators: Seq<MutatorSnapshot>,
    collector: u64,
    probe: usize,
    platform: Platform,
    n: int,
    a: int,
)
    requires
        0 <= n < mutators.len(),
        covers(stack_plan(fibers, mutators[n], collector, probe, platform), a),
    ensures
        covers(stack_plans(fibers, mutators, collector, probe, platform), a),
    decreases mutators.len(),
{
    let none = Seq::<(usize, usize)>::empty();
    let init = stack_plans(fibers, mutators.drop_last(), collector, probe, platform);
    let last = stack_plan(fibers, mutators.last(), collector, probe, platform);
    let all = stack_plans(fibers, mutators, collector, probe, platform);
    if n == mutators.len() - 1 {
        lemma_covers_part(init, last, none, a);
        assert(init + last + none =~= all);
    } else {
        assert(mutators.drop_last()[n] == mutators[n]);
        lemma_stacks(fibers, mutators.drop_last(), collector, probe, platform, n, a);
        lemma_covers_part(none, init, last, a);
        assert(none + init + last =~= all);
    }
}

/// Whether a stack pointer lies on one of a thread's own stacks.
pub open spec fn on_fiber(f: FiberStackInfo, thread: u64, sp: int) -> bool {
    f.thread == thread && f.size > 0 && f.base <= sp < f.base + f.size
}

proof fn lemma_not_running(fibers: Seq<FiberStackInfo>, thread: u64, sp: int)
    requires
        forall|i: int| 0 <= i < fibers.len() ==> !on_fiber(#[trigger] fibers[i], thread, sp),
    ensures
        running_on(fibers, thread, sp) is None,
    decreases fibers.len(),
{
    if fibers.len() > 0 {
        let rest = fibers.skip(1);
        let _ = fibers[0];
        assert forall|i: int| 0 <= i < rest.len() implies !on_fiber(
            #[trigger] rest[i],
            thread,
            sp,
        ) by {
            assert(rest[i] == fibers[i + 1]);
        }
        lemma_not_running(rest, thread, sp);
    }
}

proof fn lemma_running(fibers: Seq<FiberStackInfo>, thread: u64, sp: int, k: int)
    requires
        0 <= k < fibers.len(),
        on_fiber(fibers[k], thread, sp),
        forall|i: int|
            0 <= i < fibers.len() && i != k ==> !on_fiber(#[trigger] fibers[i], thread, sp),
    ensures
        running_on(fibers, thread, sp) == Some((fibers[k].id, fibers[k].base + fibers[k].size)),
    decreases fibers.len(),
{
    if k > 0 {
        let rest = fibers.skip(1);
        let _ = fibers[0];
        assert(rest[k - 1] == fibers[k]);
        assert forall|i: int| 0 <= i < rest.len() && i != k - 1 implies !on_fiber(
            #[trigger] rest[i],
            thread,
            sp,
        ) by {
            assert(rest[i] == fibers[i + 1]);
        }
        lemma_running(rest, thread, sp, k - 1);
    }
}

/// The stack a mutator runs on is read from its stack pointer to the top: the
/// collector's from the probe, another's from where it stopped; its own stack up
/// to the registered top, and a fiber's up to the fiber's end.
pub proof fn law_the_running_stack_is_read(
    slots: Seq<usize>,
    globals: Option<(usize, usize)>,
    ranges: Seq<(usize, usize)>,
    fibers: Seq<FiberStackInfo>,
    mutators: Seq<MutatorSnapshot>,
    collector: u64,
    probe: usize,
    platform: Platform,
    n: int,
    sp: usize,
    a: int,
)
    requires
        0 <= n < mutators.len(),
        sp == if mutators[n].thread == collector {
            probe
        } else {
            mutators[n].stack_sp
        },
        sp != 0,
        sp % 8 == 0,
        sp <= a,
        a % 8 == 0,
        ({
            ||| (forall|i: int|
                0 <= i < fibers.len() ==> !on_fiber(
                    #[trigger] fibers[i],
                    mutators[n].thread,
                    sp as int,
                )) && a + 8 <= mutators[n].stack_top
            ||| exists|k: int|
                0 <= k < fibers.len() && on_fiber(
                    #[trigger] fibers[k],
                    mutators[n].thread,
                    sp as int,
                ) && (forall|i: int|
                    0 <= i < fibers.len() && i != k ==> !on_fiber(
                        #[trigger] fibers[i],
                        mutators[n].thread,
                        sp as int,
                    )) && a + 8 <= fibers[k].base + fibers[k].size && fibers[k].base
                    + fibers[k].size <= usize::MAX
        }),
    ensures
        covers(
            scan_plan_of(
                slots,
                globals,
                ranges,
                fibers,
                mutators,
                collector,
                probe,
                platform,
            ),
            a,
        ),
{
    let m = mutators[n];
    let plan = stack_plan(fibers, m, collector, probe, platform);
    if forall|i: int| 0 <= i < fibers.len() ==> !on_fiber(#[trigger] fibers[i], m.thread, sp as int) {
        lemma_not_running(fibers, m.thread, sp as int);
        assert(plan[0] == (sp, m.stack_top));
    } else {
        let k = choose|k: int|
            0 <= k < fibers.len() && on_fiber(#[trigger] fibers[k], m.thread, sp as int) && (
            forall|i: int|
                0 <= i < fibers.len() && i != k ==> !on_fiber(
                    #[trigger] fibers[i],
                    m.thread,
                    sp as int,
                )) && a + 8 <= fibers[k].base + fibers[k].size && fibers[k].base + fibers[k].size
                <= usize::MAX;
        lemma_running(fibers, m.thread, sp as int, k);
        assert(plan[0] == (sp, (fibers[k].base + fibers[k].size) as usize));
    }
    assert(covers(plan, a));
    lemma_stacks(fibers, mutators, collector, probe, platform, n, a);
    lemma_parts(slots, globals, ranges, fibers, mutators, collector, probe, platform, a);
}

proof fn lemma_suspended(
    fibers: Seq<FiberStackInfo>,
    m: MutatorSnapshot,
    running: Option<(u32, int)>,
    platform: Platform,
    k: int,
    a: int,
)
    requires
        0 <= k < fibers.len(),
        covers(suspended_plan(fibers[k], m, running, platform), a),
    ensures
        covers(suspended_plans(fibers, m, running, platform), a),
    decreases fibers.len(),
{
    let none = Seq::<(usize, usize)>::empty();
    let init = suspended_plans(fibers.drop_last(), m, running, platform);
    let last = suspended_plan(fibers.last(), m, running, platform);
    let all = suspended_plans(fibers, m, running, platform);
    if k == fibers.len() - 1 {
        lemma_covers_part(init, last, none, a);
        assert(init + last + none =~= all);
    } else {
        assert(fibers.drop_last()[k] == fibers[k]);
        lemma_suspended(fibers.drop_last(), m, running, platform, k, a);
        lemma_covers_part(none, init, last, a);
        assert(none + init + last =~= all);
    }
}

/// A fiber's stack that its thread has left is read from where it was left to its
/// end, whatever stack the thread runs on now.
pub proof fn law_a_left_stack_is_read(
    slots: Seq<usize>,
    globals: Option<(usize, usize)>,
    ranges: Seq<(usize, usize)>,
    fibers: Seq<FiberStackInfo>,
    mutators: Seq<MutatorSnapshot>,
    collector: u64,
    probe: usize,
    platform: Platform,
    n: int,
    sp: usize,
    k: int,
    a: int,
)
    requires
        0 <= n < mutators.len(),
        sp == if mutators[n].thread == collector {
            probe
        } else {
            mutators[n].stack_sp
        },
        sp != 0,
        sp % 8 == 0,
        0 <= k < fibers.len(),
        fibers[k].thread == mutators[n].thread,
        fibers[k].size > 0,
        fibers[k].base + fibers[k].size <= usize::MAX,
        fibers[k].saved_sp != 0,
        !on_fiber(fibers[k], mutators[n].thread, sp as int),
        forall|i: int|
            0 <= i < fibers.len() && (#[trigger] fibers[i]).id == fibers[k].id ==> !on_fiber(
                fibers[i],
                mutators[n].thread,
                sp as int,
            ),
        a % 8 == 0,
        fibers[k].saved_sp <= a,
        a + 8 <= fibers[k].base + fibers[k].size,
    ensures
        covers(
            scan_plan_of(
                slots,
                globals,
                ranges,
                fibers,
                mutators,
                collector,
                probe,
                platform,
            ),
            a,
        ),
{
    let m = mutators[n];
    let f = fibers[k];
    let running = running_on(fibers, m.thread, sp as int);
    if running is Some {
        lemma_running_is(fibers, m.thread, sp as int);
    }
    let one = suspended_plan(f, m, running, platform);
    assert(one[0].0 <= a && a + 8 <= one[0].1);
    assert(covers(one, a));
    lemma_suspended(fibers, m, running, platform, k, a);
    let plan = stack_plan(fibers, m, collector, probe, platform);
    let left = suspended_plans(fibers, m, running, platform);
    let none = Seq::<(usize, usize)>::empty();
    let live = plan.take(plan.len() - left.len());
    assert(live + left + none =~= plan);
    lemma_covers_part(live, left, none, a);
    lemma_stacks(fibers, mutators, collector, probe, platform, n, a);
    lemma_parts(slots, globals, ranges, fibers, mutators, collector, probe, platform, a);
}

proof fn lemma_running_is(fibers: Seq<FiberStackInfo>, thread: u64, sp: int)
    requires
        running_on(fibers, thread, sp) is Some,
    ensures
        exists|i: int|
            0 <= i < fibers.len() && on_fiber(#[trigger] fibers[i], thread, sp) && fibers[i].id
                == (running_on(fibers, thread, sp)->0).0,
    decreases fibers.len(),
{
    if on_fiber(fibers[0], thread, sp) {
        assert(on_fiber(fibers[0], thread, sp));
    } else {
        let rest = fibers.skip(1);
        lemma_running_is(rest, thread, sp);
        let i = choose|i: int|
            0 <= i < rest.len() && on_fiber(#[trigger] rest[i], thread, sp) && rest[i].id == (
            running_on(rest, thread, sp)->0).0;
        assert(fibers[i + 1] == rest[i]);
    }
}

/// A thread that runs on a fiber has left its own stack: that is read from where it
/// was left to the registered top.
pub proof fn law_the_left_host_stack_is_read(
    slots: Seq<usize>,
    globals: Option<(usize, usize)>,
    ranges: Seq<(usize, usize)>,
    fibers: Seq<FiberStackInfo>,
    mutators: Seq<MutatorSnapshot>,
    collector: u64,
    probe: usize,
    platform: Platform,
    n: int,
    sp: usize,
    j: int,
    k: int,
    a: int,
)
    requires
        0 <= n < mutators.len(),
        sp == if mutators[n].thread == collector {
            probe
        } else {
            mutators[n].stack_sp
        },
        sp != 0,
        sp % 8 == 0,
        0 <= j < fibers.len(),
        on_fiber(fibers[j], mutators[n].thread, sp as int),
        forall|i: int|
            0 <= i < fibers.len() && i != j ==> !on_fiber(
                #[trigger] fibers[i],
                mutators[n].thread,
                sp as int,
            ),
        0 <= k < fibers.len(),
        fibers[k].thread == mutators[n].thread,
        fibers[k].size == 0,
        fibers[k].id != fibers[j].id,
        fibers[k].saved_sp != 0,
        a % 8 == 0,
        fibers[k].saved_sp <= a || (platform is Wasm && mutators[n].stack_top - 1048576 <= a && 0
            <= a),
        a + 8 <= mutators[n].stack_top,
    ensures
        covers(
            scan_plan_of(
                slots,
                globals,
                ranges,
                fibers,
                mutators,
                collector,
                probe,
                platform,
            ),
            a,
        ),
{
    let m = mutators[n];
    let f = fibers[k];
    lemma_running(fibers, m.thread, sp as int, j);
    let running = running_on(fibers, m.thread, sp as int);
    let one = suspended_plan(f, m, running, platform);
    assert(one[0].0 <= a && a + 8 <= one[0].1);
    assert(covers(one, a));
    lemma_suspended(fibers, m, running, platform, k, a);
    let plan = stack_plan(fibers, m, collector, probe, platform);
    let left = suspended_plans(fibers, m, running, platform);
    let none = Seq::<(usize, usize)>::empty();
    let live = plan.take(plan.len() - left.len());
    assert(live + left + none =~= plan);
    lemma_covers_part(live, left, none, a);
    lemma_stacks(fibers, mutators, collector, probe, platform, n, a);
    lemma_parts(slots, globals, ranges, fibers, mutators, collector, probe, platform, a);
}

/// What is scanned of a stopped mutator is what it left: its stack from where it
/// stopped, its registers, and the ranges it published, or the real ones of the
/// table it keeps itself.
pub proof fn law_a_snapshot_is_what_the_mutator_left(
    w: &MutatorWorld,
    read: Seq<(u64, Vec<(usize, usize)>)>,
    r: Seq<MutatorSnapshot>,
    n: int,
    t: int,
)
    requires
        w.scanned(read, r),
        0 <= n < w.mutators.len(),
    ensures
        r.len() == w.mutators.len(),
        r[n].thread == w.mutators[n].thread,
        r[n].stack_top == w.mutators[n].stack_top,
        r[n].stack_sp == w.mutators[n].stopped_sp,
        r[n].saved_regs == w.mutators[n].saved_regs,
        w.mutators[n].scan_live is None ==> r[n].scan_ranges@ == w.mutators[n].scan_ranges@,
        w.mutators[n].scan_live matches Some((at, len)) ==> (at != 0 && len != 0 && 0 <= t
            < read.len() && read[t].0 == w.mutators[n].thread && (forall|i: int|
            0 <= i < t ==> (#[trigger] read[i]).0 != w.mutators[n].thread) ==> forall|x: (
            usize,
            usize,
        )| #[trigger]
            r[n].scan_ranges@.contains(x) <==> read[t].1@.contains(x) && x.0 != 0 && x.1 != 0),
{
    assert(MutatorWorld::snapshot_of(r[n], w.mutators[n], read));
    let m: MutatorRecord = w.mutators[n];
    if MutatorWorld::keeps_table(m) && 0 <= t < read.len() && read[t].0 == m.thread && (forall|i: int|
        0 <= i < t ==> (#[trigger] read[i]).0 != m.thread) {
        lemma_table(read, m.thread, t);
        assert forall|x: (usize, usize)| #[trigger]
            r[n].scan_ranges@.contains(x) <==> read[t].1@.contains(x) && x.0 != 0 && x.1
                != 0 by {
            lemma_real(read[t].1@, x);
        }
    }
}

proof fn lemma_table(read: Seq<(u64, Vec<(usize, usize)>)>, thread: u64, t: int)
    requires
        0 <= t < read.len(),
        read[t].0 == thread,
        forall|i: int| 0 <= i < t ==> (#[trigger] read[i]).0 != thread,
    ensures
        MutatorWorld::table_of(read, thread) == read[t].1@,
    decreases read.len(),
{
    if t > 0 {
        let _ = read[0];
        let rest = read.skip(1);
        assert(rest[t - 1] == read[t]);
        assert forall|i: int| 0 <= i < t - 1 implies (#[trigger] rest[i]).0 != thread by {
            assert(rest[i] == read[i + 1]);
        }
        lemma_table(rest, thread, t - 1);
    }
}

proof fn lemma_real(ranges: Seq<(usize, usize)>, x: (usize, usize))
    ensures
        MutatorWorld::real_ranges(ranges).contains(x) <==> ranges.contains(x) && x.0 != 0 && x.1
            != 0,
    decreases ranges.len(),
{
    if ranges.len() > 0 {
        let front = ranges.drop_last();
        lemma_real(front, x);
        let init = MutatorWorld::real_ranges(front);
        let all = MutatorWorld::real_ranges(ranges);
        if all.contains(x) {
            let i = choose|i: int| 0 <= i < all.len() && all[i] == x;
            if i < init.len() {
                assert(init[i] == x);
                let j = choose|j: int| 0 <= j < front.len() && front[j] == x;
                assert(ranges[j] == x);
            } else {
                assert(ranges[ranges.len() - 1] == x);
            }
        }
        if ranges.contains(x) && x.0 != 0 && x.1 != 0 {
            let j = choose|j: int| 0 <= j < ranges.len() && ranges[j] == x;
            if j < front.len() {
                assert(front[j] == x);
                let i = choose|i: int| 0 <= i < init.len() && init[i] == x;
                assert(all[i] == x);
            } else {
                assert(all[all.len() - 1] == x);
            }
        }
    }
}

} // verus!
