use caribou::heap::claims::is_claimed;
use caribou::heap::api::{
    collections, enable, get_flags, handle_get, handle_new, handle_release, profile, set_flags,
    track_external, GC_FLAG_PROFILE,
};
use caribou::heap::collect::Collection;
use caribou::heap::deferred::{handle_release_deferred, Deferred};
use caribou::heap::dump::out_of_memory;
use caribou::heap::grant::{
    should_collect, Attempt, Grant, TriggerContext, ORIGIN_EXHAUSTION, ORIGIN_LARGE, ORIGIN_PRESSURE,
    ORIGIN_TLAB,
};
use caribou::heap::handback::{audit, merge_runs, Finding};
use caribou::heap::handles::Handle;
use caribou::heap::hooks::{FieldDesc, FieldHooks};
use caribou::heap::host::{AllocKind, Bump};
use caribou::heap::immix::{GcStats, ImmixAllocator};
use caribou::heap::layout::{
    stack_scan_start, word_align_up, ALLOC_QUANTUM, BLOCK_SIZE, LINES_PER_BLOCK, LINE_SIZE,
    OBJECT_KIND_MASK, OBJECT_KIND_NOPTR, OBJECT_KIND_TRACED, OBJECT_MARK, WORD,
};
use caribou::heap::lock::{
    gc_guard, gc_lock_held_depth, gc_lock_release, gc_lock_unwind_to, next_drain,
    release_deferred_handles, Drain, ReentrantGcLock, Release,
};
use caribou::heap::memory::HeapMemory;
use caribou::heap::major::major;
use caribou::heap::mutators::{Blocking, MutatorSnapshot, MutatorWorld, Park, Register, Stop};
use caribou::heap::queue::MarkQueue;
use caribou::heap::roots::{push_candidates, scan_plan, FiberStackInfo};
use caribou::heap::sizing::{gc_stress_every, growth_factor, tlab_enabled};
use caribou::heap::surface::{get_live_objects, register_root, thread_registered};
use caribou::heap::sweep::SweepOptions;
use caribou::heap::tables::Tables;
use caribou::heap::tracer::Tracer;
use caribou::platform::Platform;
use caribou::value::Value;

const BASE: usize = 0x40_0000;

fn heap(size: usize) -> ImmixAllocator {
    ImmixAllocator::with_heap_size(BASE, size)
}

fn context() -> TriggerContext {
    TriggerContext {
        registered: true,
        deferred: false,
        stress: 0,
        quiet: false,
        ceiling: 1 << 30,
        heap_max: 1 << 30,
    }
}

fn options() -> SweepOptions {
    SweepOptions {
        recycle: true,
        no_reclaim: false,
        poison: false,
        quarantine: false,
    }
}

fn allocate(gc: &mut ImmixAllocator, size: usize) -> usize {
    match gc.allocate(size, Attempt::Triggered, context(), true) {
        Grant::At(addr) => addr,
        _ => panic!("no room for {size} bytes"),
    }
}

fn offset(p: usize) -> usize {
    p - BASE
}

fn write(gc: &mut ImmixAllocator, addr: usize, word: usize) {
    assert!(gc.space.memory.write(addr, word as u64));
}

fn object_marked(gc: &ImmixAllocator, at: usize) -> bool {
    gc.space.tables.objects[at / ALLOC_QUANTUM] & OBJECT_MARK != 0
}

fn unmark(gc: &mut ImmixAllocator, at: usize) {
    gc.space.tables.objects[at / ALLOC_QUANTUM] &= !OBJECT_MARK;
}

fn kind_of(gc: &ImmixAllocator, at: usize) -> u8 {
    gc.space.tables.objects[at / ALLOC_QUANTUM] & OBJECT_KIND_MASK
}

fn find(gc: &ImmixAllocator, at: usize) -> Option<(usize, usize)> {
    gc.space.tables.allocation_at(at)
}

fn mark(gc: &mut ImmixAllocator, at: usize) -> Vec<(usize, usize)> {
    let mut work = Vec::new();
    gc.space.tables.mark_allocation(at, &mut work);
    work
}

fn trace(gc: &mut ImmixAllocator, hooks: &FieldHooks, work: Vec<(usize, usize)>) {
    gc.space
        .tables
        .conservative_trace(&gc.space.memory, hooks, work);
}

fn sweep(gc: &mut ImmixAllocator, hooks: &mut FieldHooks) {
    gc.space.drop_dead_traced(hooks);
    let _ = gc.space.sweep(options());
}

#[test]
fn widened_stack_scan_start_preserves_word_alignment() {
    // A byte-aligned anchor below a word-aligned suspended SP.
    assert_eq!(stack_scan_start(0x7fddd4, 0x7fffff, 1024 * 1024), 0x700000);
    // A probe below the window still wins; a zero window is the native
    // and ordinary fiber-stack case. Widening must not underflow.
    assert_eq!(
        stack_scan_start(0x600001, 0x7fffff, 1024 * 1024),
        word_align_up(0x600001)
    );
    assert_eq!(
        stack_scan_start(0x7fddd4, 0x7fffff, 0),
        word_align_up(0x7fddd4)
    );
    assert_eq!(stack_scan_start(128, 255, 1024 * 1024), 0);
}

#[test]
fn widened_main_stack_scan_traces_callback_chain() {
    // Every possible byte alignment of the stack-top anchor, with a root below
    // the saved probe.
    for residue in 0..WORD {
        let mut gc = heap(BLOCK_SIZE * 4);
        let hooks = FieldHooks::new();
        let owner = allocate(&mut gc, 16);
        let callback = allocate(&mut gc, 16);
        let unrelated = allocate(&mut gc, 16);
        write(&mut gc, owner, callback);
        let mut stack = [0u64; 16];
        stack[8] = owner as u64;
        let base = 0x7000_0000usize;
        let top = base + 15 * WORD + residue;
        let start = stack_scan_start(base + 14 * WORD, top, 8 * WORD);
        assert_eq!(start % WORD, 0, "stack-top remainder {residue}");
        assert!((base + 7 * WORD..=base + 8 * WORD).contains(&start));
        let first = (start - base) / WORD;
        let mut words = Vec::new();
        push_candidates(&stack[first..15], &mut words);
        let mut roots = Vec::new();
        gc.space
            .tables
            .mark_words(&gc.space.memory, &words, &mut roots);
        trace(&mut gc, &hooks, roots);
        assert!(object_marked(&gc, offset(owner)));
        assert!(object_marked(&gc, offset(callback)));
        assert!(!object_marked(&gc, offset(unrelated)));
    }
}

#[test]
fn tlab_bumps_publish_object_bounds_and_skip_line_tails() {
    assert!(tlab_enabled(0, None));
    let mut gc = heap(BLOCK_SIZE * 4);
    let a = match gc.tlab_refill_then_alloc(7, 80, Attempt::Triggered, context(), true) {
        Grant::At(addr) => addr,
        _ => panic!("a fresh heap has blocks"),
    };
    let bump = |gc: &mut ImmixAllocator, size: usize| match gc.gc_alloc(7, true, true, size) {
        Bump::At(addr) => addr,
        other => panic!("{other:?}"),
    };
    let b = bump(&mut gc, 64);
    let c = bump(&mut gc, 16);
    let block = offset(a);
    assert_eq!(block % BLOCK_SIZE, 0);
    assert_eq!(offset(b), block + LINE_SIZE);
    assert_eq!(offset(c), block + LINE_SIZE + 64);
    assert_eq!(find(&gc, block + 79), Some((block, 80)));
    assert_eq!(
        find(&gc, block + 80),
        None,
        "the skipped tail is not an object"
    );
    assert_eq!(
        find(&gc, block + LINE_SIZE + 63),
        Some((block + LINE_SIZE, 64))
    );
    assert_eq!(
        find(&gc, block + LINE_SIZE + 64),
        Some((block + LINE_SIZE + 64, 16))
    );
    gc.space.release_tlab_region(7);
    assert!(matches!(gc.gc_alloc(7, true, true, 16), Bump::Refill));
    assert!(matches!(gc.gc_alloc(7, false, true, 16), Bump::Locked));
}

#[test]
fn packed_neighbours_do_not_form_a_retention_chain() {
    let mut gc = heap(BLOCK_SIZE * 4);
    let hooks = FieldHooks::new();
    let mut buffers = Vec::new();
    let mut neighbours = Vec::new();
    for _ in 0..64 {
        buffers.push(allocate(&mut gc, 80));
        allocate(&mut gc, 16); // empty array
        neighbours.push(allocate(&mut gc, 16)); // next Haxe Array
        allocate(&mut gc, 16);
    }
    for i in 0..63 {
        write(&mut gc, neighbours[i], buffers[i + 1]);
    }
    // An interior conservative pointer, like a numeric word overlapping
    // the heap, may retain ONE buffer, not every neighbour's graph.
    let work = mark(&mut gc, offset(buffers[0]) + 7);
    trace(&mut gc, &hooks, work);
    assert!(object_marked(&gc, offset(buffers[0])));
    for i in 0..64 {
        assert!(!object_marked(&gc, offset(neighbours[i])));
        if i > 0 {
            assert!(!object_marked(&gc, offset(buffers[i])));
        }
    }

    // A second REAL root on that already-marked line must still trace.
    let work = mark(&mut gc, offset(neighbours[0]));
    trace(&mut gc, &hooks, work);
    assert!(object_marked(&gc, offset(buffers[1])));
    assert!(!object_marked(&gc, offset(neighbours[1])));
    assert!(!object_marked(&gc, offset(buffers[2])));
}

#[test]
fn allocation_lookup_checks_bounds_and_cross_block_spans() {
    let mut gc = heap(BLOCK_SIZE * 8);
    let start = offset(allocate(&mut gc, 160));
    let next = offset(allocate(&mut gc, 16));
    assert_eq!(find(&gc, start + 159), Some((start, 256)));
    assert_eq!(find(&gc, next + 15), Some((next, 16)));
    assert_eq!(
        find(&gc, next + 16),
        None,
        "not an earlier span or a neighbour"
    );
    let begin = offset(allocate(&mut gc, BLOCK_SIZE + 144));
    let work = mark(&mut gc, begin + BLOCK_SIZE + 140);
    assert_eq!(work, vec![(begin, BLOCK_SIZE + 256)]);
    assert!(gc.space.tables.blocks[begin / BLOCK_SIZE + 1].is_marked(1));
    assert!(!gc.space.tables.blocks[begin / BLOCK_SIZE + 1].is_marked(2));
}

#[test]
fn reused_lines_forget_old_spans_and_object_claims_reset() {
    let mut gc = heap(BLOCK_SIZE * 4);
    let mut hooks = FieldHooks::new();
    let start = offset(allocate(&mut gc, 256));
    gc.space.tables.clear_allocation_metadata(start, 256);
    // A TLAB refilling this span records small starts, not the old span.
    gc.space.tables.record_allocation(start + 32, 16);
    let work = mark(&mut gc, start + 36);
    assert_eq!(work, vec![(start + 32, 16)]);
    assert!(!gc.space.tables.blocks[start / BLOCK_SIZE].is_marked(1));
    sweep(&mut gc, &mut hooks);
    assert!(!object_marked(&gc, start + 32));
    let again = mark(&mut gc, start + 36);
    assert_eq!(again, work);
    gc.space.tables.clear_allocation_metadata(start, BLOCK_SIZE);
    assert_eq!(find(&gc, start + 36), None);
}

#[test]
fn parallel_markers_claim_each_object_once_even_on_the_same_line() {
    let mut gc = heap(BLOCK_SIZE * 4);
    let a = offset(allocate(&mut gc, 16));
    let b = offset(allocate(&mut gc, 16));
    // Four markers, their claims in some order: one of each wins.
    let mut total = 0;
    for _ in 0..4 {
        let mut work = Vec::new();
        gc.space.tables.mark_allocation(a, &mut work);
        gc.space.tables.mark_allocation(b, &mut work);
        total += work.len();
    }
    assert_eq!(total, 2);
}

#[test]
fn the_heap_base_is_line_aligned() {
    let heap = HeapMemory::new(BASE, BLOCK_SIZE * 4 / 8);
    assert_eq!(heap.base % LINE_SIZE, 0);
}

#[test]
fn collector_rendezvous_with_registered_os_mutator() {
    let mut world = MutatorWorld::new();
    let mut gc = heap(BLOCK_SIZE * 4);
    let mut hooks = FieldHooks::new();
    assert_eq!(world.register(1, 0x9000, "runtime"), Register::Done);
    assert_eq!(world.register(2, 0x8000, "hdll"), Register::Done);
    assert!(thread_registered(&world, 2));
    assert!(!thread_registered(&world, 3));
    assert!(matches!(world.safepoint(2, 0x7f00, [0; 10]), Park::Pass));
    assert!(world.request_stop(1), "there is another mutator to wait for");
    assert!(matches!(world.stop_progress(1, 0), Stop::Wait));
    assert!(matches!(world.safepoint(2, 0x7f00, [0; 10]), Park::Wait));
    assert!(!world.resume(2), "parked until the stop is over");
    assert!(matches!(world.stop_progress(1, 0), Stop::Stopped));
    let snapshots = world.snapshots(&vec![]);
    let c = Collection {
        stopped: true,
        collector: 1,
        floor: 1,
        ceiling: 1 << 30,
        growth: 2,
        opts: options(),
    };
    let report = gc.collect_garbage(&mut hooks, &snapshots, &vec![], c);
    assert!(report.is_some());
    assert_eq!(collections(&gc.stats), 1);
    world.release_world();
    assert!(world.resume(2));
    world.unregister(2);
    assert!(!thread_registered(&world, 2));

    // A mutator inside a native call that blocks is at rest where it stands.
    assert_eq!(world.register(2, 0x8000, "hdll"), Register::Done);
    assert_eq!(
        world.set_blocking(2, true, 0x7f00, [0; 10]),
        Blocking::Changed
    );
    assert!(world.request_stop(1));
    assert!(matches!(world.stop_progress(1, 0), Stop::Stopped));
    assert_eq!(
        world.set_blocking(2, false, 0x7f00, [0; 10]),
        Blocking::Wait
    );
    world.release_world();
    assert!(world.resume(2));
    assert_eq!(
        world.set_blocking(2, false, 0x7f00, [0; 10]),
        Blocking::Refused
    );
}

#[test]
fn a_stopped_world_stays_stopped() {
    let mut world = MutatorWorld::new();
    world.register(1, 0x9000, "runtime");
    world.register(2, 0x8000, "hdll");
    assert!(world.request_stop(1));
    assert!(matches!(world.safepoint(2, 0x7f00, [0; 10]), Park::Wait));
    assert_eq!(world.mutators[1].polls, 1);
    assert_eq!(world.row(1, 1), "hdll 0x2 parked polls=1 at=safepoint-world-lock");
    assert!(matches!(world.safepoint(1, 0x8f00, [0; 10]), Park::Pass));
    assert_eq!(world.register(3, 0x7000, "os-worker"), Register::Wait);
    assert_eq!(
        world.set_blocking(2, false, 0x7f00, [0; 10]),
        Blocking::Refused
    );
    assert!(!world.resume(2));
    assert!(matches!(world.stop_progress(1, 0), Stop::Stopped));
    world.release_world();
    assert!(world.resume(2));
    assert!(!world.mutators[1].parked);
    assert_eq!(world.mutators[1].site, 0);
    assert_eq!(world.register(3, 0x7000, "os-worker"), Register::Done);
}

#[test]
fn gc_reporting_prims_keep_their_documented_contract() {
    const CHUNK: usize = 4096;
    const CHUNKS: usize = 64;
    const LIVE_BYTES: usize = CHUNK * CHUNKS;
    let mut gc = heap(BLOCK_SIZE * 64);
    let mut hooks = FieldHooks::new();
    let (total0, count0, _) = gc.stats();
    assert_eq!(count0, 0, "allocation_count is documented as a constant");
    let mut live = Vec::new();
    for _ in 0..CHUNKS {
        live.push(allocate(&mut gc, CHUNK) as u64);
    }
    let (total1, count1, current1) = gc.stats();
    assert_eq!(count1, 0);
    assert!(total1 >= total0);
    assert!(total1 - total0 >= LIVE_BYTES as u64);
    assert!(current1 > 0);
    assert!(current1 <= (BLOCK_SIZE * 64) as u64);
    assert!(current1 >= LIVE_BYTES as u64);
    assert_eq!(current1 as usize % BLOCK_SIZE, 0);

    let before = collections(&gc.stats);
    let c = Collection {
        stopped: true,
        collector: 1,
        floor: 1,
        ceiling: 1 << 30,
        growth: 2,
        opts: options(),
    };
    // The chunks are still referenced from the words scanned.
    assert!(gc
        .collect_garbage(&mut hooks, &vec![], &live, c)
        .is_some());
    assert_eq!(collections(&gc.stats), before + 1);
    let (total2, count2, current2) = gc.stats();
    assert_eq!(count2, 0);
    assert!(total2 >= total1);
    assert!(current2 <= current1);
    assert!(current2 >= LIVE_BYTES as u64);

    const NEIGHBOUR: i32 = 1 << 4;
    set_flags(&mut gc.trigger, NEIGHBOUR);
    assert_eq!(get_flags(&gc.trigger) & GC_FLAG_PROFILE, 0);
    profile(&mut gc.trigger, true);
    assert_ne!(get_flags(&gc.trigger) & GC_FLAG_PROFILE, 0);
    assert_ne!(get_flags(&gc.trigger) & NEIGHBOUR, 0);
    profile(&mut gc.trigger, false);
    assert_eq!(get_flags(&gc.trigger) & GC_FLAG_PROFILE, 0);
    assert_ne!(get_flags(&gc.trigger) & NEIGHBOUR, 0);

    assert_eq!(get_live_objects(), -1);
}

const CALLBACK: usize = 0xCA11;

#[test]
fn an_unreachable_finalizable_block_is_resurrected_then_finalized_once() {
    let mut gc = heap(BLOCK_SIZE * 4);
    let hooks = FieldHooks::new();
    let live = allocate(&mut gc, 16);
    let dead = allocate(&mut gc, 16);
    for p in [live, dead] {
        write(&mut gc, p, CALLBACK);
        gc.register_finalizable(p);
    }
    let (live_at, dead_at) = (offset(live), offset(dead));

    // Only `live` is reachable.
    let work = mark(&mut gc, live_at);
    trace(&mut gc, &hooks, work);
    gc.take_dead_finalizers(&hooks);

    assert!(
        gc.finalizables.contains(&live_at) && !gc.finalizables.contains(&dead_at),
        "the pass must keep the reachable block and take the unreachable one"
    );
    assert!(object_marked(&gc, dead_at));
    assert_eq!(gc.space.memory.read(dead), Some(CALLBACK as u64));
    assert_eq!(gc.space.memory.read(live), Some(CALLBACK as u64));

    let due = gc.deferred.take_finalizers();
    assert_eq!(due, vec![(dead, CALLBACK as u64)]);
    assert!(
        gc.deferred.take_finalizers().is_empty(),
        "a body that comes back here runs nothing"
    );
    gc.deferred.finished();

    // The block is out of the table, so the cycle that actually reclaims
    // it must not call it again.
    unmark(&mut gc, dead_at);
    gc.take_dead_finalizers(&hooks);
    assert!(
        gc.deferred.take_finalizers().is_empty(),
        "a finalizer ran twice for one block"
    );
    gc.deferred.finished();

    // And the block that survived the first pass is finalized when it
    // does die, with the callback the first pass left alone.
    unmark(&mut gc, live_at);
    gc.take_dead_finalizers(&hooks);
    assert_eq!(
        gc.deferred.take_finalizers(),
        vec![(live, CALLBACK as u64)]
    );
}

#[test]
fn a_finalizer_that_guards_on_its_own_slot_still_runs() {
    let mut gc = heap(BLOCK_SIZE * 4);
    let hooks = FieldHooks::new();
    let block = allocate(&mut gc, 16);
    write(&mut gc, block, CALLBACK);
    gc.register_finalizable(block);
    gc.take_dead_finalizers(&hooks);
    // Run what is due: the body works only while its slot is set, and clears
    // it.
    let run = |gc: &mut ImmixAllocator| {
        let mut ran = 0;
        for (block, _) in gc.deferred.take_finalizers() {
            if gc.space.memory.read(block) != Some(0) {
                gc.space.memory.write(block, 0);
                ran += 1;
            }
        }
        gc.deferred.finished();
        ran
    };
    assert_eq!(
        run(&mut gc),
        1,
        "the collector cleared word zero before calling, so the body \
         took itself for already freed"
    );
    assert_eq!(
        gc.space.memory.read(block),
        Some(0),
        "the body clears its own slot"
    );

    // Explicitly freeing first is the other half of the same contract:
    // a null slot means the collector has nothing to call.
    let other = allocate(&mut gc, 16);
    write(&mut gc, other, CALLBACK);
    gc.register_finalizable(other);
    write(&mut gc, other, 0);
    gc.take_dead_finalizers(&hooks);
    assert_eq!(
        run(&mut gc),
        0,
        "a block freed explicitly must not be finalized again"
    );
}

#[test]
fn a_finalizable_block_reached_from_another_object_survives() {
    let mut gc = heap(BLOCK_SIZE * 4);
    let hooks = FieldHooks::new();
    let holder = allocate(&mut gc, 16);
    let held = allocate(&mut gc, 16);
    write(&mut gc, held, CALLBACK);
    gc.register_finalizable(held);
    // The only reference to `held` is a field of `holder`.
    write(&mut gc, holder, held);
    let work = mark(&mut gc, offset(holder));
    trace(&mut gc, &hooks, work);
    gc.take_dead_finalizers(&hooks);
    assert!(
        gc.deferred.take_finalizers().is_empty(),
        "a block the trace reached through a field is not garbage"
    );
    assert!(gc.finalizables.contains(&offset(held)));
}

#[test]
fn alloc_gen_records_the_finalizer_kind_and_leaves_word_zero_alone() {
    let mut gc = heap(BLOCK_SIZE * 4);
    let hooks = FieldHooks::new();
    let block = allocate(&mut gc, 32);
    gc.finish_alloc(block, 9, AllocKind::Finalizer, false, &hooks);
    let plain = allocate(&mut gc, 32);
    gc.finish_alloc(plain, 9, AllocKind::NoPtr, false, &hooks);
    assert!(gc.finalizables.contains(&offset(block)));
    assert!(
        !gc.finalizables.contains(&offset(plain)),
        "only the finalizer kind is recorded"
    );
    assert_eq!(
        gc.space.memory.read(block),
        Some(0),
        "word zero belongs to the caller's finalizer field"
    );
}

#[test]
fn alloc_gen_records_the_noptr_and_traced_kinds() {
    let mut gc = heap(BLOCK_SIZE * 4);
    let hooks = FieldHooks {
        descs: vec![FieldDesc {
            desc: 0x99,
            traces: false,
            fields: vec![],
            drops: false,
        }],
        log: vec![],
    };
    let mut make = |kind: AllocKind, desc: u64, traced: bool| {
        let p = allocate(&mut gc, 32);
        gc.finish_alloc(p, desc, kind, traced, &hooks);
        p
    };
    let noptr = make(AllocKind::NoPtr, 7, false);
    let raw = make(AllocKind::Raw, 7, false);
    let typed = make(AllocKind::Typed, 7, false);
    let traced = make(AllocKind::Typed, 0x99, true);
    assert_eq!(kind_of(&gc, offset(noptr)), OBJECT_KIND_NOPTR);
    assert_eq!(kind_of(&gc, offset(raw)), 0);
    assert_eq!(
        kind_of(&gc, offset(typed)),
        0,
        "a bare type has no hooks to read: Typed alone stays conservative"
    );
    assert_eq!(kind_of(&gc, offset(traced)), OBJECT_KIND_TRACED);
    assert!(
        !gc.space.tables.blocks[offset(traced) / BLOCK_SIZE].has_drop,
        "a hookless descriptor gives the sweep nothing to drop"
    );
    assert_eq!(gc.space.memory.read(traced), Some(0x99));
    assert_eq!(gc.space.memory.read(typed), Some(7));
    assert_eq!(gc.space.memory.read(noptr), Some(0));
}

#[test]
fn kind_bits_leave_size_decoding_intact() {
    let mut gc = heap(BLOCK_SIZE * 16);
    for kind in [0, OBJECT_KIND_NOPTR, OBJECT_KIND_TRACED] {
        for (size, reserved) in [
            (16, 16),
            (80, 80),
            (256, 256),
            (BLOCK_SIZE + 144, BLOCK_SIZE + 256),
        ] {
            let start = offset(allocate(&mut gc, size));
            if kind != 0 {
                gc.set_allocation_kind(start, kind, false);
            }
            assert_eq!(kind_of(&gc, start), kind);
            assert_eq!(find(&gc, start), Some((start, reserved)));
            assert_eq!(find(&gc, start + size - 1), Some((start, reserved)));
            assert_eq!(find(&gc, start + reserved), None, "{kind:#x} {size}");
            // The claim bit beside the kind bits changes nothing either.
            gc.space.tables.objects[start / ALLOC_QUANTUM] |= OBJECT_MARK;
            assert_eq!(find(&gc, start + size - 1), Some((start, reserved)));
            assert_eq!(kind_of(&gc, start), kind);
            unmark(&mut gc, start);
            // A pad allocation, so the next span does not start where
            // this one's reserved tail ends.
            allocate(&mut gc, 16);
        }
    }
}

/// `holder` points at `target` in word zero and nothing else does.
fn holder_and_target(gc: &mut ImmixAllocator, kind: u8) -> (usize, usize) {
    let hooks = FieldHooks::new();
    let holder = allocate(gc, 16);
    let target = allocate(gc, 16);
    write(gc, holder, target);
    let (holder, target) = (offset(holder), offset(target));
    if kind != 0 {
        gc.set_allocation_kind(holder, kind, false);
    }
    let work = mark(gc, holder);
    trace(gc, &hooks, work);
    (holder, target)
}

#[test]
fn a_noptr_block_retains_nothing_it_points_at() {
    let mut gc = heap(BLOCK_SIZE * 4);
    let (holder, target) = holder_and_target(&mut gc, OBJECT_KIND_NOPTR);
    assert!(object_marked(&gc, holder));
    assert!(
        !object_marked(&gc, target),
        "a NoPtr block is never scanned"
    );
}

#[test]
fn a_raw_block_still_retains_conservatively() {
    let mut gc = heap(BLOCK_SIZE * 4);
    let (holder, target) = holder_and_target(&mut gc, 0);
    assert!(object_marked(&gc, holder));
    assert!(object_marked(&gc, target));
}

const HOLDER_DESC: u64 = 0x77;

/// A descriptor whose objects point through words one and two, and are recorded
/// when they die.
fn holder_hooks(drops: bool) -> FieldHooks {
    FieldHooks {
        descs: vec![FieldDesc {
            desc: HOLDER_DESC,
            traces: true,
            fields: vec![1, 2],
            drops,
        }],
        log: vec![],
    }
}

/// A holder of `child`, by an interior address, and of `boxed`.
fn traced_holder(gc: &mut ImmixAllocator, hooks: &FieldHooks) -> (usize, usize, usize) {
    let holder = allocate(gc, 56);
    let child = allocate(gc, 16);
    let boxed = allocate(gc, 16);
    gc.finish_alloc(holder, HOLDER_DESC, AllocKind::Typed, true, hooks);
    write(gc, holder + 8, child + 4);
    write(gc, holder + 16, boxed);
    (offset(holder), offset(child), offset(boxed))
}

#[test]
fn a_traced_object_marks_through_its_hook_and_is_dropped_once_when_dead() {
    let mut gc = heap(BLOCK_SIZE * 4);
    let mut hooks = holder_hooks(true);
    let (holder, child, boxed) = traced_holder(&mut gc, &hooks);
    assert!(gc.space.tables.blocks[holder / BLOCK_SIZE].has_drop);
    let sibling = offset(allocate(&mut gc, 16));

    let work = mark(&mut gc, holder);
    trace(&mut gc, &hooks, work);
    assert!(object_marked(&gc, holder));
    assert!(object_marked(&gc, child), "marked through the hook");
    assert!(object_marked(&gc, boxed), "marked through mark_value");
    assert!(!object_marked(&gc, sibling), "nothing referenced it");
    sweep(&mut gc, &mut hooks);
    assert!(hooks.log.is_empty(), "a live object is never dropped");

    // Now only the sibling is reachable, so its block is kept and the
    // holder dies on it.
    let work = mark(&mut gc, sibling);
    trace(&mut gc, &hooks, work);
    sweep(&mut gc, &mut hooks);
    assert_eq!(hooks.log, vec![BASE + holder]);
    assert_eq!(
        find(&gc, holder + 8),
        None,
        "a dropped object is forgotten"
    );
    assert_eq!(find(&gc, sibling), Some((sibling, 16)));
    assert!(!gc.space.tables.blocks[holder / BLOCK_SIZE].has_drop);

    // A stale pointer into it resolves to nothing, so no later cycle can
    // trace or drop it again.
    assert!(mark(&mut gc, holder).is_empty());
    sweep(&mut gc, &mut hooks);
    assert_eq!(hooks.log.len(), 1);
}

#[test]
fn a_dead_traced_span_forgets_its_span_entry() {
    let mut gc = heap(BLOCK_SIZE * 4);
    let mut hooks = holder_hooks(true);
    let span = allocate(&mut gc, LINE_SIZE * 3);
    let at = offset(span);
    gc.finish_alloc(span, HOLDER_DESC, AllocKind::Typed, true, &hooks);
    let keeper = offset(allocate(&mut gc, 16));
    mark(&mut gc, keeper);
    sweep(&mut gc, &mut hooks);
    assert_eq!(hooks.log, vec![span]);
    assert_eq!(gc.space.tables.alloc_sizes[at / LINE_SIZE], 0);
    assert!(mark(&mut gc, at + LINE_SIZE + 8).is_empty());
}

#[test]
fn a_dead_traced_object_without_a_drop_hook_waits_for_line_reuse() {
    let mut gc = heap(BLOCK_SIZE * 4);
    let mut hooks = holder_hooks(false);
    let obj = allocate(&mut gc, 56);
    gc.finish_alloc(obj, HOLDER_DESC, AllocKind::Typed, true, &hooks);
    let at = offset(obj);
    assert!(!gc.space.tables.blocks[at / BLOCK_SIZE].has_drop);
    let keeper = offset(allocate(&mut gc, 16));
    mark(&mut gc, keeper);
    sweep(&mut gc, &mut hooks);
    let size = find(&gc, at).expect("dead but still an allocation").1;
    assert_eq!(
        mark(&mut gc, at + 8),
        vec![(at, size)],
        "a stale pointer retains it"
    );
    sweep(&mut gc, &mut hooks);
}

#[test]
fn a_trace_hook_runs_on_the_marking_pool_too() {
    let mut gc = heap(BLOCK_SIZE * 4);
    let mut hooks = holder_hooks(true);
    let (holder, child, boxed) = traced_holder(&mut gc, &hooks);
    let sibling = offset(allocate(&mut gc, 16));
    let initial = mark(&mut gc, holder);
    let mut queue = MarkQueue::new(initial);
    let _ = gc
        .space
        .tables
        .mark_worker(&gc.space.memory, &hooks, &mut queue, 1);
    assert!(object_marked(&gc, child));
    assert!(object_marked(&gc, boxed));
    assert!(!object_marked(&gc, sibling));
    sweep(&mut gc, &mut hooks);
    sweep(&mut gc, &mut hooks);
    assert_eq!(hooks.log, vec![BASE + holder]);
}

#[test]
fn a_handle_roots_its_object_until_released() {
    let mut gc = heap(BLOCK_SIZE * 4);
    let mut hooks = FieldHooks::new();
    let p = allocate(&mut gc, 16);
    let at = offset(p);
    let h = gc.handle_new(p);
    assert!(!h.is_null());
    assert_eq!(gc.handle_get(h), p);
    gc.mark_roots(&hooks, &vec![], 1, &vec![]);
    assert!(object_marked(&gc, at));
    sweep(&mut gc, &mut hooks);

    // Two references: the first release keeps it.
    gc.handle_retain(h);
    gc.handle_release(h);
    gc.mark_roots(&hooks, &vec![], 1, &vec![]);
    assert!(object_marked(&gc, at));
    sweep(&mut gc, &mut hooks);

    gc.handle_release(h);
    assert_eq!(gc.handle_get(h), 0);
    gc.mark_roots(&hooks, &vec![], 1, &vec![]);
    assert!(!object_marked(&gc, at));
    // The slot is reused, the stale handle stays dead.
    let again = gc.handle_new(p);
    assert_eq!(again, h, "the freed slot is handed out again");
    assert_eq!(gc.handle_get(Handle::null()), 0);
    assert_eq!(gc.handle_new(0), Handle::null());
    assert_eq!(Handle::from_raw(h.as_raw()), h);
}

#[test]
fn handle_entry_points_reach_the_process_heap() {
    let mut gc = heap(BLOCK_SIZE * 4);
    let p = allocate(&mut gc, 16);
    let h = handle_new(&mut gc, p);
    assert_eq!(handle_get(&gc, h), p);
    handle_release(&mut gc, h);
    assert_eq!(handle_get(&gc, h), 0);
}

#[test]
fn a_deferred_release_runs_when_the_lock_is_next_free() {
    let mut gc = heap(BLOCK_SIZE * 4);
    let mut lock = ReentrantGcLock::new();
    let outer = gc_guard(&mut lock, 1).unwrap();
    let inner = gc_guard(&mut lock, 1).unwrap();
    assert!(gc_guard(&mut lock, 2).is_none());
    let p = allocate(&mut gc, 16);
    let h = handle_new(&mut gc, p);
    handle_release_deferred(&mut gc.deferred, h);
    assert_eq!(handle_get(&gc, h), p, "still held under the lock");
    assert_eq!(gc_lock_release(&mut lock, &mut gc, inner), Release::Held);
    assert_eq!(handle_get(&gc, h), p, "a nested release does not run it");
    let freed = gc_lock_release(&mut lock, &mut gc, outer);
    assert_eq!(freed, Release::Freed { notify: false });
    assert_eq!(handle_get(&gc, h), 0, "released with the lock");
    assert_eq!(next_drain(freed, &gc.deferred), Drain::Done);
    handle_release_deferred(&mut gc.deferred, Handle::null());
    assert!(!gc.deferred.pending());
}

#[test]
fn the_drains_go_on_until_both_queues_are_empty() {
    let mut gc = heap(BLOCK_SIZE * 4);
    let mut lock = ReentrantGcLock::new();
    let guard = gc_guard(&mut lock, 1).unwrap();
    gc.deferred.finalizers.push((16, 7));
    assert_eq!(next_drain(Release::Held, &gc.deferred), Drain::Done);
    let freed = gc_lock_release(&mut lock, &mut gc, guard);
    assert_eq!(next_drain(freed, &gc.deferred), Drain::Finalizers);
    assert_eq!(gc.deferred.take_finalizers(), [(16, 7)]);
    // A finalizer gives up a handle, and queues another that waits for the batch.
    let p = allocate(&mut gc, 16);
    let h = handle_new(&mut gc, p);
    handle_release_deferred(&mut gc.deferred, h);
    gc.deferred.finalizers.push((32, 7));
    assert_eq!(next_drain(freed, &gc.deferred), Drain::Releases);
    release_deferred_handles(&mut gc);
    assert_eq!(handle_get(&gc, h), 0);
    assert_eq!(next_drain(freed, &gc.deferred), Drain::Done, "a batch runs");
    gc.deferred.finished();
    assert_eq!(next_drain(freed, &gc.deferred), Drain::Finalizers);
}

#[test]
fn a_deferring_thread_is_not_told_to_collect() {
    let mut gc = heap(BLOCK_SIZE * 64);
    gc.trigger.threshold = 4096;
    gc.trigger.bytes_since_gc = 4096;
    let ctx = TriggerContext {
        registered: true,
        deferred: true,
        stress: 0,
        quiet: false,
        ceiling: 1 << 30,
        heap_max: 1 << 40,
    };
    let r = gc.tlab_refill_then_alloc(3, 16, Attempt::First, ctx, true);
    assert!(matches!(r, Grant::At(_)));
    assert!(gc.trigger.collect_pending, "recorded instead");
    assert_eq!(collections(&gc.stats), 0);
    // Another mutator's refill is a safepoint.
    let other = TriggerContext {
        deferred: false,
        ..ctx
    };
    let r = gc.tlab_refill_then_alloc(4, 16, Attempt::First, other, true);
    assert!(matches!(r, Grant::Collect(_)));
    // Past the hard limit it is not put off.
    gc.trigger.bytes_since_gc = 1 << 30;
    let r = gc.tlab_refill_then_alloc(3, 16, Attempt::First, ctx, true);
    assert!(matches!(r, Grant::Collect(_)));
}

#[test]
fn a_tracer_claims_once_and_leaves_foreign_addresses() {
    let mut gc = heap(BLOCK_SIZE * 4);
    let p = allocate(&mut gc, 48);
    let base = gc.space.memory.base;
    let tables = std::mem::replace(
        &mut gc.space.tables,
        Tables {
            blocks: vec![],
            alloc_sizes: vec![],
            objects: vec![],
        },
    );
    let mut t = Tracer {
        tables,
        base,
        out: vec![],
    };
    t.mark(p + 47);
    assert_eq!(t.out, [(p - base, 48)]);
    t.mark_value(Value::Object(p));
    t.mark(base - 8);
    t.mark(p + 48);
    t.mark_value(Value::Int(3));
    assert_eq!(t.out.len(), 1);
    gc.space.tables = t.tables;
    assert!(is_claimed(&gc, p));
}

#[test]
fn external_memory_makes_the_trigger_due() {
    let mut gc = heap(BLOCK_SIZE * 4);
    let n = gc.trigger_threshold();
    gc.track_external(n - 1);
    assert!(!gc.trigger.collection_due(0, false));
    gc.track_external(1);
    assert!(gc.trigger.collection_due(0, false));
    assert!(should_collect(&gc.trigger, &gc.stats, 0));
}

#[test]
fn what_a_host_claimed_survives_the_next_collection() {
    let mut gc = heap(BLOCK_SIZE * 4);
    let mut hooks = FieldHooks::new();
    let kept = allocate(&mut gc, 48);
    let gone = allocate(&mut gc, BLOCK_SIZE / 2);
    assert!(gc.claim_for_cycle(kept));
    let c = Collection {
        stopped: true,
        collector: 1,
        floor: 1,
        ceiling: 1 << 30,
        growth: 2,
        opts: options(),
    };
    assert!(gc.collect_garbage(&mut hooks, &vec![], &vec![], c).is_some());
    assert_eq!(gc.allocation_containing(kept), Some((kept, 48)));
    assert!(!is_claimed(&gc, kept), "the sweep cleared the claim");
    assert_eq!(collections(&gc.stats), 1);
    assert!(!should_collect(&gc.trigger, &gc.stats, 0));
    // The block is kept for what was claimed; a second cycle frees it.
    let report = gc.collect_garbage(&mut hooks, &vec![], &vec![], c).unwrap();
    assert_eq!(report.freed, [0]);
    assert_eq!(gc.allocation_containing(kept), None);
    assert_eq!(gc.allocation_containing(gone), None);
    assert_eq!(gc.stats.collections, 2);
    assert_eq!(gc.stats.blocks_reclaimed, 1);
}

#[test]
fn line_allocations_share_a_block_and_its_tail_is_recycled() {
    let mut gc = heap(BLOCK_SIZE * 4);
    let keep = allocate(&mut gc, LINE_SIZE);
    for i in 1..9 {
        assert_eq!(allocate(&mut gc, LINE_SIZE), keep + i * LINE_SIZE);
    }
    assert!(gc.claim_for_cycle(keep));
    let report = gc.space.sweep(options());
    assert!(report.freed.is_empty());
    assert_eq!(gc.space.recycle_spans, [(0, 1, 255)]);
}

#[test]
fn a_hold_unwinds_to_a_depth() {
    let mut lock = ReentrantGcLock::new();
    for _ in 0..3 {
        let _ = gc_guard(&mut lock, 5).unwrap();
    }
    assert_eq!(gc_lock_held_depth(&lock, 5), 3);
    assert!(!gc_lock_unwind_to(&mut lock, 6, 0), "not the owner");
    assert_eq!(gc_lock_held_depth(&lock, 5), 3);
    assert!(!gc_lock_unwind_to(&mut lock, 5, 1));
    assert_eq!(gc_lock_held_depth(&lock, 5), 1);
    assert!(gc_lock_unwind_to(&mut lock, 5, 0));
    assert_eq!(gc_lock_held_depth(&lock, 5), 0);
    let mut queue = Deferred::new();
    assert!(!queue.pending());
    assert!(queue.take_finalizers().is_empty());
}

#[test]
fn a_root_range_is_scanned_until_unregistered() {
    let mut gc = heap(BLOCK_SIZE * 4);
    let mut hooks = FieldHooks::new();
    let p = allocate(&mut gc, 16);
    let at = offset(p);
    // The pointer sits past a byte-misaligned start, as in a data section: the
    // plan says which words to read.
    let section = 0x9000_0000usize;
    let mut words = [0u64; 4];
    words[1] = p as u64;
    let read = |gc: &ImmixAllocator| {
        let mut found = Vec::new();
        for (lo, hi) in gc.scan_plan(&vec![], 1, 0, Platform::Native) {
            let mut q = lo;
            while q + WORD <= hi {
                found.push(words[(q - section) / WORD]);
                q += WORD;
            }
        }
        found
    };
    gc.register_root_range(section + 1, 4 * WORD - 1);
    let found = read(&gc);
    gc.mark_roots(&hooks, &vec![], 1, &found);
    assert!(object_marked(&gc, at));
    sweep(&mut gc, &mut hooks);

    gc.unregister_root_range(section + 1, 4 * WORD - 1);
    let found = read(&gc);
    gc.mark_roots(&hooks, &vec![], 1, &found);
    assert!(!object_marked(&gc, at));
}

#[test]
fn a_hosted_collector_claims_and_forgets_through_the_side_table() {
    let mut gc = heap(BLOCK_SIZE * 4);
    let mut hooks = FieldHooks::new();
    let small = allocate(&mut gc, 48);
    let span = allocate(&mut gc, LINE_SIZE * 3);

    assert_eq!(gc.allocation_containing(small), Some((small, 48)));
    assert_eq!(gc.allocation_containing(small + 47), Some((small, 48)));
    assert_eq!(
        gc.allocation_containing(span + 2 * LINE_SIZE + 5),
        Some((span, 3 * LINE_SIZE))
    );
    assert_eq!(gc.allocation_containing(BASE + BLOCK_SIZE * 4), None);

    assert!(!gc.is_claimed(small));
    assert!(gc.claim_for_cycle(small));
    assert!(!gc.claim_for_cycle(small + 8));
    assert!(gc.is_claimed(small));
    assert!(object_marked(&gc, offset(small)));
    let marked = |gc: &ImmixAllocator, line: usize| {
        gc.space.tables.blocks[line / LINES_PER_BLOCK].is_marked(line % LINES_PER_BLOCK)
    };
    assert!(marked(&gc, offset(small) / LINE_SIZE));
    gc.unclaim(small);
    assert!(!gc.is_claimed(small));
    assert!(gc.claim_for_cycle(small));

    // By start: the size, whether or not the claim stood already; a
    // span's lines are all claimed; an interior address is no start.
    assert_eq!(gc.claim_start(small), Some(48));
    assert_eq!(gc.claim_start(span), Some(3 * LINE_SIZE));
    assert!(gc.is_claimed(span));
    let first = offset(span) / LINE_SIZE;
    for line in first..first + 3 {
        assert!(marked(&gc, line));
    }
    assert_eq!(gc.claim_start(span + LINE_SIZE), None);
    assert_eq!(gc.claim_start(0), None);
    gc.unclaim(span);

    // The unclaimed span dies with the sweep; the claimed object survives
    // it with its claim cleared for the next cycle.
    gc.forget_allocation(span);
    assert_eq!(gc.allocation_containing(span), None);
    assert_eq!(gc.allocation_containing(span + LINE_SIZE), None);
    let freed_before = gc.space.free_blocks.len();
    sweep(&mut gc, &mut hooks);
    assert!(!gc.is_claimed(small));
    assert_eq!(gc.allocation_containing(small), Some((small, 48)));
    assert!(
        gc.space.free_blocks.len() >= freed_before,
        "sweep lost track of the free list"
    );
    assert!(!gc.claim_for_cycle(0));
    assert!(!gc.is_claimed(0));
}

#[test]
fn the_locked_path_allocates_into_recycled_lines() {
    let mut gc = heap(BLOCK_SIZE * 4);
    let mut hooks = FieldHooks::new();
    let keep = allocate(&mut gc, LINE_SIZE);
    for _ in 0..8 {
        allocate(&mut gc, LINE_SIZE);
    }
    let block = offset(keep) / BLOCK_SIZE * BLOCK_SIZE;
    assert!(gc.claim_for_cycle(keep));
    sweep(&mut gc, &mut hooks);
    assert!(
        !gc.space.recycle_spans.is_empty(),
        "the kept block has no free run"
    );
    let next = allocate(&mut gc, LINE_SIZE * 2);
    assert_eq!(
        offset(next) / BLOCK_SIZE * BLOCK_SIZE,
        block,
        "a fresh block was taken while the kept block had free lines"
    );
    assert_ne!(offset(next), offset(keep));
    assert_eq!(gc.allocation_containing(keep), Some((keep, LINE_SIZE)));
}

#[test]
fn the_lockless_trigger_follows_the_singletons_collections() {
    assert_eq!(gc_stress_every(None), 0);
    let mut gc = heap(BLOCK_SIZE * 4);
    let mut hooks = FieldHooks::new();
    let c = || Collection {
        stopped: true,
        collector: 1,
        floor: 1 << 20,
        ceiling: 1 << 30,
        growth: growth_factor(None),
        opts: options(),
    };
    let before = collections(&gc.stats);
    assert!(gc.collect_garbage(&mut hooks, &vec![], &vec![], c()).is_some());
    assert_eq!(collections(&gc.stats), before + 1);
    assert!(
        !should_collect(&gc.trigger, &gc.stats, 0),
        "a fresh collection leaves nothing due"
    );
    let threshold = gc.trigger_threshold();
    track_external(&mut gc, threshold);
    assert!(
        should_collect(&gc.trigger, &gc.stats, 0),
        "pressure at the threshold is due"
    );
    assert!(gc.collect_garbage(&mut hooks, &vec![], &vec![], c()).is_some());
    assert!(!should_collect(&gc.trigger, &gc.stats, 0));
}

#[test]
fn an_exhausted_heap_says_so() {
    let mut gc = heap(BLOCK_SIZE * 2);
    let first = gc.allocate(BLOCK_SIZE, Attempt::Exhausted, context(), true);
    let second = gc.allocate(BLOCK_SIZE, Attempt::Exhausted, context(), true);
    assert!(matches!(first, Grant::At(_)) && matches!(second, Grant::At(_)));
    assert!(matches!(
        gc.allocate(16, Attempt::Triggered, context(), true),
        Grant::Collect(_)
    ));
    assert!(matches!(
        gc.allocate(16, Attempt::Exhausted, context(), true),
        Grant::OutOfMemory
    ));
    let mut stats = GcStats::new();
    stats.live_blocks = 64;
    stats.collections = 3;
    assert_eq!(
        out_of_memory("a cell", 64 << 20, &stats),
        "[ash] out of memory allocating a cell\n[ash]   heap cap 64 MB, live 2 MB, external 0 MB, after 3 collection(s)\n[ash]   ASH_GC_HEAP_MB raises the cap. A heap that fills again at a\n[ash]   higher cap is a leak rather than a heap that is too small."
    );
}

#[test]
fn the_heap_is_walked_and_measured() {
    let mut gc = heap(BLOCK_SIZE * 4);
    let a = allocate(&mut gc, 48);
    let b = allocate(&mut gc, LINE_SIZE * 2);
    let _untyped = allocate(&mut gc, 16);
    write(&mut gc, a, 5);
    write(&mut gc, b, 6);
    assert_eq!(gc.walk_heap(), vec![(a, 5), (b, 6)]);
    assert_eq!(gc.allocation_size(a + 47), 48);
    assert_eq!(gc.allocation_size(b + 200), 256);
    assert_eq!(gc.allocation_size(12), 0);
    assert!(!gc.is_gc_ptr(a));
    assert!(gc.claim_for_cycle(a));
    assert!(gc.is_gc_ptr(a));
    assert!(gc.is_gc_dynamic(a, 0, false, 0));
    assert!(!gc.is_gc_dynamic(a, 0, true, 4));
    register_root(&mut gc, 0);
    register_root(&mut gc, a as u64);
    assert_eq!(gc.roots.persistent_roots, vec![a as u64]);
    let v = allocate(&mut gc, 64);
    gc.alloc_virtual(v, 9, 2, Some(&vec![40, 48]));
    assert_eq!(gc.space.memory.read(v), Some(9));
    assert_eq!(gc.space.memory.read(v + 24), Some((v + 40) as u64));
    assert_eq!(gc.space.memory.read(v + 32), Some((v + 48) as u64));
    let lines = gc.dump_memory(3, true);
    assert_eq!(lines[0], "ASHMEM1 ash-immix");
    assert_eq!(lines[2], "heap-base 0x400000");
    assert!(lines.contains(&"blocks-used 1".to_owned()));
    assert!(lines.contains(&"tlab-blocks none".to_owned()));
    assert!(lines.contains(&"scan-ranges 3".to_owned()));
    assert!(lines.contains(&"marked true".to_owned()));
    assert_eq!(lines[lines.len() - 1], "end");
    let block = offset(a) / BLOCK_SIZE * BLOCK_SIZE;
    assert!(lines.contains(&format!("block {:#x} 1 128", BASE + block)));
}

#[test]
fn an_immortal_and_a_finalizable_block_are_registered_as_they_are_made() {
    let mut gc = heap(BLOCK_SIZE * 4);
    let p = match gc.allocate_immortal(32, Attempt::Triggered, context(), true) {
        Grant::At(p) => p,
        _ => panic!("there is room"),
    };
    assert_eq!(gc.roots.persistent_roots, vec![p as u64]);
    let f = match gc.alloc_with_finalizer(16, 77, Attempt::Triggered, context(), true) {
        Grant::At(p) => p,
        _ => panic!("there is room"),
    };
    assert_eq!(gc.space.memory.read(f), Some(77));
    assert_eq!(gc.finalizables, vec![offset(f)]);
}

#[test]
fn freed_blocks_go_back_in_runs() {
    assert_eq!(
        merge_runs(&vec![0, BLOCK_SIZE, 3 * BLOCK_SIZE, 4 * BLOCK_SIZE, 9 * BLOCK_SIZE]),
        vec![
            (0, 2 * BLOCK_SIZE),
            (3 * BLOCK_SIZE, 2 * BLOCK_SIZE),
            (9 * BLOCK_SIZE, BLOCK_SIZE)
        ]
    );
    assert!(merge_runs(&vec![]).is_empty());
    let mut gc = heap(BLOCK_SIZE * 20);
    let freed: Vec<usize> = (0..20).rev().map(|b| b * BLOCK_SIZE).collect();
    assert!(gc.space.hand_back(&freed, false, true).is_empty());
    let back = gc.space.hand_back(&freed, true, true);
    assert_eq!(
        back,
        vec![
            16 * BLOCK_SIZE,
            17 * BLOCK_SIZE,
            18 * BLOCK_SIZE,
            19 * BLOCK_SIZE
        ]
    );
    gc.space.handed_back(16 * BLOCK_SIZE, 2 * BLOCK_SIZE);
    assert_eq!(
        gc.space.hand_back(&freed, true, true),
        vec![18 * BLOCK_SIZE, 19 * BLOCK_SIZE]
    );
}

#[test]
fn the_audit_finds_words_into_a_freed_block() {
    let words = vec![5, 0x1008, 0x7ff8_0000_0000_1010, 0x2000];
    assert_eq!(
        audit(&words, 0x1000, 0x2000),
        vec![
            Finding {
                at: 1,
                address: 0x1008,
                boxed: false
            },
            Finding {
                at: 2,
                address: 0x1010,
                boxed: true
            },
        ]
    );
}

#[test]
fn what_nothing_reaches_is_reclaimed() {
    let mut gc = heap(BLOCK_SIZE * 4);
    let mut hooks = FieldHooks::new();
    let kept = allocate(&mut gc, 64);
    let lost = allocate(&mut gc, BLOCK_SIZE * 2);
    let free = gc.space.free_blocks.len();
    let c = Collection {
        stopped: true,
        collector: 1,
        floor: 1,
        ceiling: 1 << 30,
        growth: 2,
        opts: options(),
    };
    let report = gc
        .collect_garbage(&mut hooks, &vec![], &vec![kept as u64 + 3], c)
        .unwrap();
    assert_eq!(report.freed.len(), 2);
    assert_eq!(gc.space.free_blocks.len(), free + 2);
    assert_eq!(gc.allocation_containing(kept), Some((kept, 64)));
    assert_eq!(gc.allocation_containing(lost), None);
    let c = Collection {
        stopped: false,
        collector: 1,
        floor: 1,
        ceiling: 1 << 30,
        growth: 2,
        opts: options(),
    };
    assert!(gc
        .collect_garbage(&mut hooks, &vec![], &vec![], c)
        .is_none());
    assert_eq!(gc.allocation_containing(kept), Some((kept, 64)));
}

fn stopped() -> Collection {
    Collection {
        stopped: true,
        collector: 1,
        floor: 1,
        ceiling: 1 << 30,
        growth: 2,
        opts: options(),
    }
}

#[test]
fn the_last_attempt_asks_for_a_whole_block() {
    let mut gc = heap(BLOCK_SIZE);
    let mut hooks = FieldHooks::new();
    let kept = allocate(&mut gc, LINE_SIZE);
    let _gone = allocate(&mut gc, LINE_SIZE);
    assert!(gc.claim_for_cycle(kept));
    let report = gc
        .collect_garbage(&mut hooks, &vec![], &vec![], stopped())
        .unwrap();
    assert_eq!((report.retained, report.marked_lines), (1, 1));
    assert_eq!(report.bars.iter().sum::<usize>(), 1);
    // Lines are free, and no block is.
    assert!(gc.space.free_blocks.is_empty());
    assert_eq!(
        gc.allocate(16, Attempt::Exhausted, context(), true),
        Grant::OutOfMemory
    );
    assert_eq!(
        gc.tlab_refill_then_alloc(1, 16, Attempt::Exhausted, context(), true),
        Grant::OutOfMemory
    );
    assert_eq!(
        gc.allocate(16, Attempt::Triggered, context(), true),
        Grant::At(kept + LINE_SIZE)
    );
}

#[test]
fn one_collection_for_want_of_memory_is_the_last() {
    assert_eq!(Attempt::after_collect(ORIGIN_PRESSURE), Attempt::Triggered);
    assert_eq!(Attempt::after_collect(ORIGIN_TLAB), Attempt::Triggered);
    assert_eq!(Attempt::after_collect(ORIGIN_EXHAUSTION), Attempt::Exhausted);
    assert_eq!(Attempt::after_collect(ORIGIN_LARGE), Attempt::Exhausted);
    let mut gc = heap(BLOCK_SIZE);
    let _all = allocate(&mut gc, BLOCK_SIZE);
    let mut attempt = Attempt::First;
    let mut asked = 0;
    while let Grant::Collect(origin) = gc.allocate(16, attempt, context(), true) {
        asked += 1;
        attempt = Attempt::after_collect(origin);
    }
    assert_eq!(asked, 1);
    assert_eq!(
        gc.allocate(16, attempt, context(), true),
        Grant::OutOfMemory
    );
}

#[test]
fn an_explicit_collection_keeps_what_a_handle_names() {
    let mut gc = heap(BLOCK_SIZE * 4);
    let mut hooks = FieldHooks::new();
    let mut world = MutatorWorld::new();
    assert_eq!(world.register(1, 0x9000, "runtime"), Register::Done);
    let kept = allocate(&mut gc, 64);
    let lost = allocate(&mut gc, BLOCK_SIZE * 2);
    let h = handle_new(&mut gc, kept);
    enable(&mut gc.trigger, false);
    gc.trigger.collect_pending = true;
    world.request_stop(1);
    assert_eq!(world.stop_progress(1, 0), Stop::Stopped);
    let report = major(&mut gc, &mut world, &mut hooks, &vec![], &vec![], stopped()).unwrap();
    assert_eq!(report.freed.len(), 2);
    assert!(!world.stop_requested);
    assert!(!gc.trigger.collect_pending);
    assert_eq!(collections(&gc.stats), 1);
    assert_eq!(handle_get(&gc, h), kept);
    assert_eq!(gc.allocation_containing(kept), Some((kept, 64)));
    assert_eq!(gc.allocation_containing(lost), None);
    // Where one never came to rest, the count says so and nothing moves.
    let c = Collection {
        stopped: false,
        ..stopped()
    };
    world.request_stop(1);
    assert!(major(&mut gc, &mut world, &mut hooks, &vec![], &vec![], c).is_none());
    assert!(!world.stop_requested);
    assert_eq!(collections(&gc.stats), 1);
    assert_eq!(gc.stats.stops_abandoned, 1);
}

#[test]
fn external_pressure_at_the_threshold_is_due_at_any_moment() {
    let mut gc = heap(BLOCK_SIZE * 64);
    let mut hooks = FieldHooks::new();
    for round in 0..3 {
        let _some = allocate(&mut gc, 4096 * (round + 1));
        let threshold = gc.trigger_threshold();
        track_external(&mut gc, threshold);
        assert!(should_collect(&gc.trigger, &gc.stats, 0), "round {round}");
        let _ = gc.collect_garbage(&mut hooks, &vec![], &vec![], stopped());
        assert!(!should_collect(&gc.trigger, &gc.stats, 0), "round {round}");
    }
}

#[test]
fn a_claim_ends_with_the_cycle_whatever_the_sweep_keeps() {
    let mut gc = heap(BLOCK_SIZE * 4);
    let mut hooks = FieldHooks::new();
    let p = allocate(&mut gc, 48);
    let dead = allocate(&mut gc, 48);
    assert!(gc.claim_for_cycle(p));
    let c = Collection {
        opts: SweepOptions {
            no_reclaim: true,
            ..options()
        },
        ..stopped()
    };
    assert!(gc.collect_garbage(&mut hooks, &vec![], &vec![], c).is_some());
    assert!(!is_claimed(&gc, p) && !is_claimed(&gc, dead));
    assert_eq!(gc.allocation_containing(p), Some((p, 48)));
}

#[test]
fn a_module_scans_a_suspended_stack_by_a_window() {
    let fibers = vec![
        FiberStackInfo {
            thread: 7,
            id: 0,
            base: 0,
            size: 0,
            saved_sp: 0x7ffff0,
        },
        FiberStackInfo {
            thread: 7,
            id: 1,
            base: 0x100000,
            size: 0x1000,
            saved_sp: 0,
        },
    ];
    let mutators = vec![MutatorSnapshot {
        thread: 7,
        stack_top: 0x800000,
        stack_sp: 0,
        saved_regs: [0; 10],
        scan_ranges: vec![],
    }];
    let plan = |platform| {
        scan_plan(
            &vec![],
            None,
            &vec![],
            &fibers,
            &mutators,
            7,
            0x100800,
            platform,
        )
    };
    assert_eq!(
        plan(Platform::Native),
        [(0x100800, 0x101000), (0x7ffff0, 0x800000)]
    );
    assert_eq!(
        plan(Platform::Wasm { threads: false }),
        [(0x100800, 0x101000), (0x700000, 0x800000)]
    );
}
