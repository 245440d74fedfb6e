//! What holds of the heap's books: what objects hold, where allocations are placed,
//! what is counted, and what a dump tells.

use vstd::prelude::*;
use vstd::string::*;

use crate::heap::block::Block;
use crate::heap::collect::Collection;
use crate::heap::dump::{
    block_line, block_lines, dump_of, orders, out_of_memory_text, reusable_upto, spaced, tlab_line,
};
use crate::heap::grant::{
    reached, Attempt, Grant, TriggerContext, ORIGIN_EXHAUSTION, ORIGIN_PRESSURE, ORIGIN_TLAB,
};
use crate::heap::immix::{GcStats, ImmixAllocator, Trigger};
use crate::heap::layout::{claim_bit, kind_bits, line_up, quantum_up, scan_floor, size_code};
use crate::heap::space::{last_fit, span_lo, Space, Tlab};
use crate::heap::tracer::{frame_values, held_values, with_values};
use crate::heap::types::{
    after_step, after_steps, array_bytes, bytes_touch, children_in, law_types_marked, left_unmarked, line_past,
    Boxed, Payload, Touch, TypeGraph, TypeKind, TypeNode,
};
use crate::object::{BodyView, Settlement, TraceFrame};
use crate::text::{decimal, hex};
use crate::value::Value;

verus! {

// What objects hold.

/// What an object holds is marked with it, and what was marked stays so; nothing else
/// is.
pub proof fn law_what_is_held_is_marked(marked: Seq<u64>, values: Seq<Value>, w: u64)
    ensures
        with_values(marked, values).contains(w) <==> marked.contains(w) || exists|k: int|
            0 <= k < values.len() && (#[trigger] values[k] matches Value::Object(p) && p as u64 == w),
    decreases values.len(),
{
    if values.len() > 0 {
        let front = values.drop_last();
        law_what_is_held_is_marked(marked, front, w);
        assert forall|k: int| 0 <= k < front.len() implies front[k] == #[trigger] values[k] by {}
        let init = with_values(marked, front);
        let all = with_values(marked, values);
        let last = values[values.len() - 1];
        if init.contains(w) {
            let i = choose|i: int| 0 <= i < init.len() && init[i] == w;
            assert(all[i] == w);
        }
        if all.contains(w) {
            let i = choose|i: int| 0 <= i < all.len() && all[i] == w;
            if i < init.len() {
                assert(init[i] == w);
            }
        }
        if exists|k: int|
            0 <= k < front.len() && (#[trigger] front[k] matches Value::Object(p) && p as u64 == w) {
            let k = choose|k: int|
                0 <= k < front.len() && (#[trigger] front[k] matches Value::Object(p) && p as u64
                    == w);
            assert(values[k] == front[k]);
        }
        if let Value::Object(p) = last {
            assert(all[init.len() as int] == p as u64);
        }
    }
}

/// An error holds its message, its cause, its language's own value and its trace; a
/// trace the texts of its frames; an enum its fields; a buffer its bytes; a future what
/// settled it; and a cell its object and its front.
pub proof fn law_what_objects_hold(body: BodyView, i: int)
    ensures
        match body {
            BodyView::Error(e) => {
                &&& held_values(body).contains(e.message)
                &&& held_values(body).contains(e.cause)
                &&& held_values(body).contains(e.native)
                &&& held_values(body).contains(e.trace)
                &&& held_values(body).len() == 4
            },
            BodyView::Trace(frames, _) => {
                &&& held_values(body).len() == 2 * frames.len()
                &&& 0 <= i < frames.len() ==> held_values(body)[2 * i] == frames[i].name
                    && held_values(body)[2 * i + 1] == frames[i].source
            },
            BodyView::Enum { fields, .. } => held_values(body) == fields,
            BodyView::Buffer { storage, .. } => held_values(body) == seq![Value::Object(storage)],
            BodyView::Future { settlement, .. } => match settlement {
                Some(Settlement::Resolved(v)) => held_values(body) == seq![v],
                Some(Settlement::Rejected(v)) => held_values(body) == seq![v],
                None => held_values(body).len() == 0,
            },
            BodyView::Cell(c) => {
                &&& held_values(body).contains(c.object)
                &&& c.front != 0 ==> held_values(body).contains(Value::Object(c.front))
                &&& c.front == 0 ==> held_values(body).len() == 1
            },
            BodyView::Function { .. } => held_values(body).len() <= 1,
            _ => held_values(body).len() == 0,
        },
{
    match body {
        BodyView::Error(e) => {
            let h = held_values(body);
            assert(h[0] == e.message && h[1] == e.cause && h[2] == e.native && h[3] == e.trace);
        },
        BodyView::Trace(frames, _) => {
            lemma_frame_values(frames, i);
        },
        BodyView::Cell(c) => {
            let h = held_values(body);
            assert(h[0] == c.object);
            if c.front != 0 {
                assert(h[1] == Value::Object(c.front));
            }
        },
        _ => {},
    }
}

proof fn lemma_frame_values(frames: Seq<TraceFrame>, i: int)
    ensures
        frame_values(frames).len() == 2 * frames.len(),
        0 <= i < frames.len() ==> frame_values(frames)[2 * i] == frames[i].name && frame_values(
            frames,
        )[2 * i + 1] == frames[i].source,
    decreases frames.len(),
{
    if frames.len() > 0 {
        lemma_frame_values(frames.drop_last(), i);
    }
}

// Types.

/// A type refers to the types of its fields and to the one it extends, to those of its
/// arguments and its result, to those of its constructors' parameters, or to the one it
/// wraps.
pub proof fn law_types_refer_to_their_parts(kind: TypeKind, i: int, j: int)
    ensures
        match kind {
            TypeKind::Object { fields, sup } => {
                &&& kind.children().contains(sup)
                &&& 0 <= i < fields@.len() ==> kind.children().contains(fields@[i])
                &&& kind.children().len() == fields@.len() + 1
            },
            TypeKind::Function { args, ret } => {
                &&& kind.children().contains(ret)
                &&& 0 <= i < args@.len() ==> kind.children().contains(args@[i])
                &&& kind.children().len() == args@.len() + 1
            },
            TypeKind::Enum { constructs } => 0 <= i < constructs@.len() && 0 <= j
                < constructs@[i]@.len() ==> kind.children().contains(constructs@[i]@[j]),
            TypeKind::Null { param } => kind.children() == seq![param],
            TypeKind::Other => kind.children().len() == 0,
        },
{
    match kind {
        TypeKind::Object { fields, sup } => {
            assert(kind.children()[fields@.len() as int] == sup);
            if 0 <= i < fields@.len() {
                assert(kind.children()[i] == fields@[i]);
            }
        },
        TypeKind::Function { args, ret } => {
            assert(kind.children()[args@.len() as int] == ret);
            if 0 <= i < args@.len() {
                assert(kind.children()[i] == args@[i]);
            }
        },
        TypeKind::Enum { constructs } => {
            if 0 <= i < constructs@.len() && 0 <= j < constructs@[i]@.len() {
                lemma_params(constructs@, i, j);
            }
        },
        _ => {},
    }
}

proof fn lemma_params(constructs: Seq<Vec<usize>>, i: int, j: int)
    requires
        0 <= i < constructs.len(),
        0 <= j < constructs[i]@.len(),
    ensures
        crate::heap::types::all_params(constructs).contains(constructs[i]@[j]),
    decreases constructs.len(),
{
    let front = constructs.drop_last();
    let init = crate::heap::types::all_params(front);
    let all = crate::heap::types::all_params(constructs);
    if i < front.len() {
        assert(front[i] == constructs[i]);
        lemma_params(front, i, j);
        let k = choose|k: int| 0 <= k < init.len() && init[k] == constructs[i]@[j];
        assert(all[k] == constructs[i]@[j]);
    } else {
        assert(all[init.len() + j] == constructs[i]@[j]);
    }
}

/// A type is looked up by its address, the first that has it.
pub proof fn law_a_type_is_looked_up(nodes: Seq<TypeNode>, i: int)
    requires
        0 <= i < nodes.len(),
        forall|k: int| 0 <= k < i ==> (#[trigger] nodes[k]).addr != nodes[i].addr,
    ensures
        children_in(nodes, nodes[i].addr) == nodes[i].kind.children(),
    decreases nodes.len(),
{
    if i > 0 {
        let _ = nodes[0];
        let rest = nodes.drop_first();
        assert(rest[i - 1] == nodes[i]);
        assert forall|k: int| 0 <= k < i - 1 implies (#[trigger] rest[k]).addr != nodes[i].addr by {
            assert(rest[k] == nodes[k + 1]);
        }
        law_a_type_is_looked_up(rest, i - 1);
    }
}

/// A type in the heap is marked with the types it refers to, unless it was marked
/// before; and nothing but lines of the heap is.
pub proof fn law_the_parts_of_a_type_are_marked(
    graph: &TypeGraph,
    base: int,
    size: int,
    free: Set<int>,
    addr: usize,
    part: usize,
)
    requires
        free.finite(),
        base <= addr < base + size,
    ensures
        !left_unmarked(graph, base, size, free, seq![addr]).contains((addr - base) / 128),
        free.contains((addr - base) / 128) && children_in(graph.nodes@, addr).contains(part) && base
            <= part < base + size ==> !left_unmarked(graph, base, size, free, seq![addr]).contains(
            (part - base) / 128,
        ),
{
    let work = seq![addr];
    assert(work[0] == addr);
    law_types_marked(graph, base, size, free, work, addr);
    let line = (addr - base) / 128;
    if free.contains(line) && children_in(graph.nodes@, addr).contains(part) && base <= part < base
        + size {
        let parts = graph.children(addr) + work.drop_first();
        let k = choose|k: int|
            0 <= k < graph.children(addr).len() && graph.children(addr)[k] == part;
        assert(parts[k] == part);
        law_types_marked(graph, base, size, free.remove(line), parts, part);
    }
}

/// Bytes are marked line by line, from their own line on, as far as they reach.
pub proof fn law_bytes_are_marked_by_lines(
    graph: &TypeGraph,
    base: int,
    size: int,
    free: Set<int>,
    addr: usize,
    n: usize,
    k: int,
    l: int,
)
    requires
        base <= addr < base + size,
        base % 128 == 0,
        0 <= k,
        k * 128 < n,
        addr + k * 128 < base + size,
    ensures
        ({
            let after = after_step(graph, base, size, free, Touch::Bytes { addr, size: n });
            &&& !after.contains((addr + k * 128 - base) / 128)
            &&& after.contains(l) ==> free.contains(l)
            &&& free.contains(l) && !after.contains(l) ==> (addr - base) / 128 <= l <= (addr + n
                - base) / 128
        }),
{
    let after = after_step(graph, base, size, free, Touch::Bytes { addr, size: n });
    assert(line_past(base, addr as int, k) == (addr + k * 128 - base) / 128);
    assert(bytes_touch(base, size, addr as int, n as int, (addr + k * 128 - base) / 128));
    if free.contains(l) && !after.contains(l) {
        assert(bytes_touch(base, size, addr as int, n as int, l));
        let j = choose|j: int|
            0 <= j && j * 128 < n && addr + j * 128 < base + size && #[trigger] line_past(
                base,
                addr as int,
                j,
            ) == l;
    }
}

/// A boxed value is marked with its own type, and with what it holds: an object's type,
/// a closure's type, function and value, or an array's types and bytes. One outside the
/// heap is left.
pub proof fn law_boxed_values_are_marked(v: Boxed, base: int, size: int)
    ensures
        !(base <= v.addr < base + size) ==> v.touches(base, size).len() == 0,
        base <= v.addr < base + size ==> {
            let s = v.touches(base, size);
            &&& s[0] == Touch::Bytes { addr: v.addr, size: v.size }
            &&& s[1] == Touch::Type { addr: v.t }
            &&& match v.payload {
                Payload::Nothing => s.len() == 2,
                Payload::Object { t } => s.len() == 3 && s[2] == Touch::Type { addr: t },
                Payload::Closure { t, fun, value } => {
                    &&& s[2] == Touch::Type { addr: t }
                    &&& s[3] == Touch::Bytes { addr: fun, size: 8 }
                    &&& value is None ==> s.len() == 4
                    &&& value matches Some(x) ==> s.skip(4) =~= x.touches(base, size)
                },
                Payload::Array { addr, t, at, header, len, element } => {
                    &&& s.len() == 5
                    &&& s[2] == Touch::Type { addr: t }
                    &&& s[3] == Touch::Type { addr: at }
                    &&& s[4] == Touch::Bytes {
                        addr,
                        size: array_bytes(header, len, element) as usize,
                    }
                },
            }
        },
{
}

/// An array takes its header and its elements, and none where its length is below one.
pub proof fn law_arrays_take_their_elements(header: usize, len: i32, element: usize)
    ensures
        len <= 0 ==> array_bytes(header, len, element) == header,
        0 < len ==> array_bytes(header, len, element) - header == len * element,
{
    assert(0 * element == 0);
}

// Where allocations are placed.

/// Sizes are rounded up, to whole quanta and to whole lines.
pub proof fn law_sizes_are_rounded_up(n: int)
    requires
        0 <= n,
    ensures
        n <= quantum_up(n) < n + 16,
        quantum_up(n) % 16 == 0,
        n <= line_up(n) < n + 128,
        line_up(n) % 128 == 0,
{
}

/// A stack is read from where it stood, or from a window below its top where that
/// reaches further down.
pub proof fn law_how_far_down_a_stack_is_read(saved_sp: int, top: int, window: int)
    requires
        0 <= saved_sp,
        0 <= window,
    ensures
        scan_floor(saved_sp, top, window) <= saved_sp,
        top >= window ==> scan_floor(saved_sp, top, window) <= top - window,
        scan_floor(saved_sp, top, window) == saved_sp || scan_floor(saved_sp, top, window) == top
            - window || scan_floor(saved_sp, top, window) == 0,
        0 <= scan_floor(saved_sp, top, window),
{
}

/// An allocation below a line's size stays within one line, and a larger one begins one;
/// no more is skipped than that takes.
pub proof fn law_small_allocations_stay_in_a_line(point: int, aligned: int)
    requires
        0 <= point,
        0 < aligned,
    ensures
        ({
            let p = Space::bump_point(point, aligned);
            &&& point <= p < point + 128
            &&& aligned < 128 ==> p / 128 == (p + aligned - 1) / 128
            &&& aligned >= 128 ==> p % 128 == 0
            &&& aligned < 128 && point % 128 + aligned <= 128 ==> p == point
        }),
{
}

/// A region gives what fits before its end, from where it stands, and no more.
pub proof fn law_a_region_gives_what_fits(t: Tlab, aligned: int)
    requires
        0 < aligned,
    ensures
        match Space::tlab_point(t, aligned) {
            Some(p) => t.cur <= p && p + aligned <= t.limit && p < t.cur + 128,
            None => t.cur + aligned > t.limit || (t.cur % 128 != 0 && t.cur + aligned + 128
                > t.limit),
        },
{
}

/// A region that is refilled is the thread's only one, zeroed to its end, with the
/// allocation at its start; the regions of other threads, and the memory outside, are
/// as they were.
pub proof fn law_a_region_is_refilled(
    before: &Space,
    after: &Space,
    thread: u64,
    block: usize,
    lo: usize,
    hi: usize,
    aligned: usize,
    other: Tlab,
    k: int,
)
    requires
        after.refilled(before, thread, block, lo, hi, aligned),
        lo + aligned <= hi,
    ensures
        after.has_tlab(Tlab { thread, block, cur: (lo + aligned) as usize, limit: hi }),
        after.has_tlab(other) && other.thread == thread ==> other.limit == hi && other.cur == lo
            + aligned,
        other.thread != thread ==> (after.has_tlab(other) <==> before.has_tlab(other)),
        0 <= k < after.memory.words.len() && lo <= k * 8 < hi ==> after.memory.words[k] == 0,
        0 <= k < after.memory.words.len() && !(lo <= k * 8 < hi) ==> after.memory.words[k]
            == before.memory.words[k],
        after.tables.is_start(lo as int / 16),
        after.tables.extent(lo as int / 16) * 16 == aligned,
{
}

/// Moving on within a region changes that region alone.
pub proof fn law_a_region_moves_on(before: &Space, after: &Space, t: Tlab, cur: usize, other: Tlab)
    requires
        after.moved_tlab(before, t, cur),
    ensures
        after.has_tlab(Tlab { thread: t.thread, block: t.block, cur, limit: t.limit }),
        other.thread != t.thread ==> (after.has_tlab(other) <==> before.has_tlab(other)),
{
}

/// A refill takes recycled lines where it may, and a free block otherwise; one after a
/// collection for want of memory takes a block alone. It is refused only where there is
/// nothing to take, and is counted whole.
pub proof fn law_what_a_refill_takes(
    before: &ImmixAllocator,
    after: &ImmixAllocator,
    thread: u64,
    aligned: usize,
    attempt: Attempt,
    recycle: bool,
    r: Grant,
)
    requires
        after.refill_outcome(before, thread, aligned, attempt, recycle, r),
        before.trigger.bytes_since_gc + 65536 <= usize::MAX,
    ensures
        r is At || before.space.free_blocks.len() == 0,
        (attempt == Attempt::Exhausted || !recycle) && before.space.free_blocks.len() > 0 ==> r
            == Grant::At((before.space.memory.base + before.space.free_blocks@.last()) as usize)
            && after.space.free_blocks@ == before.space.free_blocks@.drop_last()
            && after.trigger.bytes_since_gc == before.trigger.bytes_since_gc + 32768,
        !(r is At) ==> (attempt == Attempt::Exhausted <==> r is OutOfMemory) && after.trigger
            == before.trigger,
        recycle && attempt != Attempt::Exhausted && last_fit(before.space.recycle_spans@, 1) >= 0
            ==> {
            let run = before.space.recycle_spans[last_fit(before.space.recycle_spans@, 1)];
            &&& r == Grant::At((before.space.memory.base + span_lo(run)) as usize)
            &&& after.space.free_blocks@ == before.space.free_blocks@
        },
{
}

// What is counted.

/// Bytes and allocations are counted up to the largest number, and no further.
pub proof fn law_charges_add_up(before: &Trigger, after: &Trigger, bytes: int, counted: bool)
    requires
        after.charged(before, bytes, counted),
        0 <= bytes,
    ensures
        before.bytes_since_gc + bytes <= usize::MAX ==> after.bytes_since_gc
            == before.bytes_since_gc + bytes,
        after.bytes_since_gc >= before.bytes_since_gc,
        counted && before.alloc_count < usize::MAX ==> after.alloc_count == before.alloc_count + 1,
        !counted ==> after.alloc_count == before.alloc_count,
        after.threshold == before.threshold && after.enabled == before.enabled
            && after.collect_pending == before.collect_pending && after.external_since_gc
            == before.external_since_gc,
{
}

/// Bytes outside the heap are counted apart from those in it.
pub proof fn law_outside_bytes_are_charged(
    before: &ImmixAllocator,
    after: &ImmixAllocator,
    bytes: usize,
)
    requires
        after.charged(before, bytes),
        before.trigger.external_since_gc + bytes <= usize::MAX,
        before.stats.external_bytes + bytes <= u64::MAX,
    ensures
        after.trigger.external_since_gc == before.trigger.external_since_gc + bytes,
        after.stats.external_bytes == before.stats.external_bytes + bytes,
        after.trigger.bytes_since_gc == before.trigger.bytes_since_gc,
        after.stats.bytes_allocated == before.stats.bytes_allocated,
        after.space == before.space,
{
}

/// A collection begins every count anew, and keeps how collecting is set.
pub proof fn law_counts_begin_anew(before: &ImmixAllocator, after: &ImmixAllocator, c: Collection)
    requires
        after.trigger_reset(before, c),
    ensures
        after.trigger.alloc_count == 0,
        after.trigger.bytes_since_gc == 0,
        after.trigger.external_since_gc == 0,
        !after.trigger.collect_pending,
        after.trigger.enabled == before.trigger.enabled,
        after.trigger.safepoint_mode == before.trigger.safepoint_mode,
        after.trigger.flags == before.trigger.flags,
        after.trigger.allocated_at_collect == before.stats.bytes_allocated,
        ({
            let next = ImmixAllocator::next_threshold(after.live() as int * 32768, c);
            &&& next <= usize::MAX ==> after.trigger.threshold == next
            &&& next > usize::MAX ==> after.trigger.threshold == usize::MAX
        }),
        before.stats.bytes_allocated + before.stats.external_bytes + after.trigger.threshold
            <= u64::MAX ==> after.trigger.next_trigger_at == before.stats.bytes_allocated
            + before.stats.external_bytes + after.trigger.threshold,
{
}

/// A collection is counted, with the blocks it gave back and those that are left.
pub proof fn law_a_collection_is_counted(before: &ImmixAllocator, after: &ImmixAllocator, freed: nat)
    requires
        after.counted(before, freed),
        before.stats.collections < u64::MAX,
        before.stats.blocks_reclaimed + freed <= u64::MAX,
    ensures
        after.stats.collections == before.stats.collections + 1,
        after.stats.blocks_reclaimed == before.stats.blocks_reclaimed + freed,
        after.stats.live_blocks == after.space.tables.blocks@.filter(|b: Block| b.used).len() as u64,
        after.stats.bytes_allocated == before.stats.bytes_allocated,
        after.stats.external_bytes == before.stats.external_bytes,
        after.stats.lines_recycled == before.stats.lines_recycled,
        after.stats.pause_ns_total == before.stats.pause_ns_total,
        after.stats.pause_ns_max == before.stats.pause_ns_max,
{
    let blocks = after.space.tables.blocks@;
    lemma_live(blocks, blocks.len());
    assert(blocks.take(blocks.len() as int) =~= blocks);
}

proof fn lemma_live(blocks: Seq<Block>, n: nat)
    requires
        n <= blocks.len(),
    ensures
        ImmixAllocator::live_upto(blocks, n) == blocks.take(n as int).filter(
            |b: Block| b.used,
        ).len(),
    decreases n,
{
    reveal(Seq::filter);
    if n > 0 {
        lemma_live(blocks, (n - 1) as nat);
        assert(blocks.take(n as int).drop_last() =~= blocks.take(n - 1));
    }
}

/// The table's byte says how large an object is, of what kind, and whether it was
/// reached, each in bits of its own.
pub proof fn law_an_objects_byte(b: u8)
    ensures
        b == size_code(b) + kind_bits(b) + (if claim_bit(b) {
            128int
        } else {
            0
        }),
        size_code(b) < 32,
        kind_bits(b) % 32 == 0 && kind_bits(b) < 128,
{
    assert(b == (b & 0x1F) + (b & 0x60) + (b & 0x80)) by (bit_vector);
    assert(b & 0x80 == 0 || b & 0x80 == 128) by (bit_vector);
    assert(b & 0x1F < 32) by (bit_vector);
    assert((b & 0x60) % 32 == 0 && b & 0x60 < 128) by (bit_vector);
}

// The dump.

/// A dump tells each figure on a line of its own, in this order: the layout, the
/// regions, the counters, the roots, and the blocks.
pub proof fn law_a_dump_tells_each_figure(
    gc: &ImmixAllocator,
    order: Seq<usize>,
    ranges: usize,
    marked: bool,
)
    ensures
        ({
            let d = dump_of(gc, order, ranges, marked);
            let size = gc.space.memory.words@.len() * 8;
            let t = gc.trigger;
            let s = gc.stats;
            let told = |b: bool|
                if b {
                    "true"@
                } else {
                    "false"@
                };
            &&& d[0] == "ASHMEM1 ash-immix"@
            &&& d[2] == "heap-base "@ + "0x"@ + hex(gc.space.memory.base as nat)
            &&& d[3] == "heap-size "@ + decimal(size as nat)
            &&& d[4] == "block-size "@ + decimal(32768)
            &&& d[5] == "line-size "@ + decimal(128)
            &&& d[6] == "blocks-total "@ + decimal((size / 32768) as nat)
            &&& d[7] == "blocks-used "@ + decimal(gc.live())
            &&& d[8] == "blocks-free "@ + decimal(gc.space.free_blocks@.len())
            &&& d[9] == "blocks-reusable "@ + decimal(
                reusable_upto(gc.space.tables.blocks@, gc.space.tables.blocks@.len()),
            )
            &&& d[10] == tlab_line(gc.space.memory.base, order)
            &&& d[11] == "alloc-count "@ + decimal(t.alloc_count as nat)
            &&& d[12] == "bytes-since-gc "@ + decimal(t.bytes_since_gc as nat)
            &&& d[13] == "external-since-gc "@ + decimal(t.external_since_gc as nat)
            &&& d[14] == "trigger-threshold "@ + decimal(t.threshold as nat)
            &&& d[15] == "collector-enabled "@ + told(t.enabled)
            &&& d[16] == "safepoint-mode "@ + told(t.safepoint_mode)
            &&& d[17] == "collections "@ + decimal(s.collections as nat)
            &&& d[18] == "blocks-reclaimed "@ + decimal(s.blocks_reclaimed as nat)
            &&& d[19] == "bytes-allocated "@ + decimal(s.bytes_allocated as nat)
            &&& d[20] == "external-bytes "@ + decimal(s.external_bytes as nat)
            &&& d[21] == "pause-ns-total "@ + decimal(s.pause_ns_total as nat)
            &&& d[22] == "pause-ns-max "@ + decimal(s.pause_ns_max as nat)
            &&& d[23] == "roots-globals "@ + decimal(gc.roots.globals@.len())
            &&& d[24] == "roots-stack "@ + decimal(gc.roots.stack_roots@.len())
            &&& d[25] == "roots-persistent "@ + decimal(gc.roots.persistent_roots@.len())
            &&& d[26] == "scan-ranges "@ + decimal(ranges as nat)
            &&& d[27] == "marked "@ + told(marked)
            &&& d.last() == "end"@
            &&& d.len() == 30 + gc.space.tables.blocks@.filter(|b: Block| b.used).len()
        }),
{
    let blocks = gc.space.tables.blocks@;
    lemma_block_lines(gc.space.memory.base, blocks, blocks.len());
    assert(blocks.take(blocks.len() as int) =~= blocks);
}

proof fn lemma_block_lines(base: usize, blocks: Seq<Block>, n: nat)
    requires
        n <= blocks.len(),
    ensures
        block_lines(base, blocks, n).len() == blocks.take(n as int).filter(|b: Block| b.used).len(),
    decreases n,
{
    reveal(Seq::filter);
    if n > 0 {
        lemma_block_lines(base, blocks, (n - 1) as nat);
        assert(blocks.take(n as int).drop_last() =~= blocks.take(n - 1));
    }
}

/// A block that is handed out is told by its address, its claimed lines and the bytes
/// they take.
pub proof fn law_a_dump_tells_each_block(base: usize, blocks: Seq<Block>, b: int)
    requires
        0 <= b < blocks.len(),
    ensures
        blocks[b].used ==> block_lines(base, blocks, blocks.len()).contains(
            "block "@ + "0x"@ + hex((base + b * 32768) as nat) + " "@ + decimal(
                blocks[b].count_marked(256),
            ) + " "@ + decimal(blocks[b].count_marked(256) * 128),
        ),
{
    if blocks[b].used {
        lemma_block_told(base, blocks, b, blocks.len());
    }
}

proof fn lemma_block_told(base: usize, blocks: Seq<Block>, b: int, n: nat)
    requires
        0 <= b < n,
        n <= blocks.len(),
        blocks[b].used,
    ensures
        block_lines(base, blocks, n).contains(block_line(base, b, blocks)),
    decreases n,
{
    let m = (n - 1) as nat;
    let init = block_lines(base, blocks, m);
    let all = block_lines(base, blocks, n);
    let line = block_line(base, b, blocks);
    if b < m {
        lemma_block_told(base, blocks, b, m);
        let k = choose|k: int| 0 <= k < init.len() && init[k] == line;
        assert(all[k] == line);
    } else {
        assert(all[init.len() as int] == line);
    }
}

/// The blocks that are bumped through are told with blanks between them, or as none.
pub proof fn law_regions_are_told(base: usize, order: Seq<usize>, last: usize)
    ensures
        tlab_line(base, Seq::empty()) == "tlab-blocks none"@,
        order.len() > 0 ==> tlab_line(base, order) == "tlab-blocks "@ + spaced(base, order),
        order.len() > 0 ==> spaced(base, order.push(last)) =~= spaced(base, order) + " "@ + "0x"@
            + hex((base + last) as nat),
        spaced(base, seq![last]) =~= "0x"@ + hex((base + last) as nat),
{
    reveal_strlit("");
    assert(order.push(last).drop_last() =~= order);
    assert(seq![last][0] == last);
}

/// The blocks whose pages were handed back are counted.
pub proof fn law_reusable_blocks_are_counted(blocks: Seq<Block>, n: nat)
    requires
        n <= blocks.len(),
    ensures
        reusable_upto(blocks, n) == blocks.take(n as int).filter(|b: Block| b.reusable).len(),
    decreases n,
{
    reveal(Seq::filter);
    if n > 0 {
        law_reusable_blocks_are_counted(blocks, (n - 1) as nat);
        assert(blocks.take(n as int).drop_last() =~= blocks.take(n - 1));
    }
}

/// Where memory runs out, the figures are told in whole megabytes.
pub proof fn law_what_is_told_out_of_memory(
    what: Seq<char>,
    cap: u64,
    s: GcStats,
    a: nat,
    b: nat,
    c: nat,
)
    requires
        a * 1048576 <= cap < (a + 1) * 1048576,
        b * 32 <= s.live_blocks < (b + 1) * 32,
        c * 1048576 <= s.external_bytes < (c + 1) * 1048576,
    ensures
        ({
            let front = "[ash] out of memory allocating "@ + what + "\n[ash]   heap cap "@ + decimal(a)
                + " MB, live "@ + decimal(b) + " MB, external "@ + decimal(c) + " MB, after "@
                + decimal(s.collections as nat) + " collection(s)"@;
            front.is_prefix_of(out_of_memory_text(what, cap, s))
        }),
{
    reveal_strlit(" collection(s)");
    reveal_strlit(
        " collection(s)\n[ash]   ASH_GC_HEAP_MB raises the cap. A heap that fills again at a\n[ash]   higher cap is a leak rather than a heap that is too small.",
    );
    assert((cap / 1048576) as nat == a);
    assert((s.live_blocks * 32768 / 1048576) as nat == b);
    assert((s.external_bytes / 1048576) as nat == c);
    let front = "[ash] out of memory allocating "@ + what + "\n[ash]   heap cap "@ + decimal(a)
        + " MB, live "@ + decimal(b) + " MB, external "@ + decimal(c) + " MB, after "@ + decimal(
        s.collections as nat,
    ) + " collection(s)"@;
    let whole = out_of_memory_text(what, cap, s);
    assert(whole.take(front.len() as int) =~= front);
}

/// What a boxed value touches is marked step by step, in its order.
pub proof fn law_steps_are_taken_in_order(
    graph: &TypeGraph,
    base: int,
    size: int,
    free: Set<int>,
    steps: Seq<Touch>,
    step: Touch,
)
    ensures
        after_steps(graph, base, size, free, Seq::empty()) == free,
        after_steps(graph, base, size, free, steps.push(step)) == after_step(
            graph,
            base,
            size,
            after_steps(graph, base, size, free, steps),
            step,
        ),
{
    assert(steps.push(step).drop_last() =~= steps);
}

/// The blocks of a dump's regions are each told once, the lowest first.
pub proof fn law_regions_are_told_in_order(order: Seq<usize>, tlabs: Seq<Tlab>, i: int)
    requires
        orders(order, tlabs),
    ensures
        order.len() == tlabs.len(),
        0 < i < order.len() ==> order[i - 1] <= order[i],
        0 <= i < tlabs.len() ==> order.contains(tlabs[i].block),
{
    let blocks = tlabs.map_values(|t: Tlab| t.block);
    order.to_multiset_ensures();
    blocks.to_multiset_ensures();
    if 0 <= i < tlabs.len() {
        assert(blocks[i] == tlabs[i].block);
        assert(blocks.contains(tlabs[i].block));
        assert(order.to_multiset().count(tlabs[i].block) > 0);
    }
}

/// Under stress whatever was allocated since the last collection makes one due; else the
/// bytes in and outside the heap do, once they reach what the last collection set.
pub proof fn law_when_the_figures_are_reached(t: Trigger, s: GcStats, stress: usize)
    ensures
        stress > 0 ==> (reached(t, s, stress) <==> s.bytes_allocated > t.allocated_at_collect),
        reached(t, s, 0) <==> s.bytes_allocated + s.external_bytes >= t.next_trigger_at,
{
}

/// After a collection that the trigger asked for, memory may still be wanted; after any
/// other, the next attempt is the last.
pub proof fn law_the_last_attempt(origin: u8)
    ensures
        origin == ORIGIN_PRESSURE || origin == ORIGIN_TLAB <==> Attempt::after(origin) is Triggered,
        origin != ORIGIN_PRESSURE && origin != ORIGIN_TLAB <==> Attempt::after(origin) is Exhausted,
        Attempt::after(ORIGIN_EXHAUSTION) is Exhausted,
{
}

/// An allocation that the trigger stops first is told to collect for pressure, and
/// nothing is placed. Asking by itself places nothing either, and counts nothing.
pub proof fn law_pressure_stops_an_allocation(
    before: &ImmixAllocator,
    after: &ImmixAllocator,
    size: int,
    attempt: Attempt,
    ctx: TriggerContext,
    recycle: bool,
    r: Grant,
)
    ensures
        before.stops_first(attempt, ctx) && after.allocated(before, size, attempt, ctx, recycle, r)
            ==> r == Grant::Collect(ORIGIN_PRESSURE) && after.space == before.space,
        after.asked_from(before, attempt, ctx) ==> after.space == before.space && after.stats
            == before.stats && after.roots == before.roots && after.handles == before.handles,
{
}

} // verus!
