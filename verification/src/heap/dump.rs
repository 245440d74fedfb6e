//! The heap written out as text that describes itself, and what is said when
//! memory runs out.

use vstd::prelude::*;

use crate::diag::text_views;
use crate::heap::block::Block;
use crate::heap::immix::{GcStats, ImmixAllocator, Trigger};
use crate::heap::large::sort_offsets;
use crate::heap::layout::{BLOCK_SIZE, LINE_SIZE};
use crate::heap::space::Tlab;
use crate::text::{cat, decimal, decimal_text, hex, hex_text};

verus! {

/// `name n`.
pub open spec fn field(name: Seq<char>, n: nat) -> Seq<char> {
    name + decimal(n)
}

/// `name 0xn`.
pub open spec fn address(name: Seq<char>, n: nat) -> Seq<char> {
    name + "0x"@ + hex(n)
}

pub open spec fn truth(name: Seq<char>, b: bool) -> Seq<char> {
    name + if b {
        "true"@
    } else {
        "false"@
    }
}

fn field_line(name: &str, n: u64) -> (s: String)
    ensures
        s@ == field(name@, n as nat),
{
    cat(name, decimal_text(n).as_str())
}

fn address_line(name: &str, n: usize) -> (s: String)
    ensures
        s@ == address(name@, n as nat),
{
    let mut s: String = cat(name, "0x");
    s.append(hex_text(n as u64).as_str());
    s
}

fn truth_line(name: &str, b: bool) -> (s: String)
    ensures
        s@ == truth(name@, b),
{
    if b {
        cat(name, "true")
    } else {
        cat(name, "false")
    }
}

/// How many of the first `n` blocks have their pages handed back.
pub open spec fn reusable_upto(blocks: Seq<Block>, n: nat) -> nat
    decreases n,
{
    if n == 0 {
        0
    } else {
        reusable_upto(blocks, (n - 1) as nat) + if blocks[n - 1].reusable {
            1nat
        } else {
            0
        }
    }
}

/// The lines about the blocks.
pub open spec fn layout_lines(gc: &ImmixAllocator) -> Seq<Seq<char>> {
    seq![
        "ASHMEM1 ash-immix"@,
        field("pointer-size "@, usize::BITS as nat / 8),
        address("heap-base "@, gc.space.memory.base as nat),
        field("heap-size "@, (gc.space.memory.words@.len() * 8) as nat),
        field("block-size "@, 32768),
        field("line-size "@, 128),
        field("blocks-total "@, (gc.space.memory.words@.len() * 8 / 32768) as nat),
        field("blocks-used "@, gc.live()),
        field("blocks-free "@, gc.space.free_blocks@.len()),
        field(
            "blocks-reusable "@,
            reusable_upto(gc.space.tables.blocks@, gc.space.tables.blocks@.len()),
        ),
    ]
}

/// The lines about the trigger and the counters.
pub open spec fn counter_lines(t: Trigger, s: GcStats) -> Seq<Seq<char>> {
    seq![
        field("alloc-count "@, t.alloc_count as nat),
        field("bytes-since-gc "@, t.bytes_since_gc as nat),
        field("external-since-gc "@, t.external_since_gc as nat),
        field("trigger-threshold "@, t.threshold as nat),
        truth("collector-enabled "@, t.enabled),
        truth("safepoint-mode "@, t.safepoint_mode),
        field("collections "@, s.collections as nat),
        field("blocks-reclaimed "@, s.blocks_reclaimed as nat),
        field("bytes-allocated "@, s.bytes_allocated as nat),
        field("external-bytes "@, s.external_bytes as nat),
        field("pause-ns-total "@, s.pause_ns_total as nat),
        field("pause-ns-max "@, s.pause_ns_max as nat),
    ]
}

/// The lines about the roots.
pub open spec fn root_lines(gc: &ImmixAllocator, ranges: usize, marked: bool) -> Seq<Seq<char>> {
    seq![
        field("roots-globals "@, gc.roots.globals@.len()),
        field("roots-stack "@, gc.roots.stack_roots@.len()),
        field("roots-persistent "@, gc.roots.persistent_roots@.len()),
        field("scan-ranges "@, ranges as nat),
        truth("marked "@, marked),
        "# block <addr> <live-lines> <live-bytes>"@,
    ]
}

/// A block's line: its address, its live lines and their bytes.
pub open spec fn block_line(base: usize, b: int, blocks: Seq<Block>) -> Seq<char> {
    let live = blocks[b].count_marked(256);
    address("block "@, (base + b * 32768) as nat) + " "@ + decimal(live) + " "@ + decimal(
        live * 128,
    )
}

/// The lines of the blocks handed out, in the order of their addresses.
pub open spec fn block_lines(base: usize, blocks: Seq<Block>, n: nat) -> Seq<Seq<char>>
    decreases n,
{
    if n == 0 {
        Seq::empty()
    } else {
        let init = block_lines(base, blocks, (n - 1) as nat);
        if blocks[n - 1].used {
            init.push(block_line(base, n - 1, blocks))
        } else {
            init
        }
    }
}

/// The addresses of blocks, spaced.
pub open spec fn spaced(base: usize, blocks: Seq<usize>) -> Seq<char>
    decreases blocks.len(),
{
    if blocks.len() == 0 {
        Seq::empty()
    } else if blocks.len() == 1 {
        address(""@, (base + blocks[0]) as nat)
    } else {
        spaced(base, blocks.drop_last()) + " "@ + address(""@, (base + blocks.last()) as nat)
    }
}

/// Whether `order` has the mutators' blocks in the order of their addresses.
pub open spec fn orders(order: Seq<usize>, tlabs: Seq<Tlab>) -> bool {
    &&& order.to_multiset() == tlabs.map_values(|t: Tlab| t.block).to_multiset()
    &&& forall|i: int, j: int| 0 <= i <= j < order.len() ==> order[i] <= order[j]
}

/// The line of the mutators' blocks.
pub open spec fn tlab_line(base: usize, order: Seq<usize>) -> Seq<char> {
    if order.len() == 0 {
        "tlab-blocks none"@
    } else {
        "tlab-blocks "@ + spaced(base, order)
    }
}

/// The whole dump.
pub open spec fn dump_of(
    gc: &ImmixAllocator,
    order: Seq<usize>,
    ranges: usize,
    marked: bool,
) -> Seq<Seq<char>> {
    layout_lines(gc) + seq![tlab_line(gc.space.memory.base, order)] + counter_lines(
        gc.trigger,
        gc.stats,
    ) + root_lines(gc, ranges, marked) + block_lines(
        gc.space.memory.base,
        gc.space.tables.blocks@,
        gc.space.tables.blocks@.len(),
    ) + seq!["end"@]
}

impl ImmixAllocator {
    fn reusable_blocks(&self) -> (n: usize)
        ensures
            n == reusable_upto(self.space.tables.blocks@, self.space.tables.blocks@.len()),
    {
        let mut n: usize = 0;
        let mut i: usize = 0;
        while i < self.space.tables.blocks.len()
            invariant
                i <= self.space.tables.blocks@.len(),
                n == reusable_upto(self.space.tables.blocks@, i as nat),
                n <= i,
            decreases self.space.tables.blocks.len() - i,
        {
            if self.space.tables.blocks[i].reusable {
                n = n + 1;
            }
            i = i + 1;
        }
        n
    }

    fn dump_layout(&self) -> (out: Vec<String>)
        requires
            self.wf(),
        ensures
            text_views(out@) == layout_lines(self),
    {
        let mut out: Vec<String> = Vec::new();
        let size: usize = self.space.memory.words.len() * 8;
        out.push("ASHMEM1 ash-immix".to_owned());
        out.push(field_line("pointer-size ", (usize::BITS / 8) as u64));
        out.push(address_line("heap-base ", self.space.memory.base));
        out.push(field_line("heap-size ", size as u64));
        out.push(field_line("block-size ", BLOCK_SIZE as u64));
        out.push(field_line("line-size ", LINE_SIZE as u64));
        out.push(field_line("blocks-total ", (size / BLOCK_SIZE) as u64));
        out.push(field_line("blocks-used ", self.live_blocks() as u64));
        out.push(field_line("blocks-free ", self.space.free_blocks.len() as u64));
        out.push(field_line("blocks-reusable ", self.reusable_blocks() as u64));
        assert(text_views(out@) =~= layout_lines(self));
        out
    }

    fn dump_roots(&self, ranges: usize, marked: bool) -> (out: Vec<String>)
        ensures
            text_views(out@) == root_lines(self, ranges, marked),
    {
        let mut out: Vec<String> = Vec::new();
        out.push(field_line("roots-globals ", self.roots.globals.len() as u64));
        out.push(field_line("roots-stack ", self.roots.stack_roots.len() as u64));
        out.push(field_line("roots-persistent ", self.roots.persistent_roots.len() as u64));
        out.push(field_line("scan-ranges ", ranges as u64));
        out.push(truth_line("marked ", marked));
        out.push("# block <addr> <live-lines> <live-bytes>".to_owned());
        assert(text_views(out@) =~= root_lines(self, ranges, marked));
        out
    }

    fn dump_blocks(&self) -> (out: Vec<String>)
        requires
            self.wf(),
        ensures
            text_views(out@) == block_lines(
                self.space.memory.base,
                self.space.tables.blocks@,
                self.space.tables.blocks@.len(),
            ),
    {
        let mut out: Vec<String> = Vec::new();
        let base: usize = self.space.memory.base;
        let mut b: usize = 0;
        assert(text_views(out@) =~= Seq::<Seq<char>>::empty());
        while b < self.space.tables.blocks.len()
            invariant
                self.wf(),
                base == self.space.memory.base,
                b <= self.space.tables.blocks@.len(),
                text_views(out@) == block_lines(base, self.space.tables.blocks@, b as nat),
            decreases self.space.tables.blocks.len() - b,
        {
            if self.space.tables.blocks[b].used {
                let live: usize = self.space.tables.blocks[b].marked_line_count();
                let mut s: String = address_line("block ", base + b * BLOCK_SIZE);
                s.append(" ");
                s.append(decimal_text(live as u64).as_str());
                s.append(" ");
                s.append(decimal_text((live * LINE_SIZE) as u64).as_str());
                let ghost was = out@;
                out.push(s);
                assert(text_views(out@) =~= text_views(was).push(s@));
            }
            b = b + 1;
        }
        out
    }

    fn dump_tlabs(&self) -> (s: String)
        requires
            self.wf(),
        ensures
            exists|order: Seq<usize>| #[trigger]
                orders(order, self.space.tlabs@) && s@ == tlab_line(
                    self.space.memory.base,
                    order,
                ),
    {
        broadcast use vstd::seq_lib::group_to_multiset_ensures;

        let mut blocks: Vec<usize> = Vec::new();
        let mut i: usize = 0;
        let ghost all = self.space.tlabs@.map_values(|t: Tlab| t.block);
        while i < self.space.tlabs.len()
            invariant
                i <= self.space.tlabs@.len(),
                all == self.space.tlabs@.map_values(|t: Tlab| t.block),
                blocks@ == all.take(i as int),
            decreases self.space.tlabs.len() - i,
        {
            blocks.push(self.space.tlabs[i].block);
            assert(blocks@ =~= all.take(i + 1));
            i = i + 1;
        }
        assert(all.take(i as int) =~= all);
        let ghost listed = blocks@;
        sort_offsets(&mut blocks);
        assert(orders(blocks@, self.space.tlabs@));
        if blocks.len() == 0 {
            return "tlab-blocks none".to_owned();
        }
        let base: usize = self.space.memory.base;
        let mut s: String = String::new();
        let mut k: usize = 0;
        assert(s@ =~= Seq::<char>::empty());
        while k < blocks.len()
            invariant
                self.wf(),
                k <= blocks.len(),
                base == self.space.memory.base,
                blocks@.to_multiset() == all.to_multiset(),
                all == self.space.tlabs@.map_values(|t: Tlab| t.block),
                s@ == spaced(base, blocks@.take(k as int)),
            decreases blocks.len() - k,
        {
            proof {
                broadcast use vstd::seq_lib::group_to_multiset_ensures;

                assert(blocks@.contains(blocks@[k as int]));
                assert(blocks@.to_multiset().count(blocks@[k as int]) > 0);
                assert(all.to_multiset().count(blocks@[k as int]) > 0);
                assert(all.contains(blocks@[k as int]));
                let m = choose|m: int| 0 <= m < all.len() && all[m] == blocks@[k as int];
                assert(self.space.tlab_ok(self.space.tlabs[m]));
                assert(blocks@.take(k + 1).drop_last() =~= blocks@.take(k as int));
                reveal_strlit("");
            }
            let ghost was = s@;
            if k > 0 {
                s.append(" ");
            }
            let one: String = address_line("", base + blocks[k]);
            s.append(one.as_str());
            if k == 0 {
                assert(was =~= Seq::<char>::empty());
                assert(s@ =~= one@);
                assert(blocks@.take(1)[0] == blocks@[0]);
            }
            k = k + 1;
        }
        assert(blocks@.take(k as int) =~= blocks@);
        let ghost order = blocks@;
        let line: String = cat("tlab-blocks ", s.as_str());
        assert(orders(order, self.space.tlabs@));
        line
    }

    /// The heap as lines of text: what it is laid out as, its counters, its
    /// roots, and one line per block handed out with what is claimed in it.
    pub fn dump_memory(&self, ranges: usize, marked: bool) -> (out: Vec<String>)
        requires
            self.wf(),
        ensures
            exists|order: Seq<usize>| #[trigger]
                orders(order, self.space.tlabs@) && text_views(out@) == dump_of(
                    self,
                    order,
                    ranges,
                    marked,
                ),
    {
        let tlabs: String = self.dump_tlabs();
        let ghost order = choose|order: Seq<usize>| #[trigger]
            orders(order, self.space.tlabs@) && tlabs@ == tlab_line(self.space.memory.base, order);
        let mut out: Vec<String> = self.dump_layout();
        let ghost a = text_views(out@);
        out.push(tlabs);
        let mut counters: Vec<String> = dump_counters(&self.trigger, &self.stats);
        let ghost b = text_views(counters@);
        let mut roots: Vec<String> = self.dump_roots(ranges, marked);
        let ghost c = text_views(roots@);
        let mut blocks: Vec<String> = self.dump_blocks();
        let ghost d = text_views(blocks@);
        out.append(&mut counters);
        out.append(&mut roots);
        out.append(&mut blocks);
        out.push("end".to_owned());
        assert(text_views(out@) =~= a + seq![tlabs@] + b + c + d + seq!["end"@]);
        out
    }
}

fn dump_counters(t: &Trigger, s: &GcStats) -> (out: Vec<String>)
    ensures
        text_views(out@) == counter_lines(*t, *s),
{
    let mut out: Vec<String> = Vec::new();
    out.push(field_line("alloc-count ", t.alloc_count as u64));
    out.push(field_line("bytes-since-gc ", t.bytes_since_gc as u64));
    out.push(field_line("external-since-gc ", t.external_since_gc as u64));
    out.push(field_line("trigger-threshold ", t.threshold as u64));
    out.push(truth_line("collector-enabled ", t.enabled));
    out.push(truth_line("safepoint-mode ", t.safepoint_mode));
    out.push(field_line("collections ", s.collections));
    out.push(field_line("blocks-reclaimed ", s.blocks_reclaimed));
    out.push(field_line("bytes-allocated ", s.bytes_allocated));
    out.push(field_line("external-bytes ", s.external_bytes));
    out.push(field_line("pause-ns-total ", s.pause_ns_total));
    out.push(field_line("pause-ns-max ", s.pause_ns_max));
    assert(text_views(out@) =~= counter_lines(*t, *s));
    out
}

/// What is said when an allocation could not be satisfied: what was being
/// allocated, and how full the heap was.
pub open spec fn out_of_memory_text(what: Seq<char>, cap: u64, s: GcStats) -> Seq<char> {
    "[ash] out of memory allocating "@ + what + "\n[ash]   heap cap "@ + decimal(
        (cap / 1048576) as nat,
    ) + " MB, live "@ + decimal((s.live_blocks * 32768 / 1048576) as nat) + " MB, external "@
        + decimal((s.external_bytes / 1048576) as nat) + " MB, after "@ + decimal(
        s.collections as nat,
    ) + " collection(s)\n[ash]   ASH_GC_HEAP_MB raises the cap. A heap that fills again at a\n[ash]   higher cap is a leak rather than a heap that is too small."@
}

/// [`out_of_memory_text`].
pub fn out_of_memory(what: &str, cap: u64, s: &GcStats) -> (text: String)
    requires
        s.live_blocks * 32768 <= u64::MAX,
    ensures
        text@ == out_of_memory_text(what@, cap, *s),
{
    let mut text: String = cat("[ash] out of memory allocating ", what);
    text.append("\n[ash]   heap cap ");
    text.append(decimal_text(cap / 1048576).as_str());
    text.append(" MB, live ");
    text.append(decimal_text(s.live_blocks * 32768 / 1048576).as_str());
    text.append(" MB, external ");
    text.append(decimal_text(s.external_bytes / 1048576).as_str());
    text.append(" MB, after ");
    text.append(decimal_text(s.collections).as_str());
    text.append(" collection(s)\n[ash]   ASH_GC_HEAP_MB raises the cap. A heap that fills again at a\n[ash]   higher cap is a leak rather than a heap that is too small.");
    text
}

} // verus!
