//! The allocator: one space, its roots, and when to collect it.

use vstd::prelude::*;

use crate::heap::block::Block;
use crate::heap::deferred::Deferred;
use crate::heap::handles::{Handle, HandleSlot, HandleTable};
use crate::heap::layout::{lemma_plain_code, BLOCK_SIZE, WORDS_PER_BLOCK};
use crate::heap::memory::HeapMemory;
use crate::heap::roots::{fiber_ok, FiberStackInfo, RootSet};
use crate::heap::sizing::INITIAL_TRIGGER_BYTES;
use crate::heap::space::{Space, Tlab};
use crate::heap::tables::Tables;

verus! {

/// Counters that only grow, but for the last collection's live blocks.
#[derive(Clone, Copy, Debug)]
pub struct GcStats {
    pub collections: u64,
    pub blocks_reclaimed: u64,
    /// Lines served from a kept block's free runs rather than a fresh block.
    pub lines_recycled: u64,
    pub bytes_allocated: u64,
    pub external_bytes: u64,
    pub live_blocks: u64,
    pub pause_ns_total: u64,
    pub pause_ns_max: u64,
    /// Collections given up because a mutator never reached a safepoint.
    pub stops_abandoned: u64,
}

impl GcStats {
    /// Nothing counted.
    pub open spec fn zero() -> GcStats {
        GcStats {
            collections: 0,
            blocks_reclaimed: 0,
            lines_recycled: 0,
            bytes_allocated: 0,
            external_bytes: 0,
            live_blocks: 0,
            pause_ns_total: 0,
            pause_ns_max: 0,
            stops_abandoned: 0,
        }
    }

    pub fn new() -> (s: GcStats)
        ensures
            s == GcStats::zero(),
    {
        GcStats {
            collections: 0,
            blocks_reclaimed: 0,
            lines_recycled: 0,
            bytes_allocated: 0,
            external_bytes: 0,
            live_blocks: 0,
            pause_ns_total: 0,
            pause_ns_max: 0,
            stops_abandoned: 0,
        }
    }
}

/// When the allocator collects, and what it has been told about it.
#[derive(Clone, Copy, Debug)]
pub struct Trigger {
    /// Allocations since the last collection.
    pub alloc_count: usize,
    /// Bytes allocated since the last collection.
    pub bytes_since_gc: usize,
    /// Bytes charged outside the heap since the last collection.
    pub external_since_gc: usize,
    /// Collect when the two reach this.
    pub threshold: usize,
    /// An interpreter publishes its roots only at its safepoints.
    pub safepoint_mode: bool,
    /// A trigger fired where the collection had to wait.
    pub collect_pending: bool,
    /// Whether triggers collect.
    pub enabled: bool,
    /// The collector's flag word, kept whole.
    pub flags: i32,
    /// The allocated and external bytes at which the next collection is due.
    pub next_trigger_at: u64,
    /// The bytes allocated at the last collection.
    pub allocated_at_collect: u64,
}

/// The heap and everything registered with it.
pub struct ImmixAllocator {
    pub space: Space,
    pub roots: RootSet,
    /// An array of pointers outside the heap: its address and its length.
    pub globals_range: Option<(usize, usize)>,
    /// Address ranges scanned at every collection, as `(start, len)`.
    pub root_ranges: Vec<(usize, usize)>,
    pub handles: HandleTable,
    pub fiber_stacks: Vec<FiberStackInfo>,
    /// Offsets of blocks with a finalizer, each once.
    pub finalizables: Vec<usize>,
    pub deferred: Deferred,
    pub trigger: Trigger,
    pub stats: GcStats,
}

impl ImmixAllocator {
    /// Everything registered is in order.
    pub open spec fn registered_ok(&self) -> bool {
        &&& self.roots.inv()
        &&& self.handles.inv()
        &&& self.globals_range matches Some((p, n)) ==> p + n * 8 <= usize::MAX
        &&& forall|i: int|
            0 <= i < self.root_ranges.len() ==> (#[trigger] self.root_ranges[i]).0
                + self.root_ranges[i].1 <= usize::MAX && self.root_ranges[i].0 + 7 <= usize::MAX
        &&& forall|i: int|
            0 <= i < self.fiber_stacks.len() ==> fiber_ok(#[trigger] self.fiber_stacks[i])
        &&& self.finalizables@.no_duplicates()
        &&& forall|i: int|
            0 <= i < self.finalizables.len() ==> (#[trigger] self.finalizables[i])
                < self.space.memory.size()
    }

    /// The allocator is in order.
    pub open spec fn wf(&self) -> bool {
        self.space.wf() && self.registered_ok()
    }

    /// The mark at which the next collection is due is never more than a
    /// threshold away.
    pub open spec fn paced(&self) -> bool {
        self.trigger.next_trigger_at <= self.stats.bytes_allocated + self.stats.external_bytes
            + self.trigger.threshold
    }

    /// No count of bytes has wrapped since `before`.
    pub open spec fn bytes_grew(&self, before: &ImmixAllocator) -> bool {
        &&& self.stats.bytes_allocated >= before.stats.bytes_allocated
        &&& self.stats.external_bytes >= before.stats.external_bytes
    }

    /// The side tables can be read: every address leads to at most one
    /// allocation.
    pub open spec fn legible(&self) -> bool {
        self.space.inv() && self.space.tables.sound()
    }

    /// No claim stands, and none went unnoticed.
    pub open spec fn unclaimed(&self) -> bool {
        &&& forall|q: int| !#[trigger] self.space.tables.claimed(q)
        &&& forall|b: int|
            0 <= b < self.space.tables.blocks.len() && (
            #[trigger] self.space.tables.blocks[b]).used ==> self.space.tables.blocks[b].clear()
        &&& self.space.tables.marks_seen()
    }

    /// Where no claim stands the claims are in order.
    pub proof fn lemma_unclaimed_ok(&self)
        requires
            self.space.tables.inv(),
            self.space.tables.sound(),
            self.unclaimed(),
        ensures
            self.claims_ok(),
    {
        let t = self.space.tables;
        assert forall|q: int, l: int| #[trigger] t.on_line(q, l) implies t.marked_line(l)
            == t.marked_line(q / 8) by {
            t.lemma_line_in_heap(q, l);
            assert(t.on_line(q, q / 8));
            t.lemma_line_in_heap(q, q / 8);
            assert(t.blocks[l / 256].used);
            assert(t.blocks[q / 8 / 256].used);
            assert(!t.blocks[l / 256].marked(l % 256));
            assert(!t.blocks[q / 8 / 256].marked((q / 8) % 256));
        }
    }

    /// The claims that stand cover whole allocations and are noted.
    pub open spec fn claims_ok(&self) -> bool {
        &&& self.space.tables.marks_whole()
        &&& self.space.tables.marks_seen()
        &&& self.space.tables.claims_held()
    }

    /// Nothing registered changed.
    pub open spec fn same_registered(&self, before: &ImmixAllocator) -> bool {
        &&& self.roots == before.roots
        &&& self.globals_range == before.globals_range
        &&& self.root_ranges == before.root_ranges
        &&& self.handles == before.handles
        &&& self.fiber_stacks == before.fiber_stacks
        &&& self.finalizables == before.finalizables
        &&& self.deferred == before.deferred
    }

    /// An empty heap of `heap_size` bytes at `base`, every block free.
    pub fn with_heap_size(base: usize, heap_size: usize) -> (a: ImmixAllocator)
        requires
            heap_size % 32768 == 0,
            base % 128 == 0,
            0 < base,
            base + heap_size <= usize::MAX,
            heap_size / 128 <= u32::MAX,
        ensures
            a.wf(),
            a.unclaimed(),
            a.claims_ok(),
            a.space.memory.base == base,
            a.space.memory.size() == heap_size,
            a.space.tables.size() == heap_size,
            forall|q: int| !#[trigger] a.space.tables.is_start(q),
            forall|k: int|
                0 <= k < a.space.memory.words.len() ==> #[trigger] a.space.memory.words[k] == 0,
            a.space.free_blocks@ == Seq::new(
                (heap_size / 32768) as nat,
                |i: int| (heap_size - (i + 1) * 32768) as usize,
            ),
            forall|b: int|
                0 <= b < a.space.tables.blocks.len() ==> (#[trigger] a.space.tables.blocks[b]).blank(),
            a.space.recycle_spans@ == Seq::<(usize, usize, usize)>::empty(),
            a.space.tlabs@ == Seq::<Tlab>::empty(),
            a.space.reuse_due@ == Seq::<usize>::empty(),
            a.space.allocation_point == 0,
            a.space.current_block_end == 0,
            a.trigger == (Trigger {
                alloc_count: 0,
                bytes_since_gc: 0,
                external_since_gc: 0,
                threshold: INITIAL_TRIGGER_BYTES,
                safepoint_mode: false,
                collect_pending: false,
                enabled: true,
                flags: 0,
                next_trigger_at: INITIAL_TRIGGER_BYTES as u64,
                allocated_at_collect: 0,
            }),
            a.stats == GcStats::zero(),
            a.paced(),
            a.roots.globals@ == Seq::<u64>::empty(),
            a.roots.stack_roots@ == Seq::<u64>::empty(),
            a.roots.persistent_roots@ == Seq::<u64>::empty(),
            a.roots.root_slots@ == Seq::<usize>::empty(),
            a.handles.slots@ == Seq::<HandleSlot>::empty(),
            a.handles.free@ == Seq::<u32>::empty(),
            a.finalizables@ == Seq::<usize>::empty(),
            a.root_ranges@ == Seq::<(usize, usize)>::empty(),
            a.fiber_stacks@ == Seq::<FiberStackInfo>::empty(),
            a.globals_range is None,
            a.deferred.releases@ == Seq::<Handle>::empty(),
            a.deferred.finalizers@ == Seq::<(usize, u64)>::empty(),
            !a.deferred.running,
    {
        let n: usize = heap_size / BLOCK_SIZE;
        let memory = HeapMemory::new(base, n * WORDS_PER_BLOCK);
        let tables = ImmixAllocator::empty_tables(n);
        // Low addresses are handed out first, so touched pages stay together
        // at the heap's base.
        let mut free_blocks: Vec<usize> = Vec::new();
        let mut i: usize = 0;
        while i < n
            invariant
                i <= n,
                n * 32768 == heap_size,
                free_blocks.len() == i,
                forall|k: int|
                    0 <= k < i ==> #[trigger] free_blocks[k] == heap_size - (k + 1) * 32768,
            decreases n - i,
        {
            free_blocks.push((n - 1 - i) * BLOCK_SIZE);
            i = i + 1;
        }
        let space = Space {
            tables,
            memory,
            free_blocks,
            recycle_spans: Vec::new(),
            allocation_point: 0,
            current_block_end: 0,
            tlabs: Vec::new(),
            reuse_due: Vec::new(),
        };
        proof {
            assert(space.free_blocks@ =~= Seq::new(
                (heap_size / 32768) as nat,
                |i: int| (heap_size - (i + 1) * 32768) as usize,
            ));
            assert(space.free_ok()) by {
                assert forall|i: int| 0 <= i < space.free_blocks.len() implies (
                #[trigger] space.free_blocks[i]) % 32768 == 0 && space.free_blocks[i] as int / 32768
                    < space.tables.blocks.len() && !space.tables.blocks[space.free_blocks[i] as int
                    / 32768].used by {
                    let c = n - 1 - i;
                    assert(space.free_blocks[i] == c * 32768);
                }
            }
            assert(space.inv());
            assert(space.sound());
        }
        let made = ImmixAllocator {
            space,
            roots: RootSet::new(),
            globals_range: None,
            root_ranges: Vec::new(),
            handles: HandleTable::new(),
            fiber_stacks: Vec::new(),
            finalizables: Vec::new(),
            deferred: Deferred::new(),
            trigger: Trigger {
                alloc_count: 0,
                bytes_since_gc: 0,
                external_since_gc: 0,
                threshold: INITIAL_TRIGGER_BYTES,
                safepoint_mode: false,
                collect_pending: false,
                enabled: true,
                flags: 0,
                next_trigger_at: INITIAL_TRIGGER_BYTES as u64,
                allocated_at_collect: 0,
            },
            stats: GcStats::new(),
        };
        proof {
            made.lemma_unclaimed_ok();
        }
        made
    }

    /// Side tables of `n` blocks that hold nothing.
    fn empty_tables(n: usize) -> (t: Tables)
        requires
            n * 32768 <= usize::MAX,
            n * 256 <= u32::MAX,
        ensures
            t.inv(),
            t.sound(),
            t.blocks.len() == n,
            forall|q: int| !#[trigger] t.is_start(q),
            forall|b: int|
                0 <= b < n ==> (#[trigger] t.blocks[b]).blank(),
    {
        let mut blocks: Vec<Block> = Vec::new();
        let mut i: usize = 0;
        while i < n
            invariant
                i <= n,
                blocks.len() == i,
                forall|b: int|
                    0 <= b < i ==> (#[trigger] blocks[b]).blank(),
            decreases n - i,
        {
            blocks.push(Block::new());
            i = i + 1;
        }
        let mut alloc_sizes: Vec<u32> = Vec::new();
        let mut i: usize = 0;
        while i < n * 256
            invariant
                n * 32768 <= usize::MAX,
                i <= n * 256,
                alloc_sizes.len() == i,
            decreases n * 256 - i,
        {
            alloc_sizes.push(0);
            i = i + 1;
        }
        let mut objects: Vec<u8> = Vec::new();
        let mut i: usize = 0;
        while i < n * 2048
            invariant
                n * 32768 <= usize::MAX,
                i <= n * 2048,
                objects.len() == i,
                forall|k: int| 0 <= k < i ==> #[trigger] objects[k] == 0,
            decreases n * 2048 - i,
        {
            objects.push(0);
            i = i + 1;
        }
        let t = Tables { blocks, alloc_sizes, objects };
        proof {
            lemma_plain_code(0);
            assert forall|q: int| !#[trigger] t.is_start(q) by {
                if 0 <= q < t.objects.len() {
                    assert(t.objects[q] == 0);
                }
            }
            assert forall|q: int| 0 <= q < t.objects.len() implies #[trigger] t.entry_ok(q) by {
                assert(t.objects[q] == 0);
            }
        }
        t
    }
}

} // verus!
