//! Where the collector looks for pointers: registered roots, ranges and the
//! stacks of stopped mutators.

use vstd::prelude::*;

use crate::heap::layout::{scan_floor, stack_scan_start, word_align_up};
use crate::heap::mutators::MutatorSnapshot;
use crate::platform::Platform;

verus! {

/// Objects and slots registered as roots.
pub struct RootSet {
    pub globals: Vec<u64>,
    pub stack_roots: Vec<u64>,
    /// Each once.
    pub persistent_roots: Vec<u64>,
    /// Addresses of pointer slots that are read again at every collection,
    /// each once.
    pub root_slots: Vec<usize>,
}

/// One registered stack of a thread; id zero is its main stack.
#[derive(Clone, Copy)]
pub struct FiberStackInfo {
    pub thread: u64,
    pub id: u32,
    pub base: usize,
    pub size: usize,
    /// Where the stack was left; zero when it never was.
    pub saved_sp: usize,
}

/// `a` rounded up to a word.
pub open spec fn word_up(a: int) -> int {
    (a + 7) / 8 * 8
}

/// Insert `x` unless it is there.
fn insert_word(v: &mut Vec<u64>, x: u64)
    requires
        old(v)@.no_duplicates(),
    ensures
        final(v)@.no_duplicates(),
        final(v)@ == if old(v)@.contains(x) {
            old(v)@
        } else {
            old(v)@.push(x)
        },
{
    if !has_word(v, x) {
        v.push(x);
    }
}

fn has_word(v: &Vec<u64>, x: u64) -> (r: bool)
    ensures
        r == v@.contains(x),
{
    let mut i: usize = 0;
    while i < v.len()
        invariant
            i <= v.len(),
            forall|k: int| 0 <= k < i ==> v@[k] != x,
        decreases v.len() - i,
    {
        if v[i] == x {
            assert(v@[i as int] == x);
            return true;
        }
        i = i + 1;
    }
    false
}

/// Where `x` stands in `v`.
fn place_of(v: &Vec<u64>, x: u64) -> (r: Option<usize>)
    ensures
        match r {
            Some(i) => i < v.len() && v[i as int] == x,
            None => !v@.contains(x),
        },
{
    let mut i: usize = 0;
    while i < v.len()
        invariant
            i <= v.len(),
            forall|k: int| 0 <= k < i ==> v@[k] != x,
        decreases v.len() - i,
    {
        if v[i] == x {
            return Some(i);
        }
        i = i + 1;
    }
    None
}

impl RootSet {
    pub open spec fn inv(&self) -> bool {
        &&& self.persistent_roots@.no_duplicates()
        &&& self.root_slots@.no_duplicates()
        &&& forall|i: int|
            0 <= i < self.root_slots.len() ==> (#[trigger] self.root_slots[i]) + 8 <= usize::MAX
    }

    pub fn new() -> (r: RootSet)
        ensures
            r.inv(),
            r.globals@ == Seq::<u64>::empty(),
            r.stack_roots@ == Seq::<u64>::empty(),
            r.persistent_roots@ == Seq::<u64>::empty(),
            r.root_slots@ == Seq::<usize>::empty(),
    {
        RootSet {
            globals: Vec::new(),
            stack_roots: Vec::new(),
            persistent_roots: Vec::new(),
            root_slots: Vec::new(),
        }
    }

    pub fn register_global(&mut self, ptr: u64)
        requires
            old(self).inv(),
        ensures
            final(self).inv(),
            final(self).globals@ == old(self).globals@.push(ptr),
            final(self).stack_roots == old(self).stack_roots,
            final(self).persistent_roots == old(self).persistent_roots,
            final(self).root_slots == old(self).root_slots,
    {
        self.globals.push(ptr);
    }

    pub fn push_stack_root(&mut self, ptr: u64)
        requires
            old(self).inv(),
        ensures
            final(self).inv(),
            final(self).stack_roots@ == old(self).stack_roots@.push(ptr),
            final(self).globals == old(self).globals,
            final(self).persistent_roots == old(self).persistent_roots,
            final(self).root_slots == old(self).root_slots,
    {
        self.stack_roots.push(ptr);
    }

    pub fn pop_stack_root(&mut self)
        requires
            old(self).inv(),
        ensures
            final(self).inv(),
            final(self).stack_roots@ == if old(self).stack_roots@.len() == 0 {
                old(self).stack_roots@
            } else {
                old(self).stack_roots@.drop_last()
            },
            final(self).globals == old(self).globals,
            final(self).persistent_roots == old(self).persistent_roots,
            final(self).root_slots == old(self).root_slots,
    {
        let _gone: Option<u64> = self.stack_roots.pop();
    }

    pub fn register_persistent(&mut self, ptr: u64)
        requires
            old(self).inv(),
        ensures
            final(self).inv(),
            final(self).persistent_roots@ == if old(self).persistent_roots@.contains(ptr) {
                old(self).persistent_roots@
            } else {
                old(self).persistent_roots@.push(ptr)
            },
            final(self).globals == old(self).globals,
            final(self).stack_roots == old(self).stack_roots,
            final(self).root_slots == old(self).root_slots,
    {
        insert_word(&mut self.persistent_roots, ptr);
    }

    pub fn has_persistent(&self, ptr: u64) -> (r: bool)
        ensures
            r == self.persistent_roots@.contains(ptr),
    {
        has_word(&self.persistent_roots, ptr)
    }

    pub fn unregister_persistent(&mut self, ptr: u64)
        requires
            old(self).inv(),
        ensures
            final(self).inv(),
            forall|x: u64| #[trigger]
                final(self).persistent_roots@.contains(x) <==> old(self).persistent_roots@.contains(
                    x,
                ) && x != ptr,
            final(self).globals == old(self).globals,
            final(self).stack_roots == old(self).stack_roots,
            final(self).root_slots == old(self).root_slots,
    {
        if let Some(i) = place_of(&self.persistent_roots, ptr) {
            let _gone: u64 = self.persistent_roots.remove(i);
            proof {
                let was = old(self).persistent_roots@;
                let now = self.persistent_roots@;
                assert forall|x: u64| #[trigger] now.contains(x) <==> was.contains(x) && x
                    != ptr by {
                    if now.contains(x) {
                        let k = choose|k: int| 0 <= k < now.len() && now[k] == x;
                        let o = if k < i { k } else { k + 1 };
                        assert(was[o] == x);
                        assert(was[i as int] == ptr);
                    }
                    if was.contains(x) && x != ptr {
                        let k = choose|k: int| 0 <= k < was.len() && was[k] == x;
                        let o = if k < i { k } else { k - 1 };
                        assert(now[o] == x);
                    }
                }
                assert(now.no_duplicates()) by {
                    assert forall|a: int, b: int|
                        0 <= a < now.len() && 0 <= b < now.len() && a != b implies now[a]
                        != now[b] by {
                        assert(now[a] == was[if a < i { a } else { a + 1 }]);
                        assert(now[b] == was[if b < i { b } else { b + 1 }]);
                    }
                }
            }
        }
    }

    fn slot_place(&self, slot: usize) -> (r: Option<usize>)
        ensures
            match r {
                Some(i) => i < self.root_slots.len() && self.root_slots[i as int] == slot,
                None => !self.root_slots@.contains(slot),
            },
    {
        let mut i: usize = 0;
        while i < self.root_slots.len()
            invariant
                i <= self.root_slots.len(),
                forall|k: int| 0 <= k < i ==> self.root_slots@[k] != slot,
            decreases self.root_slots.len() - i,
        {
            if self.root_slots[i] == slot {
                return Some(i);
            }
            i = i + 1;
        }
        None
    }

    /// Root what a slot points at, and keep doing so as it changes.
    pub fn add_root_slot(&mut self, slot: usize)
        requires
            old(self).inv(),
            slot + 8 <= usize::MAX,
        ensures
            final(self).inv(),
            final(self).root_slots@ == if old(self).root_slots@.contains(slot) {
                old(self).root_slots@
            } else {
                old(self).root_slots@.push(slot)
            },
            final(self).globals == old(self).globals,
            final(self).stack_roots == old(self).stack_roots,
            final(self).persistent_roots == old(self).persistent_roots,
    {
        match self.slot_place(slot) {
            Some(i) => {
                assert(self.root_slots@[i as int] == slot);
            },
            None => {
                self.root_slots.push(slot);
                proof {
                    assert forall|i: int| 0 <= i < self.root_slots.len() implies (
                    #[trigger] self.root_slots[i]) + 8 <= usize::MAX by {
                        if i < old(self).root_slots.len() {
                            assert(self.root_slots[i] == old(self).root_slots[i]);
                        }
                    }
                }
            },
        }
    }

    pub fn has_root_slot(&self, slot: usize) -> (r: bool)
        ensures
            r == self.root_slots@.contains(slot),
    {
        match self.slot_place(slot) {
            Some(i) => {
                assert(self.root_slots@[i as int] == slot);
                true
            },
            None => false,
        }
    }

    pub fn remove_root_slot(&mut self, slot: usize)
        requires
            old(self).inv(),
        ensures
            final(self).inv(),
            forall|x: usize| #[trigger]
                final(self).root_slots@.contains(x) <==> old(self).root_slots@.contains(x) && x
                    != slot,
            final(self).globals == old(self).globals,
            final(self).stack_roots == old(self).stack_roots,
            final(self).persistent_roots == old(self).persistent_roots,
    {
        if let Some(i) = self.slot_place(slot) {
            let _gone: usize = self.root_slots.remove(i);
            proof {
                let was = old(self).root_slots@;
                let now = self.root_slots@;
                assert forall|x: usize| #[trigger] now.contains(x) <==> was.contains(x) && x
                    != slot by {
                    if now.contains(x) {
                        let k = choose|k: int| 0 <= k < now.len() && now[k] == x;
                        let o = if k < i { k } else { k + 1 };
                        assert(was[o] == x);
                        assert(was[i as int] == slot);
                    }
                    if was.contains(x) && x != slot {
                        let k = choose|k: int| 0 <= k < was.len() && was[k] == x;
                        let o = if k < i { k } else { k - 1 };
                        assert(now[o] == x);
                    }
                }
                assert forall|a: int| 0 <= a < self.root_slots.len() implies (
                #[trigger] self.root_slots[a]) + 8 <= usize::MAX by {
                    assert(now[a] == old(self).root_slots[if a < i { a } else { a + 1 }]);
                }
                assert(now.no_duplicates()) by {
                    assert forall|a: int, b: int|
                        0 <= a < now.len() && 0 <= b < now.len() && a != b implies now[a]
                        != now[b] by {
                        assert(now[a] == was[if a < i { a } else { a + 1 }]);
                        assert(now[b] == was[if b < i { b } else { b + 1 }]);
                    }
                }
            }
        }
    }
}

/// Each slot as a range of one word.
pub open spec fn slot_plan(slots: Seq<usize>) -> Seq<(usize, usize)> {
    slots.map_values(|s: usize| (s, (s + 8) as usize))
}

/// Each range from its first whole word on.
pub open spec fn range_plan(ranges: Seq<(usize, usize)>) -> Seq<(usize, usize)> {
    ranges.map_values(|r: (usize, usize)| (word_up(r.0 as int) as usize, (r.0 + r.1) as usize))
}

/// The end of a range, held to the address space.
pub open spec fn range_end(start: usize, size: usize) -> usize {
    if start + size <= usize::MAX {
        (start + size) as usize
    } else {
        usize::MAX
    }
}

/// A mutator's published ranges, empty ones left out.
pub open spec fn published_plan(ranges: Seq<(usize, usize)>) -> Seq<(usize, usize)>
    decreases ranges.len(),
{
    if ranges.len() == 0 {
        Seq::empty()
    } else {
        let init = published_plan(ranges.drop_last());
        let (start, size) = ranges.last();
        if size != 0 && range_end(start, size) > start {
            init.push((start, range_end(start, size)))
        } else {
            init
        }
    }
}

/// The published ranges of every mutator.
pub open spec fn all_published(mutators: Seq<MutatorSnapshot>) -> Seq<(usize, usize)>
    decreases mutators.len(),
{
    if mutators.len() == 0 {
        Seq::empty()
    } else {
        all_published(mutators.drop_last()) + published_plan(mutators.last().scan_ranges@)
    }
}

/// Whether stack `f` is the one thread `thread` runs on at `sp`.
pub open spec fn runs_on(f: FiberStackInfo, thread: u64, sp: int) -> bool {
    f.thread == thread && f.size > 0 && f.base <= sp < f.base + f.size
}

/// The stack a thread runs on, as its id and its top.
pub open spec fn running_on(
    fibers: Seq<FiberStackInfo>,
    thread: u64,
    sp: int,
) -> Option<(u32, int)>
    decreases fibers.len(),
{
    if fibers.len() == 0 {
        None
    } else if runs_on(fibers[0], thread, sp) {
        Some((fibers[0].id, fibers[0].base + fibers[0].size))
    } else {
        running_on(fibers.skip(1), thread, sp)
    }
}

/// How far below a stack's top to scan when nothing says where it ends. A module
/// cannot ask for a stack's size, and where the stack was left may be above live
/// frames, so the window is taken from the top.
pub const WASM_STACK_WINDOW: usize = 1048576;

/// The window a suspended stack of `size` bytes is scanned by.
pub open spec fn window_of(size: usize, platform: Platform) -> int {
    if size == 0 && platform is Wasm {
        WASM_STACK_WINDOW as int
    } else {
        0
    }
}

/// What is scanned of stack `f` while its thread runs on `running`.
pub open spec fn suspended_plan(
    f: FiberStackInfo,
    m: MutatorSnapshot,
    running: Option<(u32, int)>,
    platform: Platform,
) -> Seq<(usize, usize)> {
    let is_running = running matches Some((id, _)) && id == f.id;
    let top = if f.size > 0 {
        f.base + f.size
    } else {
        m.stack_top as int
    };
    if f.thread != m.thread || is_running || f.saved_sp == 0 || (f.size == 0 && running is None) {
        Seq::empty()
    } else {
        let start = word_up(scan_floor(f.saved_sp as int, top, window_of(f.size, platform)));
        if start < top {
            seq![(start as usize, top as usize)]
        } else {
            Seq::empty()
        }
    }
}

/// What is scanned of a mutator's suspended stacks.
pub open spec fn suspended_plans(
    fibers: Seq<FiberStackInfo>,
    m: MutatorSnapshot,
    running: Option<(u32, int)>,
    platform: Platform,
) -> Seq<(usize, usize)>
    decreases fibers.len(),
{
    if fibers.len() == 0 {
        Seq::empty()
    } else {
        suspended_plans(fibers.drop_last(), m, running, platform) + suspended_plan(
            fibers.last(),
            m,
            running,
            platform,
        )
    }
}

/// What is scanned of a mutator's stacks: the one it runs on from its stack
/// pointer up, the others from where they were left.
pub open spec fn stack_plan(
    fibers: Seq<FiberStackInfo>,
    m: MutatorSnapshot,
    collector: u64,
    probe: usize,
    platform: Platform,
) -> Seq<(usize, usize)> {
    let raw = if m.thread == collector {
        probe
    } else {
        m.stack_sp
    };
    if raw == 0 {
        Seq::empty()
    } else {
        let sp = word_up(raw as int);
        let running = running_on(fibers, m.thread, sp);
        let live = match running {
            Some((_, top)) => seq![(sp as usize, top as usize)],
            None => if m.stack_top > 0 && sp < m.stack_top {
                seq![(sp as usize, m.stack_top)]
            } else {
                Seq::empty()
            },
        };
        live + suspended_plans(fibers, m, running, platform)
    }
}

/// What is scanned of every mutator's stacks.
pub open spec fn stack_plans(
    fibers: Seq<FiberStackInfo>,
    mutators: Seq<MutatorSnapshot>,
    collector: u64,
    probe: usize,
    platform: Platform,
) -> Seq<(usize, usize)>
    decreases mutators.len(),
{
    if mutators.len() == 0 {
        Seq::empty()
    } else {
        stack_plans(fibers, mutators.drop_last(), collector, probe, platform) + stack_plan(
            fibers,
            mutators.last(),
            collector,
            probe,
            platform,
        )
    }
}

/// Whether a stack's bounds fit the address space.
pub open spec fn fiber_ok(f: FiberStackInfo) -> bool {
    &&& f.base + f.size <= usize::MAX
    &&& f.saved_sp + 7 <= usize::MAX
}

fn plan_published(ranges: &Vec<(usize, usize)>, out: &mut Vec<(usize, usize)>)
    ensures
        final(out)@ == old(out)@ + published_plan(ranges@),
{
    let mut i: usize = 0;
    assert(out@ + published_plan(ranges@.take(0)) =~= out@);
    while i < ranges.len()
        invariant
            i <= ranges.len(),
            out@ == old(out)@ + published_plan(ranges@.take(i as int)),
        decreases ranges.len() - i,
    {
        assert(ranges@.take(i + 1).drop_last() =~= ranges@.take(i as int));
        let (start, size) = ranges[i];
        let end: usize = start.saturating_add(size);
        if size != 0 && end > start {
            out.push((start, end));
            assert(out@ =~= old(out)@ + published_plan(ranges@.take(i + 1)));
        }
        i = i + 1;
    }
    assert(ranges@.take(i as int) =~= ranges@);
}

/// The stack `thread` runs on.
fn find_running(fibers: &Vec<FiberStackInfo>, thread: u64, sp: usize) -> (r: Option<(u32, usize)>)
    requires
        forall|i: int| 0 <= i < fibers.len() ==> fiber_ok(#[trigger] fibers[i]),
    ensures
        match r {
            Some((id, top)) => running_on(fibers@, thread, sp as int) == Some((id, top as int)),
            None => running_on(fibers@, thread, sp as int) is None,
        },
{
    let mut i: usize = 0;
    assert(fibers@.skip(0) =~= fibers@);
    while i < fibers.len()
        invariant
            i <= fibers.len(),
            forall|k: int| 0 <= k < fibers.len() ==> fiber_ok(#[trigger] fibers[k]),
            running_on(fibers@, thread, sp as int) == running_on(
                fibers@.skip(i as int),
                thread,
                sp as int,
            ),
        decreases fibers.len() - i,
    {
        let f: FiberStackInfo = fibers[i];
        assert(fiber_ok(fibers[i as int]));
        assert(fibers@.skip(i as int)[0] == f);
        if f.thread == thread && f.size > 0 && sp >= f.base && sp < f.base + f.size {
            return Some((f.id, f.base + f.size));
        }
        assert(fibers@.skip(i as int).skip(1) =~= fibers@.skip(i + 1));
        i = i + 1;
    }
    None
}

/// Add what is scanned of one mutator's stacks.
fn plan_stacks(
    fibers: &Vec<FiberStackInfo>,
    m: &MutatorSnapshot,
    collector: u64,
    probe: usize,
    platform: Platform,
    out: &mut Vec<(usize, usize)>,
)
    requires
        forall|i: int| 0 <= i < fibers.len() ==> fiber_ok(#[trigger] fibers[i]),
        probe + 7 <= usize::MAX,
        m.stack_sp + 7 <= usize::MAX,
    ensures
        final(out)@ == old(out)@ + stack_plan(fibers@, *m, collector, probe, platform),
{
    let raw: usize = if m.thread == collector {
        probe
    } else {
        m.stack_sp
    };
    if raw == 0 {
        assert(out@ =~= old(out)@ + Seq::<(usize, usize)>::empty());
        return ;
    }
    let sp: usize = word_align_up(raw);
    assert(sp == word_up(raw as int));
    let running = find_running(fibers, m.thread, sp);
    let ghost run = running_on(fibers@, m.thread, sp as int);
    let ghost live = match run {
        Some((_, top)) => seq![(sp, top as usize)],
        None => if m.stack_top > 0 && sp < m.stack_top {
            seq![(sp, m.stack_top)]
        } else {
            Seq::empty()
        },
    };
    match running {
        Some((_, top)) => {
            out.push((sp, top));
        },
        None => {
            if m.stack_top > 0 && sp < m.stack_top {
                out.push((sp, m.stack_top));
            }
        },
    }
    assert(out@ =~= old(out)@ + live);
    let mut i: usize = 0;
    assert(out@ =~= old(out)@ + (live + suspended_plans(fibers@.take(0), *m, run, platform)));
    while i < fibers.len()
        invariant
            i <= fibers.len(),
            forall|k: int| 0 <= k < fibers.len() ==> fiber_ok(#[trigger] fibers[k]),
            match running {
                Some((id, top)) => run == Some((id, top as int)),
                None => run is None,
            },
            out@ == old(out)@ + (live + suspended_plans(fibers@.take(i as int), *m, run, platform)),
        decreases fibers.len() - i,
    {
        assert(fibers@.take(i + 1).drop_last() =~= fibers@.take(i as int));
        let f: FiberStackInfo = fibers[i];
        assert(fiber_ok(fibers[i as int]));
        let is_running: bool = match running {
            Some((id, _)) => id == f.id,
            None => false,
        };
        let ghost held = out@;
        if f.thread == m.thread && !is_running && f.saved_sp != 0 && (f.size > 0
            || running.is_some()) {
            let top: usize = if f.size > 0 {
                f.base + f.size
            } else {
                m.stack_top
            };
            let window: usize = if f.size == 0 && platform.is_wasm() {
                WASM_STACK_WINDOW
            } else {
                0
            };
            let start: usize = stack_scan_start(f.saved_sp, top, window);
            assert(start == word_up(scan_floor(f.saved_sp as int, top as int, window as int)));
            if start < top {
                out.push((start, top));
            }
        }
        proof {
            assert(out@ =~= held + suspended_plan(f, *m, run, platform));
            assert(out@ =~= old(out)@ + (live + suspended_plans(fibers@.take(i + 1), *m, run, platform)));
        }
        i = i + 1;
    }
    assert(fibers@.take(i as int) =~= fibers@);
}

/// What the collector scans outside the heap, in order: the root slots, the
/// globals, the registered ranges, the mutators' published ranges and their
/// stacks.
pub open spec fn scan_plan_of(
    slots: Seq<usize>,
    globals: Option<(usize, usize)>,
    ranges: Seq<(usize, usize)>,
    fibers: Seq<FiberStackInfo>,
    mutators: Seq<MutatorSnapshot>,
    collector: u64,
    probe: usize,
    platform: Platform,
) -> Seq<(usize, usize)> {
    slot_plan(slots) + (match globals {
        Some((p, n)) => seq![(p, (p + n * 8) as usize)],
        None => Seq::empty(),
    }) + range_plan(ranges) + all_published(mutators) + stack_plans(
        fibers,
        mutators,
        collector,
        probe,
        platform,
    )
}

/// What the collector scans outside the heap.
pub fn scan_plan(
    slots: &Vec<usize>,
    globals: Option<(usize, usize)>,
    ranges: &Vec<(usize, usize)>,
    fibers: &Vec<FiberStackInfo>,
    mutators: &Vec<MutatorSnapshot>,
    collector: u64,
    probe: usize,
    platform: Platform,
) -> (r: Vec<(usize, usize)>)
    requires
        forall|i: int| 0 <= i < slots.len() ==> (#[trigger] slots[i]) + 8 <= usize::MAX,
        globals matches Some((p, n)) ==> p + n * 8 <= usize::MAX,
        forall|i: int|
            0 <= i < ranges.len() ==> (#[trigger] ranges[i]).0 + ranges[i].1 <= usize::MAX
                && ranges[i].0 + 7 <= usize::MAX,
        forall|i: int| 0 <= i < fibers.len() ==> fiber_ok(#[trigger] fibers[i]),
        forall|i: int|
            0 <= i < mutators.len() ==> (#[trigger] mutators[i]).stack_sp + 7 <= usize::MAX,
        probe + 7 <= usize::MAX,
    ensures
        r@ == scan_plan_of(slots@, globals, ranges@, fibers@, mutators@, collector, probe, platform),
{
    let mut out: Vec<(usize, usize)> = Vec::new();
    let mut i: usize = 0;
    while i < slots.len()
        invariant
            i <= slots.len(),
            forall|k: int| 0 <= k < slots.len() ==> (#[trigger] slots[k]) + 8 <= usize::MAX,
            out@ == slot_plan(slots@.take(i as int)),
        decreases slots.len() - i,
    {
        let s: usize = slots[i];
        out.push((s, s + 8));
        i = i + 1;
        assert(out@ =~= slot_plan(slots@.take(i as int)));
    }
    assert(slots@.take(i as int) =~= slots@);
    let ghost a = slot_plan(slots@);
    let ghost b = match globals {
        Some((p, n)) => seq![(p, (p + n * 8) as usize)],
        None => Seq::empty(),
    };
    if let Some((p, n)) = globals {
        out.push((p, p + n * 8));
    }
    assert(out@ =~= a + b);
    let mut i: usize = 0;
    assert(out@ =~= a + b + range_plan(ranges@.take(0)));
    while i < ranges.len()
        invariant
            i <= ranges.len(),
            forall|k: int|
                0 <= k < ranges.len() ==> (#[trigger] ranges[k]).0 + ranges[k].1 <= usize::MAX
                    && ranges[k].0 + 7 <= usize::MAX,
            out@ == a + b + range_plan(ranges@.take(i as int)),
        decreases ranges.len() - i,
    {
        let (start, len) = ranges[i];
        let from: usize = word_align_up(start);
        assert(from == word_up(start as int));
        out.push((from, start + len));
        i = i + 1;
        assert(out@ =~= a + b + range_plan(ranges@.take(i as int)));
    }
    assert(ranges@.take(i as int) =~= ranges@);
    let ghost c = a + b + range_plan(ranges@);
    let mut i: usize = 0;
    assert(out@ =~= c + all_published(mutators@.take(0)));
    while i < mutators.len()
        invariant
            i <= mutators.len(),
            out@ == c + all_published(mutators@.take(i as int)),
        decreases mutators.len() - i,
    {
        assert(mutators@.take(i + 1).drop_last() =~= mutators@.take(i as int));
        plan_published(&mutators[i].scan_ranges, &mut out);
        i = i + 1;
        assert(out@ =~= c + all_published(mutators@.take(i as int)));
    }
    assert(mutators@.take(i as int) =~= mutators@);
    let ghost d = c + all_published(mutators@);
    let mut i: usize = 0;
    assert(out@ =~= d + stack_plans(fibers@, mutators@.take(0), collector, probe, platform));
    while i < mutators.len()
        invariant
            i <= mutators.len(),
            forall|k: int| 0 <= k < fibers.len() ==> fiber_ok(#[trigger] fibers[k]),
            forall|k: int|
                0 <= k < mutators.len() ==> (#[trigger] mutators[k]).stack_sp + 7 <= usize::MAX,
            probe + 7 <= usize::MAX,
            out@ == d + stack_plans(fibers@, mutators@.take(i as int), collector, probe, platform),
        decreases mutators.len() - i,
    {
        assert(mutators@.take(i + 1).drop_last() =~= mutators@.take(i as int));
        plan_stacks(fibers, &mutators[i], collector, probe, platform, &mut out);
        i = i + 1;
        assert(out@ =~= d + stack_plans(fibers@, mutators@.take(i as int), collector, probe, platform));
    }
    assert(mutators@.take(i as int) =~= mutators@);
    out
}

/// A word as the marker reads it outside the heap: itself and, when it is a
/// boxed pointer, what it boxes.
pub open spec fn readings(w: u64) -> Seq<u64> {
    if w & 0xFFF8_0000_0000_0000 == 0x7FF8_0000_0000_0000 {
        seq![w, w & 0x0000_FFFF_FFFF_FFFF]
    } else {
        seq![w]
    }
}

/// Every word's readings, in order.
pub open spec fn candidates(words: Seq<u64>) -> Seq<u64>
    decreases words.len(),
{
    if words.len() == 0 {
        Seq::empty()
    } else {
        candidates(words.drop_last()) + readings(words.last())
    }
}

/// Add every word's readings to `out`.
pub fn push_candidates(words: &[u64], out: &mut Vec<u64>)
    ensures
        final(out)@ == old(out)@ + candidates(words@),
{
    let mut i: usize = 0;
    assert(out@ + candidates(words@.take(0)) =~= out@);
    while i < words.len()
        invariant
            i <= words.len(),
            out@ == old(out)@ + candidates(words@.take(i as int)),
        decreases words.len() - i,
    {
        assert(words@.take(i + 1).drop_last() =~= words@.take(i as int));
        let w: u64 = words[i];
        out.push(w);
        if w & 0xFFF8_0000_0000_0000 == 0x7FF8_0000_0000_0000 {
            out.push(w & 0x0000_FFFF_FFFF_FFFF);
        }
        i = i + 1;
        assert(out@ =~= old(out)@ + candidates(words@.take(i as int)));
    }
    assert(words@.take(i as int) =~= words@);
}

} // verus!
