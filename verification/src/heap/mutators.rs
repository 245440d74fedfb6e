//! The registered mutators and the stop-the-world rendezvous, as the state
//! the threads agree on. Waiting happens outside; every step is decided here.

use vstd::prelude::*;
use vstd::string::*;

use crate::text::{decimal, decimal_text, hex, hex_text};

verus! {

/// How long the collector waits for every mutator before it gives up, in
/// milliseconds.
pub const STOP_THE_WORLD_DEADLINE_MS: u64 = 2000;

/// The places a thread can wait, for the report on a slow stop.
pub const SITE_RUNNING: u64 = 0;

pub const SITE_SAFEPOINT_WORLD_LOCK: u64 = 1;

pub const SITE_ENTER_BLOCKING: u64 = 2;

pub const SITE_LEAVE_BLOCKING: u64 = 3;

pub const SITE_LOCK_INNER: u64 = 4;

pub const SITE_LOCK_CONDVAR: u64 = 5;

pub const SITE_TLAB_REFILL: u64 = 6;

pub const SITE_SCHEDULER_IDLE: u64 = 7;

/// The name of a waiting place; anything past the last is the last.
pub open spec fn site_text(site: u64) -> Seq<char> {
    if site == 0 {
        "running"@
    } else if site == 1 {
        "safepoint-world-lock"@
    } else if site == 2 {
        "enter-blocking"@
    } else if site == 3 {
        "leave-blocking"@
    } else if site == 4 {
        "gclock-inner"@
    } else if site == 5 {
        "gclock-condvar"@
    } else if site == 6 {
        "tlab-refill"@
    } else {
        "scheduler-idle"@
    }
}

pub fn site_name(site: u64) -> (s: &'static str)
    ensures
        s@ == site_text(site),
{
    if site == 0 {
        "running"
    } else if site == 1 {
        "safepoint-world-lock"
    } else if site == 2 {
        "enter-blocking"
    } else if site == 3 {
        "leave-blocking"
    } else if site == 4 {
        "gclock-inner"
    } else if site == 5 {
        "gclock-condvar"
    } else if site == 6 {
        "tlab-refill"
    } else {
        "scheduler-idle"
    }
}

/// What the collector keeps of one registered thread.
pub struct MutatorRecord {
    pub thread: u64,
    /// How the thread became a mutator.
    pub role: String,
    pub stack_top: usize,
    pub stopped_sp: usize,
    pub saved_regs: [u64; 10],
    pub blocking_depth: u32,
    pub parked: bool,
    pub scan_ranges: Vec<(usize, usize)>,
    pub staged_scan_ranges: Vec<(usize, usize)>,
    /// Where the mutator keeps its own range table, and its length, for the
    /// collector to read when it stops the world.
    pub scan_live: Option<(usize, usize)>,
    /// Safepoints entered with a stop pending.
    pub polls: u64,
    pub polls_at_stop: u64,
    /// Where the thread last entered a place it could wait.
    pub site: u64,
}

/// What the collector scans of one stopped thread.
pub struct MutatorSnapshot {
    pub thread: u64,
    pub stack_top: usize,
    pub stack_sp: usize,
    pub saved_regs: [u64; 10],
    pub scan_ranges: Vec<(usize, usize)>,
}

/// The rendezvous: who asked for a stop, and every registered mutator.
pub struct MutatorWorld {
    pub stop_requested: bool,
    pub collector: u64,
    pub mutators: Vec<MutatorRecord>,
}

/// How a registration ended.
#[derive(Clone, Copy, Debug, PartialEq, Eq, Structural)]
pub enum Register {
    /// There is no stack to scan; nothing was registered.
    Ignored,
    /// A stop is under way: ask again once it is over.
    Wait,
    Done,
}

/// What a mutator does at a safepoint or at the edge of a blocking call.
#[derive(Clone, Copy, Debug, PartialEq, Eq, Structural)]
pub enum Park {
    /// Nothing to do: go on.
    Pass,
    /// Wait until the stop is over, then [`MutatorWorld::resume`].
    Wait,
}

/// How a change of blocking state ended.
#[derive(Clone, Copy, Debug, PartialEq, Eq, Structural)]
pub enum Blocking {
    /// The thread is not registered, or was not blocking.
    Refused,
    /// The state changed; go on.
    Changed,
    /// The thread left its last blocking section during a stop: it is parked,
    /// and waits until the stop is over.
    Wait,
}

/// Where a stop stands.
#[derive(Clone, Copy, Debug, PartialEq, Eq, Structural)]
pub enum Stop {
    Stopped,
    Wait,
    /// A mutator did not reach a safepoint in time: do not collect.
    Abandon,
}

impl MutatorRecord {
    /// Stopped where the collector can scan it.
    pub open spec fn at_rest(&self) -> bool {
        self.parked || self.blocking_depth != 0
    }
}

impl MutatorWorld {
    /// A thread is registered once.
    pub open spec fn inv(&self) -> bool {
        forall|i: int, j: int|
            0 <= i < j < self.mutators.len() ==> (#[trigger] self.mutators[i]).thread != (
            #[trigger] self.mutators[j]).thread
    }

    /// Whether `thread` is registered.
    pub open spec fn registered(&self, thread: u64) -> bool {
        exists|i: int| 0 <= i < self.mutators.len() && (#[trigger] self.mutators[i]).thread == thread
    }

    /// Every mutator but the collector is at rest.
    pub open spec fn at_rest(&self, collector: u64) -> bool {
        forall|i: int|
            0 <= i < self.mutators.len() && (#[trigger] self.mutators[i]).thread != collector
                ==> self.mutators[i].at_rest()
    }

    /// Only the record of `thread` may differ.
    pub open spec fn only(&self, before: &MutatorWorld, thread: u64) -> bool {
        &&& self.mutators.len() == before.mutators.len()
        &&& self.stop_requested == before.stop_requested
        &&& self.collector == before.collector
        &&& forall|i: int|
            0 <= i < self.mutators.len() ==> (#[trigger] self.mutators[i]).thread
                == before.mutators[i].thread && (before.mutators[i].thread != thread
                ==> self.mutators[i] == before.mutators[i])
    }

    /// A stop that has come to rest holds: nobody but the collector ends it, and
    /// no other mutator leaves its rest.
    pub open spec fn stop_holds(&self, before: &MutatorWorld) -> bool {
        before.stop_requested && before.at_rest(before.collector) ==> self.stop_requested
            && self.collector == before.collector && self.at_rest(before.collector)
    }

    pub fn new() -> (w: MutatorWorld)
        ensures
            w.inv(),
            !w.stop_requested,
            w.collector == 0,
            w.mutators@.len() == 0,
    {
        MutatorWorld { stop_requested: false, collector: 0, mutators: Vec::new() }
    }

    /// The index of `thread`'s record.
    fn index(&self, thread: u64) -> (r: Option<usize>)
        ensures
            match r {
                Some(i) => i < self.mutators.len() && self.mutators[i as int].thread == thread,
                None => !self.registered(thread),
            },
    {
        let mut i: usize = 0;
        while i < self.mutators.len()
            invariant
                i <= self.mutators.len(),
                forall|k: int| 0 <= k < i ==> (#[trigger] self.mutators[k]).thread != thread,
            decreases self.mutators.len() - i,
        {
            if self.mutators[i].thread == thread {
                return Some(i);
            }
            i = i + 1;
        }
        None
    }

    /// `thread` asked to be registered, with answer `r`.
    pub open spec fn joined(
        &self,
        before: &MutatorWorld,
        thread: u64,
        stack_top: usize,
        role: Seq<char>,
        r: Register,
    ) -> bool {
        &&& r == if stack_top == 0 {
            Register::Ignored
        } else if before.stop_requested && before.collector != thread {
            Register::Wait
        } else {
            Register::Done
        }
        &&& r != Register::Done ==> *self == *before
        &&& r == Register::Done ==> self.registered(thread) && self.stop_requested
            == before.stop_requested && self.collector == before.collector
        &&& r == Register::Done && before.registered(thread) ==> self.only(before, thread)
            && forall|i: int|
            0 <= i < self.mutators.len() && (#[trigger] self.mutators[i]).thread == thread
                ==> self.mutators[i] == (MutatorRecord { stack_top, ..before.mutators[i] })
        &&& r == Register::Done && !before.registered(thread) ==> {
            &&& self.mutators@.len() == before.mutators@.len() + 1
            &&& self.mutators@.drop_last() == before.mutators@
            &&& self.mutators@.last().is_new(thread, stack_top, role)
        }
    }

    /// `thread` is forgotten.
    pub open spec fn parted(&self, before: &MutatorWorld, thread: u64) -> bool {
        &&& !self.registered(thread)
        &&& self.stop_requested == before.stop_requested
        &&& self.collector == before.collector
        &&& before.registered(thread) ==> exists|i: int|
            0 <= i < before.mutators.len() && (#[trigger] before.mutators[i]).thread == thread
                && self.mutators@ == before.mutators@.remove(i)
        &&& !before.registered(thread) ==> self.mutators@ == before.mutators@
    }

    /// Register `thread` with its stack's top. A thread that is registered
    /// already only moves its top; none joins while another collects.
    pub fn register(&mut self, thread: u64, stack_top: usize, role: &str) -> (r: Register)
        requires
            old(self).inv(),
        ensures
            final(self).inv(),
            final(self).joined(old(self), thread, stack_top, role@, r),
            final(self).stop_holds(old(self)),
    {
        if stack_top == 0 {
            return Register::Ignored;
        }
        if self.stop_requested && self.collector != thread {
            return Register::Wait;
        }
        match self.index(thread) {
            Some(i) => {
                self.mutators[i].stack_top = stack_top;
                proof {
                    assert(self.mutators[i as int].thread == thread);
                    assert forall|k: int|
                        0 <= k < self.mutators.len() && (
                        #[trigger] self.mutators[k]).thread == thread implies self.mutators[k] == (
                    MutatorRecord { stack_top, ..old(self).mutators[k] }) by {
                        if k != i {
                            assert(old(self).mutators[k].thread == old(
                                self,
                            ).mutators[i as int].thread);
                        }
                    }
                }
            },
            None => {
                self.mutators.push(
                    MutatorRecord {
                        thread,
                        role: role.to_owned(),
                        stack_top,
                        stopped_sp: 0,
                        saved_regs: [0, 0, 0, 0, 0, 0, 0, 0, 0, 0],
                        blocking_depth: 0,
                        parked: false,
                        scan_ranges: Vec::new(),
                        staged_scan_ranges: Vec::new(),
                        scan_live: None,
                        polls: 0,
                        polls_at_stop: 0,
                        site: 0,
                    },
                );
                proof {
                    assert(self.mutators@.drop_last() =~= old(self).mutators@);
                    assert(self.mutators[self.mutators.len() - 1].thread == thread);
                    assert forall|i: int, j: int| 0 <= i < j < self.mutators.len() implies (
                    #[trigger] self.mutators[i]).thread != (
                    #[trigger] self.mutators[j]).thread by {
                        assert(self.mutators[i] == old(self).mutators[i]);
                        if j < old(self).mutators.len() {
                            assert(self.mutators[j] == old(self).mutators[j]);
                        }
                    }
                }
            },
        }
        Register::Done
    }

    /// Forget `thread`.
    pub fn unregister(&mut self, thread: u64)
        requires
            old(self).inv(),
        ensures
            final(self).inv(),
            final(self).parted(old(self), thread),
            final(self).stop_holds(old(self)),
    {
        if let Some(i) = self.index(thread) {
            let _gone = self.mutators.remove(i);
            proof {
                assert forall|k: int| 0 <= k < self.mutators.len() implies #[trigger]
                self.mutators[k] == old(self).mutators[if k < i { k } else { k + 1 }] by {}
                assert forall|k: int| 0 <= k < self.mutators.len() implies (
                #[trigger] self.mutators[k]).thread != thread by {
                    let o = if k < i { k } else { k + 1 };
                    assert(old(self).mutators[o].thread != old(self).mutators[i as int].thread);
                }
                assert(old(self).mutators[i as int].thread == thread);
            }
        }
    }

    /// `thread` enters a safepoint. With a stop pending it is counted there, and
    /// parks, its stack published from `sp` up, unless it is the collector or not
    /// registered.
    pub fn safepoint(&mut self, thread: u64, sp: usize, saved_regs: [u64; 10]) -> (r: Park)
        requires
            old(self).inv(),
        ensures
            final(self).inv(),
            r == if old(self).stop_requested && old(self).collector != thread && old(
                self,
            ).registered(thread) {
                Park::Wait
            } else {
                Park::Pass
            },
            !(old(self).stop_requested && old(self).registered(thread)) ==> *final(self) == *old(
                self,
            ),
            old(self).stop_requested ==> final(self).only(old(self), thread) && forall|i: int|
                0 <= i < final(self).mutators.len() && (
                #[trigger] final(self).mutators[i]).thread == thread ==> final(self).mutators[i]
                    == old(self).mutators[i].polled(r, sp, saved_regs),
            final(self).stop_holds(old(self)),
    {
        if !self.stop_requested {
            return Park::Pass;
        }
        match self.index(thread) {
            Some(i) => {
                let polls: u64 = self.mutators[i].polls;
                self.mutators[i].polls = polls.wrapping_add(1);
                self.mutators[i].site = SITE_SAFEPOINT_WORLD_LOCK;
                if self.collector == thread {
                    proof {
                        self.lemma_one_changed(old(self), i as int);
                    }
                    return Park::Pass;
                }
                self.mutators[i].stopped_sp = sp;
                self.mutators[i].saved_regs = saved_regs;
                self.mutators[i].parked = true;
                proof {
                    self.lemma_one_changed(old(self), i as int);
                }
                Park::Wait
            },
            None => Park::Pass,
        }
    }

    /// One record changed and kept its thread.
    proof fn lemma_one_changed(&self, before: &MutatorWorld, i: int)
        requires
            before.inv(),
            0 <= i < before.mutators.len(),
            self.stop_requested == before.stop_requested,
            self.collector == before.collector,
            self.mutators@ =~= before.mutators@.update(i, self.mutators[i]),
            self.mutators[i].thread == before.mutators[i].thread,
        ensures
            self.inv(),
            self.only(before, before.mutators[i].thread),
            before.registered(before.mutators[i].thread),
            forall|k: int|
                0 <= k < self.mutators.len() && (#[trigger] self.mutators[k]).thread
                    == before.mutators[i].thread ==> k == i,
    {
        assert forall|k: int| 0 <= k < self.mutators.len() implies (
        #[trigger] self.mutators[k]).thread == before.mutators[k].thread by {
            assert(self.mutators@[k] == before.mutators@.update(i, self.mutators[i])[k]);
        }
        assert forall|k: int|
            0 <= k < self.mutators.len() && (#[trigger] self.mutators[k]).thread
                == before.mutators[i].thread implies k == i by {
            assert(before.mutators[k].thread == before.mutators[i].thread);
        }
        assert forall|a: int, b: int| 0 <= a < b < self.mutators.len() implies (
        #[trigger] self.mutators[a]).thread != (#[trigger] self.mutators[b]).thread by {
            assert(before.mutators[a].thread != before.mutators[b].thread);
        }
    }

    /// `thread` asks whether the stop is over; it unparks when it is.
    pub fn resume(&mut self, thread: u64) -> (go: bool)
        requires
            old(self).inv(),
        ensures
            final(self).inv(),
            go == !old(self).stop_requested,
            !go ==> *final(self) == *old(self),
            go ==> final(self).only(old(self), thread) && forall|i: int|
                0 <= i < final(self).mutators.len() && (
                #[trigger] final(self).mutators[i]).thread == thread ==> final(self).mutators[i]
                    == (MutatorRecord {
                    stopped_sp: 0,
                    parked: false,
                    site: SITE_RUNNING,
                    ..old(self).mutators[i]
                }),
            final(self).stop_holds(old(self)),
    {
        if self.stop_requested {
            return false;
        }
        if let Some(i) = self.index(thread) {
            self.mutators[i].parked = false;
            self.mutators[i].stopped_sp = 0;
            self.mutators[i].site = SITE_RUNNING;
            proof {
                self.lemma_one_changed(old(self), i as int);
            }
        }
        true
    }

    /// Publish or retire the saved context of a thread that blocks in a native
    /// call, nested calls counted.
    pub fn set_blocking(
        &mut self,
        thread: u64,
        blocking: bool,
        sp: usize,
        saved_regs: [u64; 10],
    ) -> (r: Blocking)
        requires
            old(self).inv(),
        ensures
            final(self).inv(),
            !old(self).registered(thread) ==> r == Blocking::Refused && *final(self) == *old(self),
            final(self).only(old(self), thread),
            forall|i: int|
                0 <= i < old(self).mutators.len() && (
                #[trigger] old(self).mutators[i]).thread == thread ==> {
                    let was = old(self).mutators[i];
                    let now = final(self).mutators[i];
                    if blocking {
                        &&& r == Blocking::Changed
                        &&& now == (MutatorRecord {
                            blocking_depth: if was.blocking_depth < u32::MAX {
                                (was.blocking_depth + 1) as u32
                            } else {
                                u32::MAX
                            },
                            stopped_sp: sp,
                            saved_regs,
                            site: SITE_ENTER_BLOCKING,
                            ..was
                        })
                    } else if was.blocking_depth == 0 {
                        &&& r == Blocking::Refused
                        &&& now == (MutatorRecord { site: SITE_LEAVE_BLOCKING, ..was })
                    } else if was.blocking_depth > 1 {
                        &&& r == Blocking::Changed
                        &&& now == (MutatorRecord {
                            blocking_depth: (was.blocking_depth - 1) as u32,
                            site: SITE_LEAVE_BLOCKING,
                            ..was
                        })
                    } else if old(self).stop_requested && old(self).collector != thread {
                        &&& r == Blocking::Wait
                        &&& now == (MutatorRecord {
                            blocking_depth: 0,
                            stopped_sp: sp,
                            saved_regs,
                            parked: true,
                            site: SITE_LEAVE_BLOCKING,
                            ..was
                        })
                    } else {
                        &&& r == Blocking::Changed
                        &&& now == (MutatorRecord {
                            blocking_depth: 0,
                            stopped_sp: 0,
                            site: SITE_RUNNING,
                            ..was
                        })
                    }
                },
            final(self).stop_holds(old(self)),
    {
        let found = self.index(thread);
        let i: usize = match found {
            Some(i) => i,
            None => {
                proof {
                    assert forall|k: int|
                        0 <= k < old(self).mutators.len() implies (
                    #[trigger] old(self).mutators[k]).thread != thread by {}
                }
                return Blocking::Refused;
            },
        };
        proof {
            assert(old(self).registered(thread));
            assert forall|k: int|
                0 <= k < old(self).mutators.len() && (
                #[trigger] old(self).mutators[k]).thread == thread implies k == i by {
                assert(old(self).mutators[k].thread == old(self).mutators[i as int].thread);
            }
        }
        let depth: u32 = self.mutators[i].blocking_depth;
        if blocking {
            self.mutators[i].site = SITE_ENTER_BLOCKING;
            self.mutators[i].blocking_depth = if depth < u32::MAX {
                depth + 1
            } else {
                u32::MAX
            };
            self.mutators[i].stopped_sp = sp;
            self.mutators[i].saved_regs = saved_regs;
            proof {
                self.lemma_one_changed(old(self), i as int);
            }
            return Blocking::Changed;
        }
        self.mutators[i].site = SITE_LEAVE_BLOCKING;
        if depth == 0 {
            proof {
                self.lemma_one_changed(old(self), i as int);
            }
            return Blocking::Refused;
        }
        self.mutators[i].blocking_depth = depth - 1;
        if depth - 1 != 0 {
            proof {
                self.lemma_one_changed(old(self), i as int);
            }
            return Blocking::Changed;
        }
        if self.stop_requested && self.collector != thread {
            self.mutators[i].stopped_sp = sp;
            self.mutators[i].saved_regs = saved_regs;
            self.mutators[i].parked = true;
            proof {
                self.lemma_one_changed(old(self), i as int);
            }
            Blocking::Wait
        } else {
            self.mutators[i].stopped_sp = 0;
            self.mutators[i].site = SITE_RUNNING;
            proof {
                self.lemma_one_changed(old(self), i as int);
            }
            Blocking::Changed
        }
    }

    /// Whether another thread than `collector` is registered.
    pub open spec fn others(&self, collector: u64) -> bool {
        exists|i: int|
            0 <= i < self.mutators.len() && (#[trigger] self.mutators[i]).thread != collector
    }

    /// Ask every other mutator to stop; false, and no change, when there is
    /// none to stop.
    pub fn request_stop(&mut self, collector: u64) -> (needed: bool)
        requires
            old(self).inv(),
        ensures
            final(self).inv(),
            needed == old(self).others(collector),
            !needed ==> *final(self) == *old(self),
            needed ==> {
                &&& final(self).stop_requested
                &&& final(self).collector == collector
                &&& final(self).mutators.len() == old(self).mutators.len()
                &&& forall|i: int|
                    0 <= i < final(self).mutators.len() ==> #[trigger] final(self).mutators[i] == (
                    MutatorRecord {
                        polls_at_stop: old(self).mutators[i].polls,
                        ..old(self).mutators[i]
                    })
            },
    {
        let mut needed: bool = false;
        let mut i: usize = 0;
        while i < self.mutators.len()
            invariant
                *self == *old(self),
                i <= self.mutators.len(),
                needed == exists|k: int|
                    0 <= k < i && (#[trigger] self.mutators[k]).thread != collector,
            decreases self.mutators.len() - i,
        {
            if self.mutators[i].thread != collector {
                needed = true;
            }
            i = i + 1;
        }
        if !needed {
            return false;
        }
        self.stop_requested = true;
        self.collector = collector;
        let mut i: usize = 0;
        while i < self.mutators.len()
            invariant
                self.stop_requested,
                self.collector == collector,
                i <= self.mutators.len(),
                self.mutators.len() == old(self).mutators.len(),
                forall|k: int|
                    0 <= k < i ==> #[trigger] self.mutators[k] == (MutatorRecord {
                        polls_at_stop: old(self).mutators[k].polls,
                        ..old(self).mutators[k]
                    }),
                forall|k: int|
                    i <= k < self.mutators.len() ==> #[trigger] self.mutators[k]
                        == old(self).mutators[k],
            decreases self.mutators.len() - i,
        {
            let polls: u64 = self.mutators[i].polls;
            self.mutators[i].polls_at_stop = polls;
            i = i + 1;
        }
        proof {
            assert forall|a: int, b: int| 0 <= a < b < self.mutators.len() implies (
            #[trigger] self.mutators[a]).thread != (#[trigger] self.mutators[b]).thread by {
                assert(old(self).mutators[a].thread != old(self).mutators[b].thread);
            }
        }
        true
    }

    /// Where the stop that `collector` asked for stands after `waited_ms`: all
    /// at rest, still waiting, or past the deadline. A thread that is neither
    /// parked nor blocking cannot be scanned while it runs.
    pub fn stop_progress(&self, collector: u64, waited_ms: u64) -> (r: Stop)
        ensures
            r == if self.at_rest(collector) {
                Stop::Stopped
            } else if waited_ms >= STOP_THE_WORLD_DEADLINE_MS {
                Stop::Abandon
            } else {
                Stop::Wait
            },
    {
        let mut i: usize = 0;
        while i < self.mutators.len()
            invariant
                i <= self.mutators.len(),
                forall|k: int|
                    0 <= k < i && (#[trigger] self.mutators[k]).thread != collector
                        ==> self.mutators[k].at_rest(),
            decreases self.mutators.len() - i,
        {
            if self.mutators[i].thread != collector && !self.mutators[i].parked
                && self.mutators[i].blocking_depth == 0 {
                assert(!self.mutators[i as int].at_rest());
                return if waited_ms >= STOP_THE_WORLD_DEADLINE_MS {
                    Stop::Abandon
                } else {
                    Stop::Wait
                };
            }
            i = i + 1;
        }
        Stop::Stopped
    }

    /// Let the world go on.
    pub fn release_world(&mut self)
        requires
            old(self).inv(),
        ensures
            final(self).inv(),
            !final(self).stop_requested,
            final(self).collector == 0,
            final(self).mutators == old(self).mutators,
    {
        self.stop_requested = false;
        self.collector = 0;
    }

    /// The ranges that are neither null nor empty.
    pub open spec fn real_ranges(ranges: Seq<(usize, usize)>) -> Seq<(usize, usize)>
        decreases ranges.len(),
    {
        if ranges.len() == 0 {
            ranges
        } else {
            let init = MutatorWorld::real_ranges(ranges.drop_last());
            if ranges.last().0 != 0 && ranges.last().1 != 0 {
                init.push(ranges.last())
            } else {
                init
            }
        }
    }

    /// The table that was read for `thread`: the first entry under its name.
    pub open spec fn table_of(
        read: Seq<(u64, Vec<(usize, usize)>)>,
        thread: u64,
    ) -> Seq<(usize, usize)>
        decreases read.len(),
    {
        if read.len() == 0 {
            Seq::empty()
        } else if read[0].0 == thread {
            read[0].1@
        } else {
            MutatorWorld::table_of(read.skip(1), thread)
        }
    }

    /// Whether the mutator keeps its own range table for the collector.
    pub open spec fn keeps_table(m: MutatorRecord) -> bool {
        m.scan_live matches Some((ranges, len)) && ranges != 0 && len != 0
    }

    /// What the collector scans of mutator `m`.
    pub open spec fn snapshot_of(
        s: MutatorSnapshot,
        m: MutatorRecord,
        read: Seq<(u64, Vec<(usize, usize)>)>,
    ) -> bool {
        &&& s.thread == m.thread
        &&& s.stack_top == m.stack_top
        &&& s.stack_sp == m.stopped_sp
        &&& s.saved_regs == m.saved_regs
        &&& s.scan_ranges@ == if MutatorWorld::keeps_table(m) {
            MutatorWorld::real_ranges(MutatorWorld::table_of(read, m.thread))
        } else {
            m.scan_ranges@
        }
    }

    fn filter_ranges(ranges: &Vec<(usize, usize)>) -> (r: Vec<(usize, usize)>)
        ensures
            r@ == MutatorWorld::real_ranges(ranges@),
    {
        let mut out: Vec<(usize, usize)> = Vec::new();
        let mut i: usize = 0;
        assert(ranges@.take(0) =~= Seq::<(usize, usize)>::empty());
        while i < ranges.len()
            invariant
                i <= ranges.len(),
                out@ == MutatorWorld::real_ranges(ranges@.take(i as int)),
            decreases ranges.len() - i,
        {
            assert(ranges@.take(i + 1).drop_last() =~= ranges@.take(i as int));
            let (a, n) = ranges[i];
            if a != 0 && n != 0 {
                out.push((a, n));
            }
            i = i + 1;
        }
        assert(ranges@.take(i as int) =~= ranges@);
        out
    }

    fn copy_ranges(ranges: &Vec<(usize, usize)>) -> (r: Vec<(usize, usize)>)
        ensures
            r@ == ranges@,
    {
        let mut out: Vec<(usize, usize)> = Vec::new();
        let mut i: usize = 0;
        while i < ranges.len()
            invariant
                i <= ranges.len(),
                out@ == ranges@.take(i as int),
            decreases ranges.len() - i,
        {
            out.push(ranges[i]);
            i = i + 1;
            assert(out@ =~= ranges@.take(i as int));
        }
        assert(ranges@.take(i as int) =~= ranges@);
        out
    }

    /// The real ranges of the table read for `thread`.
    fn read_table(read: &Vec<(u64, Vec<(usize, usize)>)>, thread: u64) -> (r: Vec<(usize, usize)>)
        ensures
            r@ == MutatorWorld::real_ranges(MutatorWorld::table_of(read@, thread)),
    {
        let mut i: usize = 0;
        assert(read@.skip(0) =~= read@);
        while i < read.len()
            invariant
                i <= read.len(),
                MutatorWorld::table_of(read@, thread) == MutatorWorld::table_of(
                    read@.skip(i as int),
                    thread,
                ),
            decreases read.len() - i,
        {
            assert(read@.skip(i as int)[0] == read@[i as int]);
            if read[i].0 == thread {
                return MutatorWorld::filter_ranges(&read[i].1);
            }
            assert(read@.skip(i as int).skip(1) =~= read@.skip(i + 1));
            i = i + 1;
        }
        Vec::new()
    }

    /// Whether `r` is what the collector scans of every mutator.
    pub open spec fn scanned(
        &self,
        read: Seq<(u64, Vec<(usize, usize)>)>,
        r: Seq<MutatorSnapshot>,
    ) -> bool {
        &&& r.len() == self.mutators.len()
        &&& forall|i: int|
            0 <= i < r.len() ==> MutatorWorld::snapshot_of(#[trigger] r[i], self.mutators[i], read)
    }

    /// What the collector scans of every mutator, once the world is at rest.
    /// `read` holds the range tables that mutators keep themselves.
    pub fn snapshots(&self, read: &Vec<(u64, Vec<(usize, usize)>)>) -> (r: Vec<MutatorSnapshot>)
        ensures
            self.scanned(read@, r@),
    {
        let mut out: Vec<MutatorSnapshot> = Vec::new();
        let mut i: usize = 0;
        while i < self.mutators.len()
            invariant
                i <= self.mutators.len(),
                out.len() == i,
                forall|k: int|
                    0 <= k < i ==> MutatorWorld::snapshot_of(
                        #[trigger] out[k],
                        self.mutators[k],
                        read@,
                    ),
            decreases self.mutators.len() - i,
        {
            let m = &self.mutators[i];
            let scan_ranges: Vec<(usize, usize)> = match m.scan_live {
                Some((ranges, len)) => if ranges != 0 && len != 0 {
                    MutatorWorld::read_table(read, m.thread)
                } else {
                    MutatorWorld::copy_ranges(&m.scan_ranges)
                },
                None => MutatorWorld::copy_ranges(&m.scan_ranges),
            };
            out.push(
                MutatorSnapshot {
                    thread: m.thread,
                    stack_top: m.stack_top,
                    stack_sp: m.stopped_sp,
                    saved_regs: m.saved_regs,
                    scan_ranges,
                },
            );
            i = i + 1;
        }
        out
    }

    /// At most `cap` registered threads, in the order they registered.
    pub fn registered_threads(&self, cap: usize) -> (r: Vec<u64>)
        ensures
            r.len() == if self.mutators.len() < cap {
                self.mutators.len()
            } else {
                cap
            },
            forall|i: int| 0 <= i < r.len() ==> #[trigger] r[i] == self.mutators[i].thread,
    {
        let mut out: Vec<u64> = Vec::new();
        let mut i: usize = 0;
        while i < self.mutators.len() && i < cap
            invariant
                i <= self.mutators.len(),
                i <= cap,
                out.len() == i,
                forall|k: int| 0 <= k < i ==> #[trigger] out[k] == self.mutators[k].thread,
            decreases self.mutators.len() - i,
        {
            out.push(self.mutators[i].thread);
            i = i + 1;
        }
        out
    }

    /// `thread` dropped the ranges it had staged.
    pub open spec fn cleared(&self, before: &MutatorWorld, thread: u64) -> bool {
        &&& self.only(before, thread)
        &&& forall|i: int|
            0 <= i < self.mutators.len() && (#[trigger] self.mutators[i]).thread == thread ==> {
                &&& self.mutators[i].same_but_ranges(before.mutators[i])
                &&& self.mutators[i].scan_ranges == before.mutators[i].scan_ranges
                &&& self.mutators[i].staged_scan_ranges@ == Seq::<(usize, usize)>::empty()
            }
    }

    /// `thread` staged one range more, unless it is null or empty.
    pub open spec fn staged(
        &self,
        before: &MutatorWorld,
        thread: u64,
        start: usize,
        size: usize,
    ) -> bool {
        if start == 0 || size == 0 {
            *self == *before
        } else {
            &&& self.only(before, thread)
            &&& forall|i: int|
                0 <= i < self.mutators.len() && (#[trigger] self.mutators[i]).thread == thread ==> {
                    &&& self.mutators[i].same_but_ranges(before.mutators[i])
                    &&& self.mutators[i].scan_ranges == before.mutators[i].scan_ranges
                    &&& self.mutators[i].staged_scan_ranges@
                        == before.mutators[i].staged_scan_ranges@.push((start, size))
                }
        }
    }

    /// `thread` published the ranges it had staged, in place of the last ones.
    pub open spec fn published(&self, before: &MutatorWorld, thread: u64) -> bool {
        &&& self.only(before, thread)
        &&& forall|i: int|
            0 <= i < self.mutators.len() && (#[trigger] self.mutators[i]).thread == thread ==> {
                &&& self.mutators[i].same_but_ranges(before.mutators[i])
                &&& self.mutators[i].scan_ranges@ == before.mutators[i].staged_scan_ranges@
                &&& self.mutators[i].staged_scan_ranges@ == Seq::<(usize, usize)>::empty()
            }
    }

    /// `thread` published `ranges` in place of the last ones, null and empty
    /// ones left out; what it has staged stays.
    pub open spec fn replaced(
        &self,
        before: &MutatorWorld,
        thread: u64,
        ranges: Seq<(usize, usize)>,
    ) -> bool {
        &&& self.only(before, thread)
        &&& forall|i: int|
            0 <= i < self.mutators.len() && (#[trigger] self.mutators[i]).thread == thread ==> {
                &&& self.mutators[i].same_but_ranges(before.mutators[i])
                &&& self.mutators[i].scan_ranges@ == MutatorWorld::real_ranges(ranges)
                &&& self.mutators[i].staged_scan_ranges == before.mutators[i].staged_scan_ranges
            }
    }

    /// `thread` keeps its own range table from now on.
    pub open spec fn keeps_own(
        &self,
        before: &MutatorWorld,
        thread: u64,
        ranges: usize,
        len: usize,
    ) -> bool {
        &&& self.only(before, thread)
        &&& forall|i: int|
            0 <= i < self.mutators.len() && (#[trigger] self.mutators[i]).thread == thread
                ==> self.mutators[i] == (MutatorRecord {
                scan_live: Some((ranges, len)),
                ..before.mutators[i]
            })
    }

    /// Drop the ranges `thread` has staged.
    pub fn clear_scan_ranges(&mut self, thread: u64)
        requires
            old(self).inv(),
        ensures
            final(self).inv(),
            final(self).cleared(old(self), thread),
    {
        if let Some(i) = self.index(thread) {
            self.mutators[i].staged_scan_ranges = Vec::new();
            proof {
                self.lemma_one_changed(old(self), i as int);
                assert(self.mutators[i as int].staged_scan_ranges@ =~= Seq::<
                    (usize, usize),
                >::empty());
            }
        }
    }

    /// Stage one range of `thread`'s; nothing for a null or empty one.
    pub fn add_scan_range(&mut self, thread: u64, start: usize, size: usize)
        requires
            old(self).inv(),
        ensures
            final(self).inv(),
            final(self).staged(old(self), thread, start, size),
    {
        if start == 0 || size == 0 {
            return ;
        }
        if let Some(i) = self.index(thread) {
            self.mutators[i].staged_scan_ranges.push((start, size));
            proof {
                self.lemma_one_changed(old(self), i as int);
            }
        }
    }

    /// Publish the ranges `thread` has staged, in place of the last ones.
    pub fn publish_scan_ranges(&mut self, thread: u64)
        requires
            old(self).inv(),
        ensures
            final(self).inv(),
            final(self).published(old(self), thread),
    {
        if let Some(i) = self.index(thread) {
            let mut taken: Vec<(usize, usize)> = Vec::new();
            taken.append(&mut self.mutators[i].staged_scan_ranges);
            self.mutators[i].scan_ranges = taken;
            proof {
                self.lemma_one_changed(old(self), i as int);
                assert(self.mutators[i as int].scan_ranges@ =~= old(
                    self,
                ).mutators[i as int].staged_scan_ranges@);
                assert(self.mutators[i as int].staged_scan_ranges@ =~= Seq::<
                    (usize, usize),
                >::empty());
            }
        }
    }

    /// Replace `thread`'s published ranges, null and empty ones left out.
    pub fn set_scan_ranges(&mut self, thread: u64, ranges: &Vec<(usize, usize)>)
        requires
            old(self).inv(),
        ensures
            final(self).inv(),
            final(self).replaced(old(self), thread, ranges@),
    {
        if let Some(i) = self.index(thread) {
            self.mutators[i].scan_ranges = MutatorWorld::filter_ranges(ranges);
            proof {
                self.lemma_one_changed(old(self), i as int);
            }
        }
    }

    /// Hand the collector `thread`'s own range table.
    pub fn set_scan_live(&mut self, thread: u64, ranges: usize, len: usize)
        requires
            old(self).inv(),
        ensures
            final(self).inv(),
            final(self).keeps_own(old(self), thread, ranges, len),
    {
        if let Some(i) = self.index(thread) {
            self.mutators[i].scan_live = Some((ranges, len));
            proof {
                self.lemma_one_changed(old(self), i as int);
            }
        }
    }

    /// Record where `thread` may wait.
    pub fn mark_site(&mut self, thread: u64, site: u64)
        requires
            old(self).inv(),
        ensures
            final(self).inv(),
            final(self).only(old(self), thread),
            forall|i: int|
                0 <= i < final(self).mutators.len() && (
                #[trigger] final(self).mutators[i]).thread == thread ==> final(self).mutators[i]
                    == (MutatorRecord { site, ..old(self).mutators[i] }),
    {
        if let Some(i) = self.index(thread) {
            self.mutators[i].site = site;
            proof {
                self.lemma_one_changed(old(self), i as int);
            }
        }
    }

    /// The published ranges of the first `n` mutators, counted.
    pub open spec fn ranges_upto(&self, n: nat) -> nat
        decreases n,
    {
        if n == 0 {
            0
        } else {
            self.ranges_upto((n - 1) as nat) + self.mutators[n - 1].scan_ranges.len() as nat
        }
    }

    /// How many ranges are published in all.
    pub fn scan_range_count(&self) -> (n: usize)
        requires
            self.ranges_upto(self.mutators.len() as nat) <= usize::MAX,
        ensures
            n == self.ranges_upto(self.mutators.len() as nat),
    {
        let mut n: usize = 0;
        let mut i: usize = 0;
        while i < self.mutators.len()
            invariant
                i <= self.mutators.len(),
                n == self.ranges_upto(i as nat),
                self.ranges_upto(self.mutators.len() as nat) <= usize::MAX,
            decreases self.mutators.len() - i,
        {
            proof {
                self.lemma_ranges_grow((i + 1) as nat);
            }
            n = n + self.mutators[i].scan_ranges.len();
            i = i + 1;
        }
        n
    }

    proof fn lemma_ranges_grow(&self, k: nat)
        requires
            k <= self.mutators.len(),
        ensures
            self.ranges_upto(k) <= self.ranges_upto(self.mutators.len() as nat),
        decreases self.mutators.len() - k,
    {
        if k < self.mutators.len() {
            self.lemma_ranges_grow(k + 1);
        }
    }

    /// How a mutator is named in a report: its role and its thread.
    pub open spec fn name_of(m: MutatorRecord) -> Seq<char> {
        m.role@ + " 0x"@ + hex(m.thread as nat)
    }

    fn name(m: &MutatorRecord) -> (s: String)
        ensures
            s@ == MutatorWorld::name_of(*m),
    {
        let mut s = m.role.clone();
        s.append(" 0x");
        s.append(hex_text(m.thread).as_str());
        s
    }

    /// The names of the first `n` mutators that keep `collector` waiting.
    pub open spec fn late_upto(&self, collector: u64, n: nat) -> Seq<Seq<char>>
        decreases n,
    {
        if n == 0 {
            Seq::empty()
        } else {
            let init = self.late_upto(collector, (n - 1) as nat);
            let m = self.mutators[n - 1];
            if m.thread != collector && !m.at_rest() {
                init.push(MutatorWorld::name_of(m))
            } else {
                init
            }
        }
    }

    /// The mutators that keep `collector` waiting, by name.
    pub fn stragglers(&self, collector: u64) -> (r: Vec<String>)
        ensures
            r@.map_values(|s: String| s@) == self.late_upto(collector, self.mutators.len() as nat),
    {
        let mut out: Vec<String> = Vec::new();
        let mut i: usize = 0;
        assert(out@.map_values(|s: String| s@) =~= Seq::<Seq<char>>::empty());
        while i < self.mutators.len()
            invariant
                i <= self.mutators.len(),
                out@.map_values(|s: String| s@) == self.late_upto(collector, i as nat),
            decreases self.mutators.len() - i,
        {
            let m = &self.mutators[i];
            let ghost held = out@;
            if m.thread != collector && !m.parked && m.blocking_depth == 0 {
                let s = MutatorWorld::name(m);
                out.push(s);
                proof {
                    assert(out@.map_values(|s: String| s@) =~= held.map_values(
                        |s: String| s@,
                    ).push(MutatorWorld::name_of(*m)));
                }
            }
            i = i + 1;
        }
        out
    }

    /// One mutator's line in the table a given-up stop prints.
    pub open spec fn row_of(m: MutatorRecord, collector: u64) -> Seq<char> {
        MutatorWorld::name_of(m) + (if m.thread == collector {
            " collector"@
        } else {
            Seq::empty()
        }) + (if m.parked {
            " parked"@
        } else {
            Seq::empty()
        }) + (if m.blocking_depth != 0 {
            " blocking="@ + decimal(m.blocking_depth as nat)
        } else {
            " polls="@ + decimal(
                if m.polls < m.polls_at_stop {
                    0
                } else {
                    (m.polls - m.polls_at_stop) as nat
                },
            ) + " at="@ + site_text(m.site)
        })
    }

    /// One mutator's line in the table a given-up stop prints.
    pub fn row(&self, i: usize, collector: u64) -> (s: String)
        requires
            i < self.mutators.len(),
        ensures
            s@ == MutatorWorld::row_of(self.mutators[i as int], collector),
    {
        let m = &self.mutators[i];
        let mut s = MutatorWorld::name(m);
        let ghost a = s@;
        if m.thread == collector {
            s.append(" collector");
        }
        assert(s@ =~= a + (if m.thread == collector {
            " collector"@
        } else {
            Seq::empty()
        }));
        let ghost b = s@;
        if m.parked {
            s.append(" parked");
        }
        assert(s@ =~= b + (if m.parked {
            " parked"@
        } else {
            Seq::empty()
        }));
        let ghost c = s@;
        if m.blocking_depth != 0 {
            s.append(" blocking=");
            s.append(decimal_text(m.blocking_depth as u64).as_str());
            assert(s@ =~= c + (" blocking="@ + decimal(m.blocking_depth as nat)));
        } else {
            s.append(" polls=");
            let moved: u64 = m.polls.saturating_sub(m.polls_at_stop);
            s.append(decimal_text(moved).as_str());
            s.append(" at=");
            s.append(site_name(m.site));
            assert(s@ =~= c + (" polls="@ + decimal(moved as nat) + " at="@ + site_text(m.site)));
        }
        s
    }
}

impl MutatorRecord {
    /// Only the ranges may differ from `was`.
    pub open spec fn same_but_ranges(self, was: MutatorRecord) -> bool {
        self == (MutatorRecord {
            scan_ranges: self.scan_ranges,
            staged_scan_ranges: self.staged_scan_ranges,
            ..was
        })
    }

    /// The record of a thread that entered a safepoint with a stop pending.
    pub open spec fn polled(self, r: Park, sp: usize, saved_regs: [u64; 10]) -> MutatorRecord {
        let counted = MutatorRecord {
            polls: if self.polls < u64::MAX {
                (self.polls + 1) as u64
            } else {
                0
            },
            site: SITE_SAFEPOINT_WORLD_LOCK,
            ..self
        };
        match r {
            Park::Pass => counted,
            Park::Wait => MutatorRecord { stopped_sp: sp, saved_regs, parked: true, ..counted },
        }
    }

    /// A record as registration makes it.
    pub open spec fn is_new(&self, thread: u64, stack_top: usize, role: Seq<char>) -> bool {
        &&& self.thread == thread
        &&& self.stack_top == stack_top
        &&& self.role@ == role
        &&& self.stopped_sp == 0
        &&& self.saved_regs == [0u64, 0, 0, 0, 0, 0, 0, 0, 0, 0]
        &&& self.blocking_depth == 0
        &&& !self.parked
        &&& self.scan_ranges@.len() == 0
        &&& self.staged_scan_ranges@.len() == 0
        &&& self.scan_live is None
        &&& self.polls == 0
        &&& self.polls_at_stop == 0
        &&& self.site == SITE_RUNNING
    }
}

} // verus!
