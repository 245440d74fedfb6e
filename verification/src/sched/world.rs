//! The world: one thread's scheduler. Other threads reach it only through its
//! mailbox.

use vstd::prelude::*;

use crate::sched::laws::{law_every_due_timer_fires, law_the_earliest_is_first};
use crate::sched::task::{new_record, ResumeCause, RunState, TaskId, TaskRecord};
use crate::sched::wait::{
    lemma_wait_found, lemma_waits_with, lemma_waits_without, wait_of, waits, WaitEntry,
    WaitRegistry, WaitStatus, Waiter,
};

verus! {

/// What another thread may ask of a world.
#[derive(Clone, Copy, Debug, PartialEq, Eq, Structural)]
pub enum Command {
    Wake(Waiter),
    /// Only a pool sends one.
    Spawn(TaskRecord),
    /// A source's signal was raised.
    Ready(u64),
    /// A quiescent point is wanted; the command itself does nothing.
    Park,
}

/// A parked task's deadline.
#[derive(Clone, Copy, Debug, PartialEq, Eq, Structural)]
pub struct Timer {
    pub deadline: u64,
    pub token: u64,
    pub task: TaskId,
}

/// A wait the running task asked for, to begin when its step returns.
#[derive(Clone, Copy, Debug, PartialEq, Eq, Structural)]
pub struct ParkRequest {
    pub waiter: Waiter,
    pub deadline: Option<u64>,
}

/// The running task, as seen from its own stack.
#[derive(Clone, Copy, Debug, PartialEq, Eq, Structural)]
pub struct ActiveTask {
    pub id: TaskId,
    pub resume_cause: ResumeCause,
    pub pending_park: Option<ParkRequest>,
    pub blocking_depth: u32,
    pub can_suspend: bool,
}

pub struct World {
    pub id: u64,
    pub tasks: Vec<TaskRecord>,
    /// The tasks to resume, in order.
    pub ready: Vec<TaskId>,
    pub timers: Vec<Timer>,
    pub mailbox: Vec<Command>,
    /// Tasks assigned to this world, parked ones included.
    pub assigned: usize,
    pub active: Option<ActiveTask>,
    /// The main context's blocking depth; a task's travels with the task.
    pub main_depth: u32,
    /// Signals raised and not handled yet, each once.
    pub signals: Vec<u64>,
}

// What waking does.

/// Where the task `id` is.
pub open spec fn task_index(tasks: Seq<TaskRecord>, id: TaskId) -> Option<int>
    decreases tasks.len(),
{
    if tasks.len() == 0 {
        None
    } else if tasks.last().id == id {
        Some(tasks.len() - 1)
    } else {
        task_index(tasks.drop_last(), id)
    }
}

/// The queue with `id` at its end, unless it is in it.
pub open spec fn enqueued(ready: Seq<TaskId>, id: TaskId) -> Seq<TaskId> {
    if ready.contains(id) {
        ready
    } else {
        ready.push(id)
    }
}

/// What a world's turns work on, with the open waits.
#[verifier::ext_equal]
pub struct WorldState {
    pub tasks: Seq<TaskRecord>,
    pub ready: Seq<TaskId>,
    pub timers: Seq<Timer>,
    pub waits: Map<u64, WaitEntry>,
}

/// Whether the task `id` is parked on `token`.
pub open spec fn is_parked(tasks: Seq<TaskRecord>, id: TaskId, token: u64) -> bool {
    task_index(tasks, id) matches Some(i) && tasks[i].run_state == RunState::Waiting(token)
}

/// The parked task `id` made ready: its wait is over, and the cause carries the
/// outcome from here.
pub open spec fn made_ready(
    s: WorldState,
    id: TaskId,
    token: u64,
    cause: ResumeCause,
) -> WorldState {
    let i = task_index(s.tasks, id)->0;
    WorldState {
        tasks: s.tasks.update(
            i,
            TaskRecord { run_state: RunState::Runnable, resume_cause: cause, ..s.tasks[i] },
        ),
        ready: enqueued(s.ready, id),
        waits: s.waits.remove(token),
        ..s
    }
}

/// The state once a waiter whose notification was claimed is woken. The main
/// context polls its own registration.
pub open spec fn woken(s: WorldState, waiter: Waiter) -> WorldState {
    if waiter.task.0 != 0 && is_parked(s.tasks, waiter.task, waiter.token) {
        made_ready(s, waiter.task, waiter.token, ResumeCause::Notified)
    } else {
        s
    }
}

/// Whether `a` is due before `b`.
pub open spec fn sooner(a: Timer, b: Timer) -> bool {
    a.deadline < b.deadline || (a.deadline == b.deadline && (a.token < b.token || (a.token
        == b.token && a.task.0 < b.task.0)))
}

/// The timer due first.
pub open spec fn earliest(timers: Seq<Timer>) -> int
    decreases timers.len(),
{
    if timers.len() <= 1 {
        0
    } else {
        let i = earliest(timers.drop_last());
        if sooner(timers.last(), timers[i]) {
            timers.len() - 1
        } else {
            i
        }
    }
}

/// The state once the deadline of `t` has passed: a waiter that was notified
/// first leaves a stale timer, which does nothing.
pub open spec fn expired(s: WorldState, t: Timer) -> WorldState {
    if s.waits.contains_key(t.token) && s.waits[t.token].status == WaitStatus::Waiting {
        let late = WorldState {
            waits: s.waits.insert(
                t.token,
                WaitEntry { status: WaitStatus::TimedOut, ..s.waits[t.token] },
            ),
            ..s
        };
        if is_parked(s.tasks, t.task, t.token) {
            made_ready(late, t.task, t.token, ResumeCause::TimedOut)
        } else {
            late
        }
    } else {
        s
    }
}

/// The state once every timer due at `now` has fired, the soonest first.
pub open spec fn fired(s: WorldState, now: u64) -> WorldState
    decreases s.timers.len(),
{
    if s.timers.len() == 0 {
        s
    } else {
        let i = earliest(s.timers);
        if 0 <= i < s.timers.len() && s.timers[i].deadline <= now {
            fired(
                expired(WorldState { timers: s.timers.remove(i), ..s }, s.timers[i]),
                now,
            )
        } else {
            s
        }
    }
}

/// A new task, ready.
pub open spec fn installed(s: WorldState, record: TaskRecord) -> WorldState {
    WorldState {
        tasks: s.tasks.push(record),
        ready: enqueued(s.ready, record.id),
        ..s
    }
}

/// The state once `c` was carried out.
pub open spec fn carried_out(s: WorldState, c: Command) -> WorldState {
    match c {
        Command::Wake(w) => woken(s, w),
        Command::Spawn(r) => installed(s, r),
        _ => s,
    }
}

/// The state once `commands` were carried out in order.
pub open spec fn drained(s: WorldState, commands: Seq<Command>) -> WorldState
    decreases commands.len(),
{
    if commands.len() == 0 {
        s
    } else {
        carried_out(drained(s, commands.drop_last()), commands.last())
    }
}

// Searching.

proof fn lemma_task_at(tasks: Seq<TaskRecord>, i: int)
    requires
        ids_apart(tasks),
        0 <= i < tasks.len(),
    ensures
        task_index(tasks, tasks[i].id) == Some(i),
    decreases tasks.len(),
{
    if i < tasks.len() - 1 {
        let init = tasks.drop_last();
        assert(init[i] == tasks[i]);
        assert(ids_apart(init)) by {
            assert forall|a: int, b: int|
                #![trigger init[a], init[b]]
                0 <= a < b < init.len() implies init[a].id != init[b].id by {
                let _ = tasks[a];
                let _ = tasks[b];
            }
        }
        lemma_task_at(init, i);
        assert(tasks[tasks.len() - 1].id != tasks[i].id);
    }
}

proof fn lemma_task_none(tasks: Seq<TaskRecord>, id: TaskId)
    requires
        forall|i: int| 0 <= i < tasks.len() ==> (#[trigger] tasks[i]).id != id,
    ensures
        task_index(tasks, id) is None,
    decreases tasks.len(),
{
    if tasks.len() > 0 {
        let init = tasks.drop_last();
        assert forall|i: int| 0 <= i < init.len() implies (#[trigger] init[i]).id != id by {
            assert(init[i] == tasks[i]);
        }
        lemma_task_none(init, id);
    }
}

pub proof fn lemma_task_found(tasks: Seq<TaskRecord>, id: TaskId)
    requires
        task_index(tasks, id) is Some,
    ensures
        0 <= task_index(tasks, id)->0 < tasks.len(),
        tasks[task_index(tasks, id)->0].id == id,
    decreases tasks.len(),
{
    if tasks.last().id != id {
        lemma_task_found(tasks.drop_last(), id);
    }
}

/// No two tasks share an id.
pub open spec fn ids_apart(tasks: Seq<TaskRecord>) -> bool {
    forall|i: int, j: int|
        #![trigger tasks[i], tasks[j]]
        0 <= i < j < tasks.len() ==> tasks[i].id != tasks[j].id
}

/// Every runnable task is in the queue.
pub open spec fn runnable_queued(tasks: Seq<TaskRecord>, ready: Seq<TaskId>) -> bool {
    forall|i: int|
        0 <= i < tasks.len() && (#[trigger] tasks[i]).run_state == RunState::Runnable
            ==> ready.contains(tasks[i].id)
}

/// Only the active task runs.
pub open spec fn one_runs(tasks: Seq<TaskRecord>, active: Option<ActiveTask>) -> bool {
    forall|i: int|
        0 <= i < tasks.len() && (#[trigger] tasks[i]).run_state == RunState::Running ==> (
        active matches Some(a) && a.id == tasks[i].id)
}

impl World {
    /// Tasks are told apart by their ids; the queue holds none twice, and
    /// every runnable one; and only the active task runs.
    pub open spec fn inv(&self) -> bool {
        &&& ids_apart(self.tasks@)
        &&& forall|i: int| 0 <= i < self.tasks@.len() ==> (#[trigger] self.tasks@[i]).id.0 != 0
        &&& self.ready@.no_duplicates()
        &&& runnable_queued(self.tasks@, self.ready@)
        &&& one_runs(self.tasks@, self.active)
        &&& self.active matches Some(a) ==> a.id.0 != 0
    }

    pub open spec fn state(&self, reg: &WaitRegistry) -> WorldState {
        WorldState {
            tasks: self.tasks@,
            ready: self.ready@,
            timers: self.timers@,
            waits: waits(reg.entries@),
        }
    }

    /// Everything but the tasks, the queue and the timers is as in `before`.
    pub open spec fn rest_same(&self, before: &World) -> bool {
        &&& self.id == before.id
        &&& self.assigned == before.assigned
        &&& self.active == before.active
        &&& self.main_depth == before.main_depth
        &&& self.signals == before.signals
    }

    pub fn new(id: u64) -> (w: World)
        ensures
            w.inv(),
            w.id == id,
            w.tasks@ == Seq::<TaskRecord>::empty(),
            w.ready@ == Seq::<TaskId>::empty(),
            w.timers@ == Seq::<Timer>::empty(),
            w.mailbox@ == Seq::<Command>::empty(),
            w.assigned == 0,
            w.active is None,
            w.main_depth == 0,
            w.signals@ == Seq::<u64>::empty(),
    {
        World {
            id,
            tasks: Vec::new(),
            ready: Vec::new(),
            timers: Vec::new(),
            mailbox: Vec::new(),
            assigned: 0,
            active: None,
            main_depth: 0,
            signals: Vec::new(),
        }
    }

    pub(crate) fn position(&self, id: TaskId) -> (r: Option<usize>)
        requires
            ids_apart(self.tasks@),
        ensures
            match task_index(self.tasks@, id) {
                Some(i) => r matches Some(k) && k == i && k < self.tasks@.len() && self.tasks@[i].id
                    == id,
                None => r is None,
            },
    {
        let mut i: usize = 0;
        while i < self.tasks.len()
            invariant
                ids_apart(self.tasks@),
                i <= self.tasks.len(),
                forall|k: int| 0 <= k < i ==> (#[trigger] self.tasks@[k]).id != id,
            decreases self.tasks.len() - i,
        {
            if self.tasks[i].id == id {
                proof {
                    lemma_task_at(self.tasks@, i as int);
                }
                return Some(i);
            }
            i = i + 1;
        }
        proof {
            lemma_task_none(self.tasks@, id);
        }
        None
    }

    /// Put a task at the end of the queue, unless it is in it.
    pub fn enqueue_ready(&mut self, id: TaskId)
        requires
            old(self).ready@.no_duplicates(),
        ensures
            final(self).ready@ == enqueued(old(self).ready@, id),
            final(self).ready@.no_duplicates(),
            final(self).ready@.contains(id),
            forall|t: TaskId| old(self).ready@.contains(t) ==> final(self).ready@.contains(t),
            final(self).tasks == old(self).tasks,
            final(self).timers == old(self).timers,
            final(self).mailbox == old(self).mailbox,
            final(self).rest_same(old(self)),
    {
        let mut i: usize = 0;
        while i < self.ready.len()
            invariant
                *self == *old(self),
                old(self).ready@.no_duplicates(),
                i <= self.ready.len(),
                forall|k: int| 0 <= k < i ==> self.ready@[k] != id,
            decreases self.ready.len() - i,
        {
            if self.ready[i] == id {
                assert(self.ready@[i as int] == id);
                return ;
            }
            i = i + 1;
        }
        self.ready.push(id);
        proof {
            let n = old(self).ready@.len() as int;
            assert(self.ready@[n] == id);
            assert forall|t: TaskId| old(self).ready@.contains(t) implies self.ready@.contains(
                t,
            ) by {
                let k = choose|k: int| 0 <= k < n && old(self).ready@[k] == t;
                assert(self.ready@[k] == t);
            }
        }
    }

    /// The parked task at `i` is ready.
    fn make_ready(&mut self, reg: &mut WaitRegistry, i: usize, token: u64, cause: ResumeCause)
        requires
            old(self).inv(),
            old(reg).inv(),
            i < old(self).tasks@.len(),
            old(self).tasks@[i as int].run_state == RunState::Waiting(token),
        ensures
            final(self).inv(),
            final(reg).inv(),
            final(reg).next_token == old(reg).next_token,
            final(self).rest_same(old(self)),
            final(self).mailbox == old(self).mailbox,
            final(self).state(final(reg)) == made_ready(
                old(self).state(old(reg)),
                old(self).tasks@[i as int].id,
                token,
                cause,
            ),
    {
        let ghost was = self.tasks@;
        let record: TaskRecord = self.tasks[i];
        self.tasks.set(
            i,
            TaskRecord { run_state: RunState::Runnable, resume_cause: cause, ..record },
        );
        let _was: Option<WaitStatus> = reg.finish_wait(token);
        self.enqueue_ready(record.id);
        proof {
            lemma_waits_without(old(reg).entries@, reg.entries@, token);
            lemma_task_at(was, i as int);
            let now = self.tasks@;
            assert forall|a: int, b: int|
                #![trigger now[a], now[b]]
                0 <= a < b < now.len() implies now[a].id != now[b].id by {
                let _ = was[a];
                let _ = was[b];
            }
            assert forall|k: int|
                0 <= k < now.len() && (#[trigger] now[k]).run_state
                    == RunState::Runnable implies self.ready@.contains(now[k].id) by {
                if k != i {
                    assert(now[k] == was[k]);
                }
            }
            assert forall|k: int|
                0 <= k < now.len() && (#[trigger] now[k]).run_state == RunState::Running implies (
            self.active matches Some(a) && a.id == now[k].id) by {
                assert(now[k] == was[k]);
            }
            assert forall|k: int| 0 <= k < now.len() implies (#[trigger] now[k]).id.0 != 0 by {
                let _ = was[k];
            }
        }
    }

    /// Wake a waiter whose notification was claimed: false when the task is not
    /// parked on it.
    pub fn wake_claimed(&mut self, reg: &mut WaitRegistry, waiter: Waiter) -> (r: bool)
        requires
            old(self).inv(),
            old(reg).inv(),
        ensures
            final(self).inv(),
            final(reg).inv(),
            final(reg).next_token == old(reg).next_token,
            final(self).rest_same(old(self)),
            final(self).mailbox == old(self).mailbox,
            r == (waiter.task.0 == 0 || is_parked(old(self).tasks@, waiter.task, waiter.token)),
            final(self).state(final(reg)) == woken(old(self).state(old(reg)), waiter),
    {
        if !waiter.task.is_task() {
            return true;
        }
        match self.position(waiter.task) {
            Some(i) => {
                if self.tasks[i].run_state != RunState::Waiting(waiter.token) {
                    return false;
                }
                self.make_ready(reg, i, waiter.token, ResumeCause::Notified);
                true
            },
            None => false,
        }
    }

    fn soonest(&self) -> (i: usize)
        requires
            self.timers@.len() > 0,
        ensures
            i == earliest(self.timers@),
            i < self.timers@.len(),
    {
        let mut best: usize = 0;
        let mut i: usize = 1;
        while i < self.timers.len()
            invariant
                1 <= i <= self.timers.len(),
                best < i,
                best == earliest(self.timers@.take(i as int)),
            decreases self.timers.len() - i,
        {
            let a: Timer = self.timers[i];
            let b: Timer = self.timers[best];
            assert(self.timers@.take(i + 1).drop_last() =~= self.timers@.take(i as int));
            if a.deadline < b.deadline || (a.deadline == b.deadline && (a.token < b.token || (
            a.token == b.token && a.task.0 < b.task.0))) {
                best = i;
            }
            i = i + 1;
        }
        assert(self.timers@.take(i as int) =~= self.timers@);
        best
    }

    /// When the next timer is due.
    pub fn next_timer(&self) -> (r: Option<u64>)
        ensures
            r == if self.timers@.len() == 0 {
                None
            } else {
                Some(self.timers@[earliest(self.timers@)].deadline)
            },
            r is None <==> self.timers@.len() == 0,
            r matches Some(at) ==> {
                &&& exists|i: int|
                    0 <= i < self.timers@.len() && (#[trigger] self.timers@[i]).deadline == at
                &&& forall|i: int|
                    0 <= i < self.timers@.len() ==> at <= (#[trigger] self.timers@[i]).deadline
            },
    {
        proof {
            if self.timers@.len() > 0 {
                law_the_earliest_is_first(self.timers@);
            }
        }
        if self.timers.len() == 0 {
            None
        } else {
            Some(self.timers[self.soonest()].deadline)
        }
    }

    /// Fire every timer due at `now`, the soonest first.
    pub fn wake_due_timers(&mut self, reg: &mut WaitRegistry, now: u64)
        requires
            old(self).inv(),
            old(reg).inv(),
        ensures
            final(self).inv(),
            final(reg).inv(),
            final(reg).next_token == old(reg).next_token,
            final(self).rest_same(old(self)),
            final(self).mailbox == old(self).mailbox,
            final(self).state(final(reg)) == fired(old(self).state(old(reg)), now),
            forall|i: int|
                0 <= i < final(self).timers@.len() ==> (#[trigger] final(self).timers@[i]).deadline
                    > now,
            forall|t: Timer| #[trigger]
                final(self).timers@.contains(t) <==> old(self).timers@.contains(t) && t.deadline
                    > now,
    {
        proof {
            law_every_due_timer_fires(old(self).state(old(reg)), now);
        }
        while self.timers.len() > 0
            invariant
                self.inv(),
                reg.inv(),
                reg.next_token == old(reg).next_token,
                self.rest_same(old(self)),
                self.mailbox == old(self).mailbox,
                fired(self.state(reg), now) == fired(old(self).state(old(reg)), now),
            decreases self.timers.len(),
        {
            let i: usize = self.soonest();
            let t: Timer = self.timers[i];
            let ghost before = self.state(reg);
            if t.deadline > now {
                proof {
                    law_every_due_timer_fires(old(self).state(old(reg)), now);
                    assert(self.timers@ == fired(old(self).state(old(reg)), now).timers);
                }
                return ;
            }
            let _gone: Timer = self.timers.remove(i);
            let ghost held = reg.entries@;
            let ghost mid = self.state(reg);
            assert(mid == WorldState { timers: before.timers.remove(i as int), ..before });
            if !reg.claim_timeout(t.token) {
                assert(wait_of(held, t.token) is Some ==> mid.waits.contains_key(t.token));
                assert(expired(mid, t) == mid);
                continue ;
            }
            proof {
                let k = lemma_wait_found(held, t.token);
                lemma_waits_with(
                    held,
                    reg.entries@,
                    WaitEntry {
                        waiter: wait_of(held, t.token)->0.waiter,
                        status: WaitStatus::TimedOut,
                    },
                );
            }
            let ghost late = self.state(reg);
            assert(late == WorldState {
                waits: mid.waits.insert(
                    t.token,
                    WaitEntry { status: WaitStatus::TimedOut, ..mid.waits[t.token] },
                ),
                ..mid
            });
            match self.position(t.task) {
                Some(k) => {
                    if self.tasks[k].run_state == RunState::Waiting(t.token) {
                        self.make_ready(reg, k, t.token, ResumeCause::TimedOut);
                    }
                },
                None => {},
            }
            assert(self.state(reg) == expired(mid, t));
        }
    }

    /// Add a task nobody has the id of, ready for its first turn.
    pub fn install(&mut self, record: TaskRecord)
        requires
            old(self).inv(),
            record.id.0 != 0,
            record.run_state == RunState::Runnable,
            task_index(old(self).tasks@, record.id) is None,
        ensures
            final(self).inv(),
            final(self).rest_same(old(self)),
            final(self).mailbox == old(self).mailbox,
            final(self).timers == old(self).timers,
            final(self).tasks@ == old(self).tasks@.push(record),
            final(self).ready@ == enqueued(old(self).ready@, record.id),
    {
        let ghost was = self.tasks@;
        self.tasks.push(record);
        self.enqueue_ready(record.id);
        proof {
            let now = self.tasks@;
            assert forall|a: int, b: int|
                #![trigger now[a], now[b]]
                0 <= a < b < now.len() implies now[a].id != now[b].id by {
                assert(now[a] == was[a]);
                if b < was.len() {
                    assert(now[b] == was[b]);
                } else {
                    lemma_task_at(was, a);
                }
            }
            assert forall|k: int|
                0 <= k < now.len() && (#[trigger] now[k]).run_state
                    == RunState::Runnable implies self.ready@.contains(now[k].id) by {
                if k < was.len() {
                    assert(now[k] == was[k]);
                }
            }
            assert forall|k: int|
                0 <= k < now.len() && (#[trigger] now[k]).run_state == RunState::Running implies (
            self.active matches Some(a) && a.id == now[k].id) by {
                assert(now[k] == was[k]);
            }
            assert forall|k: int| 0 <= k < now.len() implies (#[trigger] now[k]).id.0 != 0 by {
                if k < was.len() {
                    let _ = was[k];
                }
            }
        }
    }

    /// A task of this world: counted here, and ready.
    pub fn spawn(&mut self, id: TaskId, can_suspend: bool)
        requires
            old(self).inv(),
            id.0 != 0,
            task_index(old(self).tasks@, id) is None,
            old(self).assigned < usize::MAX,
        ensures
            final(self).inv(),
            final(self).tasks@ == old(self).tasks@.push(new_record(id, can_suspend)),
            final(self).ready@ == enqueued(old(self).ready@, id),
            final(self).assigned == old(self).assigned + 1,
            final(self).id == old(self).id,
            final(self).main_depth == old(self).main_depth,
            final(self).signals == old(self).signals,
            final(self).active == old(self).active,
            final(self).timers == old(self).timers,
            final(self).mailbox == old(self).mailbox,
    {
        self.assigned = self.assigned + 1;
        self.install(TaskRecord::new(id, can_suspend));
    }
}

} // verus!
