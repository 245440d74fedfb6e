//! A world's turns: what is carried out before one, who runs in it, and what
//! becomes of a task that suspends.

use vstd::prelude::*;

use crate::platform::Platform;
use crate::sched::task::{
    depth_after, update_blocking_depth, ResumeCause, RunState, Suspension, TaskId, TaskRecord,
};
use crate::sched::wait::{
    wait_of, with_wait, without_wait, WaitEntry, WaitRegistry, WaitStatus, Waiter,
};
use crate::sched::world::{
    carried_out, drained, earliest, enqueued, fired, ids_apart, is_parked, lemma_task_found,
    task_index, ActiveTask, Command, ParkRequest, Timer, World, WorldState,
};

verus! {

/// Whether the ids of the tasks to spawn are new, and no two are the same.
pub open spec fn spawns_ok(tasks: Seq<TaskRecord>, commands: Seq<Command>) -> bool {
    &&& forall|i: int|
        0 <= i < commands.len() ==> (#[trigger] commands[i] matches Command::Spawn(r) ==> r.id.0
            != 0 && r.run_state == RunState::Runnable && task_index(tasks, r.id) is None)
    &&& forall|i: int, j: int|
        #![trigger commands[i], commands[j]]
        0 <= i < j < commands.len() ==> (commands[i] matches Command::Spawn(a) ==> (
        commands[j] matches Command::Spawn(b) ==> a.id != b.id))
}

/// The signals with one more raised; one raised already stays where it is.
pub open spec fn raised(signals: Seq<u64>, signal: u64) -> Seq<u64> {
    if signals.contains(signal) {
        signals
    } else {
        signals.push(signal)
    }
}

/// The signals once `commands` were carried out in order.
pub open spec fn signalled(signals: Seq<u64>, commands: Seq<Command>) -> Seq<u64>
    decreases commands.len(),
{
    if commands.len() == 0 {
        signals
    } else {
        let before = signalled(signals, commands.drop_last());
        match commands.last() {
            Command::Ready(s) => raised(before, s),
            _ => before,
        }
    }
}

/// A task is there after a command when it was there before, or is the one
/// spawned.
proof fn lemma_carried_tasks(s: WorldState, c: Command, id: TaskId)
    requires
        ids_apart(s.tasks),
        task_index(s.tasks, id) is None,
        c matches Command::Spawn(r) ==> r.id != id,
    ensures
        task_index(carried_out(s, c).tasks, id) is None,
{
    match c {
        Command::Wake(w) => {
            if w.task.0 != 0 && is_parked(s.tasks, w.task, w.token) {
                let i = task_index(s.tasks, w.task)->0;
                lemma_task_found(s.tasks, w.task);
                lemma_update_index(
                    s.tasks,
                    i,
                    TaskRecord {
                        run_state: RunState::Runnable,
                        resume_cause: ResumeCause::Notified,
                        ..s.tasks[i]
                    },
                    id,
                );
            }
        },
        Command::Spawn(r) => {
            assert(s.tasks.push(r).drop_last() =~= s.tasks);
        },
        _ => {},
    }
}

/// Changing a record but not its id moves no task.
pub proof fn lemma_update_index(tasks: Seq<TaskRecord>, i: int, record: TaskRecord, id: TaskId)
    requires
        0 <= i < tasks.len(),
        record.id == tasks[i].id,
    ensures
        task_index(tasks.update(i, record), id) == task_index(tasks, id),
    decreases tasks.len(),
{
    let now = tasks.update(i, record);
    if i == tasks.len() - 1 {
        assert(now.drop_last() =~= tasks.drop_last());
    } else {
        assert(now.drop_last() =~= tasks.drop_last().update(i, record));
        lemma_update_index(tasks.drop_last(), i, record, id);
    }
}

/// What a turn does with a task.
#[derive(Clone, Copy, Debug, PartialEq, Eq, Structural)]
pub enum TurnStep {
    /// Nobody is ready.
    Idle,
    /// The task was not runnable after all.
    Skipped(TaskId),
    /// Resume it; `fresh` runs the hooks of a first turn before.
    Run { id: TaskId, cause: ResumeCause, fresh: bool },
}

impl World {
    /// Carry out what other threads asked for, in order.
    pub fn drain_commands(&mut self, reg: &mut WaitRegistry)
        requires
            old(self).inv(),
            old(reg).inv(),
            spawns_ok(old(self).tasks@, old(self).mailbox@),
        ensures
            final(self).inv(),
            final(reg).inv(),
            final(reg).next_token == old(reg).next_token,
            final(self).mailbox@.len() == 0,
            final(self).id == old(self).id,
            final(self).assigned == old(self).assigned,
            final(self).active == old(self).active,
            final(self).main_depth == old(self).main_depth,
            final(self).state(final(reg)) == drained(
                old(self).state(old(reg)),
                old(self).mailbox@,
            ),
            final(self).signals@ == signalled(old(self).signals@, old(self).mailbox@),
    {
        let mut commands: Vec<Command> = Vec::new();
        commands.append(&mut self.mailbox);
        let ghost all = old(self).mailbox@;
        assert(commands@ =~= all);
        let ghost start = old(self).state(old(reg));
        let mut i: usize = 0;
        assert(all.take(0) =~= Seq::<Command>::empty());
        while i < commands.len()
            invariant
                i <= commands.len(),
                commands@ == all,
                spawns_ok(old(self).tasks@, all),
                start == old(self).state(old(reg)),
                self.inv(),
                reg.inv(),
                reg.next_token == old(reg).next_token,
                self.mailbox@.len() == 0,
                self.id == old(self).id,
                self.assigned == old(self).assigned,
                self.active == old(self).active,
                self.main_depth == old(self).main_depth,
                self.state(reg) == drained(start, all.take(i as int)),
                self.signals@ == signalled(old(self).signals@, all.take(i as int)),
                forall|j: int|
                    i <= j < all.len() ==> (#[trigger] all[j] matches Command::Spawn(r)
                        ==> task_index(self.tasks@, r.id) is None),
            decreases commands.len() - i,
        {
            assert(all.take(i + 1).drop_last() =~= all.take(i as int));
            let ghost before = self.state(reg);
            let c: Command = commands[i];
            match c {
                Command::Wake(w) => {
                    let _woke: bool = self.wake_claimed(reg, w);
                },
                Command::Spawn(r) => {
                    assert(all[i as int] == c);
                    self.install(r);
                },
                Command::Ready(s) => {
                    self.note_signal(s);
                },
                Command::Park => {},
            }
            proof {
                assert(self.state(reg) == carried_out(before, c));
                assert forall|j: int| i + 1 <= j < all.len() implies (
                #[trigger] all[j] matches Command::Spawn(r) ==> task_index(
                    self.tasks@,
                    r.id,
                ) is None) by {
                    match all[j] {
                        Command::Spawn(r) => {
                            let _ = all[i as int];
                            lemma_carried_tasks(before, c, r.id);
                        },
                        _ => {},
                    }
                }
            }
            i = i + 1;
        }
        assert(all.take(i as int) =~= all);
    }

    /// A source's signal was raised; raises before it is handled fold into one.
    fn note_signal(&mut self, signal: u64)
        requires
            old(self).inv(),
        ensures
            final(self).inv(),
            final(self).tasks == old(self).tasks,
            final(self).ready == old(self).ready,
            final(self).timers == old(self).timers,
            final(self).mailbox == old(self).mailbox,
            final(self).id == old(self).id,
            final(self).assigned == old(self).assigned,
            final(self).active == old(self).active,
            final(self).main_depth == old(self).main_depth,
            final(self).signals@ == raised(old(self).signals@, signal),
    {
        let mut i: usize = 0;
        while i < self.signals.len()
            invariant
                *self == *old(self),
                old(self).inv(),
                i <= self.signals.len(),
                forall|k: int| 0 <= k < i ==> self.signals@[k] != signal,
            decreases self.signals.len() - i,
        {
            if self.signals[i] == signal {
                assert(self.signals@[i as int] == signal);
                return ;
            }
            i = i + 1;
        }
        self.signals.push(signal);
    }

    /// What a step begins with: the commands, the timers due at `now`, and how
    /// many turns it has. From a task there is none: a task yields.
    pub fn schedule_step(&mut self, reg: &mut WaitRegistry, now: u64) -> (turns: usize)
        requires
            old(self).inv(),
            old(reg).inv(),
            spawns_ok(old(self).tasks@, old(self).mailbox@),
        ensures
            final(self).inv(),
            final(reg).inv(),
            final(reg).next_token == old(reg).next_token,
            old(self).active is Some ==> turns == 0 && *final(self) == *old(self)
                && final(reg).entries@ == old(reg).entries@,
            old(self).active is None ==> {
                &&& final(self).mailbox@.len() == 0
                &&& final(self).active is None
                &&& final(self).id == old(self).id
                &&& final(self).assigned == old(self).assigned
                &&& final(self).main_depth == old(self).main_depth
                &&& final(self).signals@ == signalled(old(self).signals@, old(self).mailbox@)
                &&& final(self).state(final(reg)) == fired(
                    drained(old(self).state(old(reg)), old(self).mailbox@),
                    now,
                )
                &&& turns == final(self).ready@.len()
            },
    {
        if self.active.is_some() {
            return 0;
        }
        self.drain_commands(reg);
        self.wake_due_timers(reg, now);
        self.ready.len()
    }

    /// Take the next task off the queue and begin its turn, if it is runnable.
    pub fn next_turn(&mut self) -> (r: TurnStep)
        requires
            old(self).inv(),
            old(self).active is None,
        ensures
            final(self).inv(),
            final(self).id == old(self).id,
            final(self).timers == old(self).timers,
            final(self).mailbox == old(self).mailbox,
            final(self).assigned == old(self).assigned,
            final(self).main_depth == old(self).main_depth,
            final(self).signals == old(self).signals,
            match r {
                TurnStep::Idle => old(self).ready@.len() == 0 && *final(self) == *old(self),
                TurnStep::Skipped(id) => {
                    &&& old(self).ready@.len() > 0
                    &&& id == old(self).ready@[0]
                    &&& !(task_index(old(self).tasks@, id) matches Some(i) && old(
                        self,
                    ).tasks@[i].run_state == RunState::Runnable)
                    &&& final(self).ready@ == old(self).ready@.drop_first()
                    &&& final(self).tasks@ == old(self).tasks@
                    &&& final(self).active is None
                },
                TurnStep::Run { id, cause, fresh } => {
                    &&& old(self).ready@.len() > 0
                    &&& id == old(self).ready@[0]
                    &&& task_index(old(self).tasks@, id) matches Some(i) && {
                        let was = old(self).tasks@[i];
                        &&& was.run_state == RunState::Runnable
                        &&& cause == was.resume_cause
                        &&& fresh == was.fresh
                        &&& final(self).tasks@ == old(self).tasks@.update(
                            i,
                            TaskRecord {
                                run_state: RunState::Running,
                                resume_cause: ResumeCause::Scheduled,
                                fresh: false,
                                ..was
                            },
                        )
                        &&& final(self).active == Some(
                            ActiveTask {
                                id,
                                resume_cause: cause,
                                pending_park: None,
                                blocking_depth: was.blocking_depth,
                                can_suspend: was.can_suspend,
                            },
                        )
                    }
                    &&& final(self).ready@ == old(self).ready@.drop_first()
                },
            },
    {
        if self.ready.len() == 0 {
            return TurnStep::Idle;
        }
        let ghost queue = self.ready@;
        let ghost was = self.tasks@;
        let id: TaskId = self.ready.remove(0);
        proof {
            assert(self.ready@ =~= queue.drop_first());
            assert(self.ready@.no_duplicates());
            assert forall|t: TaskId| queue.contains(t) && t != id implies self.ready@.contains(
                t,
            ) by {
                let k = choose|k: int| 0 <= k < queue.len() && queue[k] == t;
                assert(self.ready@[k - 1] == t);
            }
        }
        match self.position(id) {
            Some(i) => {
                let record: TaskRecord = self.tasks[i];
                if record.run_state != RunState::Runnable {
                    assert forall|k: int|
                        0 <= k < was.len() && (#[trigger] was[k]).run_state
                            == RunState::Runnable implies self.ready@.contains(was[k].id) by {
                        if k < i {
                            assert(was[k].id != was[i as int].id);
                        }
                        if i < k {
                            assert(was[i as int].id != was[k].id);
                        }
                    }
                    return TurnStep::Skipped(id);
                }
                self.tasks.set(
                    i,
                    TaskRecord {
                        run_state: RunState::Running,
                        resume_cause: ResumeCause::Scheduled,
                        fresh: false,
                        ..record
                    },
                );
                self.active = Some(
                    ActiveTask {
                        id,
                        resume_cause: record.resume_cause,
                        pending_park: None,
                        blocking_depth: record.blocking_depth,
                        can_suspend: record.can_suspend,
                    },
                );
                proof {
                    let now = self.tasks@;
                    assert forall|a: int, b: int|
                        #![trigger now[a], now[b]]
                        0 <= a < b < now.len() implies now[a].id != now[b].id by {
                        let _ = was[a];
                        let _ = was[b];
                    }
                    assert forall|k: int|
                        0 <= k < now.len() && (#[trigger] now[k]).run_state
                            == RunState::Runnable implies self.ready@.contains(now[k].id) by {
                        assert(now[k] == was[k]);
                        if k < i {
                            assert(was[k].id != was[i as int].id);
                        }
                        if i < k {
                            assert(was[i as int].id != was[k].id);
                        }
                    }
                    assert forall|k: int|
                        0 <= k < now.len() && (#[trigger] now[k]).run_state
                            == RunState::Running implies (self.active matches Some(a) && a.id
                        == now[k].id) by {
                        if k != i {
                            assert(now[k] == was[k]);
                        }
                    }
                    assert forall|k: int| 0 <= k < now.len() implies (
                    #[trigger] now[k]).id.0 != 0 by {
                        let _ = was[k];
                    }
                }
                TurnStep::Run { id, cause: record.resume_cause, fresh: record.fresh }
            },
            None => {
                assert forall|k: int|
                    0 <= k < was.len() && (#[trigger] was[k]).run_state
                        == RunState::Runnable implies self.ready@.contains(was[k].id) by {
                    if was[k].id == id {
                        lemma_some_index(was, k);
                    }
                }
                TurnStep::Skipped(id)
            },
        }
    }

    /// End the running task's turn. A task that is over leaves; a recorded wait
    /// parks it whatever it returned; otherwise it is ready again, since
    /// nothing could wake it. True when it left.
    pub fn end_turn(&mut self, suspension: Suspension) -> (left: bool)
        requires
            old(self).inv(),
            old(self).active is Some,
        ensures
            final(self).inv(),
            final(self).active is None,
            final(self).id == old(self).id,
            final(self).mailbox == old(self).mailbox,
            final(self).main_depth == old(self).main_depth,
            final(self).signals == old(self).signals,
            ended(old(self), final(self), old(self).active->0, suspension),
            left == (suspension is Completed && task_index(
                old(self).tasks@,
                (old(self).active->0).id,
            ) is Some),
    {
        let active: ActiveTask = match self.active {
            Some(a) => a,
            None => {
                return false;
            },
        };
        let ghost was = self.tasks@;
        let found: Option<usize> = self.position(active.id);
        self.active = None;
        let i: usize = match found {
            Some(i) => i,
            None => {
                assert forall|k: int|
                    0 <= k < was.len() && (#[trigger] was[k]).run_state
                        == RunState::Running implies false by {
                    lemma_some_index(was, k);
                }
                return false;
            },
        };
        proof {
            assert forall|k: int| 0 <= k < was.len() && k != i implies (#[trigger] was[k]).id
                != active.id && was[k].run_state != RunState::Running by {
                if k < i {
                    assert(was[k].id != was[i as int].id);
                } else {
                    assert(was[i as int].id != was[k].id);
                }
            }
        }
        let record: TaskRecord = self.tasks[i];
        match suspension {
            Suspension::Completed => {
                if self.assigned > 0 {
                    self.assigned = self.assigned - 1;
                }
                let _gone: TaskRecord = self.tasks.remove(i);
                proof {
                    let now = self.tasks@;
                    assert forall|a: int, b: int|
                        #![trigger now[a], now[b]]
                        0 <= a < b < now.len() implies now[a].id != now[b].id by {
                        let oa = if a < i { a } else { a + 1 };
                        let ob = if b < i { b } else { b + 1 };
                        assert(now[a] == was[oa] && now[b] == was[ob]);
                    }
                    assert forall|k: int| 0 <= k < now.len() implies (
                    #[trigger] now[k]).run_state != RunState::Running && now[k].id.0 != 0 && (
                    now[k].run_state == RunState::Runnable ==> self.ready@.contains(
                        now[k].id,
                    )) by {
                        let o = if k < i { k } else { k + 1 };
                        assert(now[k] == was[o]);
                    }
                }
                true
            },
            _ => {
                match active.pending_park {
                    Some(request) => {
                        self.tasks.set(
                            i,
                            TaskRecord {
                                run_state: RunState::Waiting(request.waiter.token),
                                blocking_depth: active.blocking_depth,
                                ..record
                            },
                        );
                        if let Some(deadline) = request.deadline {
                            self.timers.push(
                                Timer { deadline, token: request.waiter.token, task: active.id },
                            );
                        }
                    },
                    None => {
                        self.tasks.set(
                            i,
                            TaskRecord {
                                run_state: RunState::Runnable,
                                blocking_depth: active.blocking_depth,
                                ..record
                            },
                        );
                        self.enqueue_ready(active.id);
                    },
                }
                proof {
                    let now = self.tasks@;
                    assert forall|a: int, b: int|
                        #![trigger now[a], now[b]]
                        0 <= a < b < now.len() implies now[a].id != now[b].id by {
                        let _ = was[a];
                        let _ = was[b];
                    }
                    assert forall|k: int| 0 <= k < now.len() implies (
                    #[trigger] now[k]).run_state != RunState::Running && now[k].id.0 != 0 && (
                    now[k].run_state == RunState::Runnable ==> self.ready@.contains(
                        now[k].id,
                    )) by {
                        let _ = was[k];
                    }
                }
                false
            },
        }
    }

    // The running task.

    /// The running task, or the main context.
    pub fn current_task(&self) -> (t: TaskId)
        ensures
            t == match self.active {
                Some(a) => a.id,
                None => TaskId(0),
            },
    {
        match self.active {
            Some(a) => a.id,
            None => TaskId::none(),
        }
    }

    pub fn is_on_task(&self) -> (r: bool)
        ensures
            r == (self.active is Some),
    {
        self.active.is_some()
    }

    /// Why the running task was resumed; `Scheduled` off a task.
    pub fn resume_cause(&self) -> (c: ResumeCause)
        ensures
            c == match self.active {
                Some(a) => a.resume_cause,
                None => ResumeCause::Scheduled,
            },
    {
        match self.active {
            Some(a) => a.resume_cause,
            None => ResumeCause::Scheduled,
        }
    }

    /// Tasks alive on this world.
    pub fn live_tasks(&self) -> (n: usize)
        ensures
            n == self.tasks@.len(),
    {
        self.tasks.len()
    }

    /// Whether `id` is a task of this world that has not finished. The main
    /// context always exists.
    pub fn task_exists(&self, id: TaskId) -> (r: bool)
        requires
            ids_apart(self.tasks@),
        ensures
            r == (id.0 == 0 || task_index(self.tasks@, id) is Some),
    {
        if !id.is_task() {
            return true;
        }
        self.position(id).is_some()
    }

    /// Whether the running task has a park recorded for when it yields.
    pub fn park_pending(&self) -> (r: bool)
        ensures
            r == (self.active matches Some(a) && a.pending_park is Some),
    {
        match self.active {
            Some(a) => a.pending_park.is_some(),
            None => false,
        }
    }

    /// Leave a park request on the running task without yielding; it is parked
    /// when its step returns. Whether the task can suspend from inside, i.e.
    /// whether a blocking park would have worked; false off a task.
    pub fn request_park(&mut self, waiter: Waiter, deadline: Option<u64>) -> (r: bool)
        requires
            old(self).inv(),
        ensures
            final(self).inv(),
            r == (old(self).active matches Some(a) && a.can_suspend),
            final(self).active == match old(self).active {
                Some(a) => Some(
                    ActiveTask { pending_park: Some(ParkRequest { waiter, deadline }), ..a },
                ),
                None => None,
            },
            final(self).same_but_active(old(self)),
    {
        match self.active {
            Some(a) => {
                self.active = Some(
                    ActiveTask { pending_park: Some(ParkRequest { waiter, deadline }), ..a },
                );
                a.can_suspend
            },
            None => false,
        }
    }

    /// Take back the running task's park request: it waits in place instead.
    pub fn clear_pending_park(&mut self)
        requires
            old(self).inv(),
        ensures
            final(self).inv(),
            final(self).active == match old(self).active {
                Some(a) => Some(ActiveTask { pending_park: None, ..a }),
                None => None,
            },
            final(self).same_but_active(old(self)),
    {
        if let Some(a) = self.active {
            self.active = Some(ActiveTask { pending_park: None, ..a });
        }
    }

    fn set_blocking(&mut self, blocking: bool) -> (changed: bool)
        requires
            old(self).inv(),
        ensures
            final(self).inv(),
            changed == (blocking || old(self).depth() > 0),
            final(self).depth() == depth_after(old(self).depth(), blocking),
            final(self).depth_only(old(self)),
    {
        match self.active {
            Some(a) => {
                let mut depth: u32 = a.blocking_depth;
                let changed: bool = update_blocking_depth(&mut depth, blocking);
                self.active = Some(ActiveTask { blocking_depth: depth, ..a });
                changed
            },
            None => {
                let mut depth: u32 = self.main_depth;
                let changed: bool = update_blocking_depth(&mut depth, blocking);
                self.main_depth = depth;
                changed
            },
        }
    }

    /// Everything but the running task's own account is as in `before`.
    pub open spec fn same_but_active(&self, before: &World) -> bool {
        &&& self.id == before.id
        &&& self.tasks == before.tasks
        &&& self.ready == before.ready
        &&& self.timers == before.timers
        &&& self.mailbox == before.mailbox
        &&& self.assigned == before.assigned
        &&& self.main_depth == before.main_depth
        &&& self.signals == before.signals
    }

    /// Nothing but the caller's depth differs from `before`.
    pub open spec fn depth_only(&self, before: &World) -> bool {
        &&& self.id == before.id
        &&& self.tasks == before.tasks
        &&& self.ready == before.ready
        &&& self.timers == before.timers
        &&& self.mailbox == before.mailbox
        &&& self.assigned == before.assigned
        &&& self.signals == before.signals
        &&& match before.active {
            Some(a) => self.main_depth == before.main_depth && self.active == Some(
                ActiveTask { blocking_depth: self.depth(), ..a },
            ),
            None => self.active is None,
        }
    }

    /// How many native sections that may block the caller is in: the running
    /// task's, or the main context's.
    pub open spec fn depth(&self) -> u32 {
        match self.active {
            Some(a) => a.blocking_depth,
            None => self.main_depth,
        }
    }

    /// Enter a native section that may block without polling. Counted per task,
    /// and per thread for the main context, so nested sections balance.
    pub fn enter_blocking(&mut self) -> (changed: bool)
        requires
            old(self).inv(),
        ensures
            final(self).inv(),
            changed,
            final(self).depth() == depth_after(old(self).depth(), true),
            final(self).depth_only(old(self)),
    {
        self.set_blocking(true)
    }

    /// Leave the innermost blocking section. False if none was open.
    pub fn leave_blocking(&mut self) -> (changed: bool)
        requires
            old(self).inv(),
        ensures
            final(self).inv(),
            changed == (old(self).depth() > 0),
            final(self).depth() == depth_after(old(self).depth(), false),
            final(self).depth_only(old(self)),
    {
        self.set_blocking(false)
    }

    pub fn is_blocking(&self) -> (r: bool)
        ensures
            r == (self.depth() != 0),
    {
        match self.active {
            Some(a) => a.blocking_depth != 0,
            None => self.main_depth != 0,
        }
    }

    /// When an idle world has to wake: at the deadline or the next timer,
    /// whichever is first.
    pub open spec fn wakes_at(&self, deadline: Option<u64>) -> Option<u64> {
        match (deadline, self.first_timer()) {
            (Some(a), Some(b)) => Some(
                if a < b {
                    a
                } else {
                    b
                },
            ),
            (Some(a), None) => Some(a),
            (None, b) => b,
        }
    }

    /// How long an idle world may sleep, in nanoseconds: until it has to wake;
    /// not at all while there are commands. Without threads nobody can leave a
    /// command meanwhile, and the wait is a short nap.
    pub fn scheduler_idle(&self, deadline: Option<u64>, now: u64, platform: Platform) -> (r: Idle)
        ensures
            r == if !platform.threaded() {
                Idle::Nap(
                    match self.wakes_at(deadline) {
                        Some(at) => if at <= now {
                            0
                        } else if at - now < NAP {
                            (at - now) as u64
                        } else {
                            NAP
                        },
                        None => NAP,
                    },
                )
            } else if self.mailbox@.len() > 0 {
                Idle::Busy
            } else {
                match self.wakes_at(deadline) {
                    Some(at) => Idle::Until(at),
                    None => Idle::Forever,
                }
            },
    {
        let wakes: Option<u64> = match (deadline, self.next_timer()) {
            (Some(a), Some(b)) => if a < b {
                Some(a)
            } else {
                Some(b)
            },
            (Some(a), None) => Some(a),
            (None, b) => b,
        };
        if !platform.has_threads() {
            let nap: u64 = match wakes {
                Some(at) => if at <= now {
                    0
                } else if at - now < NAP {
                    at - now
                } else {
                    NAP
                },
                None => NAP,
            };
            return Idle::Nap(nap);
        }
        if self.mailbox.len() > 0 {
            return Idle::Busy;
        }
        match wakes {
            Some(at) => Idle::Until(at),
            None => Idle::Forever,
        }
    }

    /// When the next timer is due.
    pub open spec fn first_timer(&self) -> Option<u64> {
        if self.timers@.len() == 0 {
            None
        } else {
            Some(self.timers@[earliest(self.timers@)].deadline)
        }
    }

    /// This world's id.
    pub fn world_id(&self) -> (id: u64)
        ensures
            id == self.id,
    {
        self.id
    }

    /// What a driver that runs turns until no task is ready does after one:
    /// another, where some task ran and the deadline has not passed; else it is
    /// done, and says whether the world still holds live tasks. A task yields
    /// once instead, and is done when it has `yielded`.
    pub fn tick(&self, yielded: bool, resumed: bool, past_deadline: bool) -> (r: Tick)
        ensures
            r == if self.active is Some && !yielded {
                Tick::Yield
            } else if self.active is None && resumed && !past_deadline {
                Tick::Again
            } else {
                Tick::Done(self.tasks@.len() != 0)
            },
    {
        if self.active.is_some() {
            if yielded {
                Tick::Done(self.tasks.len() != 0)
            } else {
                Tick::Yield
            }
        } else if resumed && !past_deadline {
            Tick::Again
        } else {
            Tick::Done(self.tasks.len() != 0)
        }
    }

    /// What the scheduler's safepoint comes to, once the collector had its
    /// chance: nothing while no task is alive anywhere; a task yields; the main
    /// context advances each ready task once.
    pub fn poll(&self, any_live: bool) -> (r: Poll)
        ensures
            r == if !any_live {
                Poll::Nothing
            } else if self.active is Some {
                Poll::Yield
            } else {
                Poll::Step
            },
    {
        if !any_live {
            Poll::Nothing
        } else if self.active.is_some() {
            Poll::Yield
        } else {
            Poll::Step
        }
    }

    /// What giving up the rest of a turn comes to.
    pub fn yield_now(&self) -> (r: Yield)
        ensures
            r == match self.active {
                Some(a) => if a.can_suspend {
                    Yield::Suspend
                } else {
                    Yield::Nothing
                },
                None => Yield::Turn,
            },
    {
        match self.active {
            Some(a) => if a.can_suspend {
                Yield::Suspend
            } else {
                Yield::Nothing
            },
            None => Yield::Turn,
        }
    }
}

/// What an idle world does.
#[derive(Clone, Copy, Debug, PartialEq, Eq, Structural)]
pub enum Idle {
    /// There are commands.
    Busy,
    Until(u64),
    Forever,
    /// Sleep this long, without threads to be woken by.
    Nap(u64),
}

/// The longest nap, in nanoseconds.
pub const NAP: u64 = 1000000;

/// What a driver does next.
#[derive(Clone, Copy, Debug, PartialEq, Eq, Structural)]
pub enum Tick {
    Yield,
    Again,
    /// Whether tasks are left.
    Done(bool),
}

/// What a safepoint comes to.
#[derive(Clone, Copy, Debug, PartialEq, Eq, Structural)]
pub enum Poll {
    Nothing,
    Yield,
    Step,
}

/// What a yield comes to.
#[derive(Clone, Copy, Debug, PartialEq, Eq, Structural)]
pub enum Yield {
    /// Back to the world, through the task's own switch.
    Suspend,
    /// A task that suspends only by returning from its step.
    Nothing,
    /// The main context: one turn for the others.
    Turn,
}

proof fn lemma_some_index(tasks: Seq<TaskRecord>, k: int)
    requires
        0 <= k < tasks.len(),
    ensures
        task_index(tasks, tasks[k].id) is Some,
    decreases tasks.len(),
{
    if tasks.last().id != tasks[k].id {
        assert(tasks.drop_last()[k] == tasks[k]);
        lemma_some_index(tasks.drop_last(), k);
    }
}

/// What becomes of the task whose turn ends.
pub open spec fn ended(
    before: &World,
    after: &World,
    active: ActiveTask,
    suspension: Suspension,
) -> bool {
    match task_index(before.tasks@, active.id) {
        None => after.tasks@ == before.tasks@ && after.ready@ == before.ready@ && after.timers@
            == before.timers@ && after.assigned == before.assigned,
        Some(i) => {
            let was = before.tasks@[i];
            match suspension {
                Suspension::Completed => {
                    &&& after.tasks@ == before.tasks@.remove(i)
                    &&& after.ready@ == before.ready@
                    &&& after.timers@ == before.timers@
                    &&& after.assigned == if before.assigned > 0 {
                        before.assigned - 1
                    } else {
                        0
                    }
                },
                _ => {
                    &&& after.assigned == before.assigned
                    &&& match active.pending_park {
                        Some(request) => {
                            &&& after.tasks@ == before.tasks@.update(
                                i,
                                TaskRecord {
                                    run_state: RunState::Waiting(request.waiter.token),
                                    blocking_depth: active.blocking_depth,
                                    ..was
                                },
                            )
                            &&& after.ready@ == before.ready@
                            &&& after.timers@ == match request.deadline {
                                Some(deadline) => before.timers@.push(
                                    Timer {
                                        deadline,
                                        token: request.waiter.token,
                                        task: active.id,
                                    },
                                ),
                                None => before.timers@,
                            }
                        },
                        None => {
                            &&& after.tasks@ == before.tasks@.update(
                                i,
                                TaskRecord {
                                    run_state: RunState::Runnable,
                                    blocking_depth: active.blocking_depth,
                                    ..was
                                },
                            )
                            &&& after.ready@ == enqueued(before.ready@, active.id)
                            &&& after.timers@ == before.timers@
                        },
                    }
                },
            }
        },
    }
}

impl World {
    /// Leave a command for the world's next step.
    pub fn push(&mut self, command: Command)
        requires
            old(self).inv(),
        ensures
            final(self).inv(),
            final(self).mailbox@ == old(self).mailbox@.push(command),
            final(self).rest_same(old(self)),
            final(self).tasks == old(self).tasks,
            final(self).ready == old(self).ready,
            final(self).timers == old(self).timers,
    {
        self.mailbox.push(command);
    }

    /// Notify a waiter of this world: false if it was already notified, timed
    /// out or finished. The world hears of it at its next step.
    pub fn wake(&mut self, reg: &mut WaitRegistry, waiter: Waiter) -> (r: bool)
        requires
            old(self).inv(),
            old(reg).inv(),
            waiter.world == old(self).id,
        ensures
            final(self).inv(),
            final(reg).inv(),
            final(reg).next_token == old(reg).next_token,
            final(self).rest_same(old(self)),
            final(self).tasks == old(self).tasks,
            final(self).ready == old(self).ready,
            final(self).timers == old(self).timers,
            r == (wait_of(old(reg).entries@, waiter.token) == Some(
                WaitEntry { waiter, status: WaitStatus::Waiting },
            )),
            final(self).mailbox@ == if r && waiter.world != 0 {
                old(self).mailbox@.push(Command::Wake(waiter))
            } else {
                old(self).mailbox@
            },
            r ==> with_wait(
                old(reg).entries@,
                final(reg).entries@,
                WaitEntry { waiter, status: WaitStatus::Notified },
            ),
            !r ==> final(reg).entries@ == old(reg).entries@,
    {
        if !reg.claim_notification(waiter) {
            return false;
        }
        if waiter.world != 0 {
            self.mailbox.push(Command::Wake(waiter));
        }
        true
    }

    /// Take the signals raised since the last turn, each once.
    pub fn take_signals(&mut self) -> (raised: Vec<u64>)
        requires
            old(self).inv(),
        ensures
            final(self).inv(),
            raised@ == old(self).signals@,
            final(self).signals@.len() == 0,
            final(self).tasks == old(self).tasks,
            final(self).ready == old(self).ready,
            final(self).timers == old(self).timers,
            final(self).mailbox == old(self).mailbox,
            final(self).active == old(self).active,
            final(self).id == old(self).id,
            final(self).assigned == old(self).assigned,
            final(self).main_depth == old(self).main_depth,
    {
        let mut raised: Vec<u64> = Vec::new();
        raised.append(&mut self.signals);
        assert(raised@ =~= old(self).signals@);
        raised
    }

    /// How many tasks go with the world: its own, and those still to spawn.
    pub fn tasks_left(&self) -> (n: usize)
        requires
            self.tasks@.len() + self.mailbox@.len() <= usize::MAX,
        ensures
            n == self.tasks@.len() + spawns(self.mailbox@),
    {
        let mut n: usize = self.tasks.len();
        let mut i: usize = 0;
        assert(self.mailbox@.take(0) =~= Seq::<Command>::empty());
        while i < self.mailbox.len()
            invariant
                i <= self.mailbox.len(),
                n == self.tasks@.len() + spawns(self.mailbox@.take(i as int)),
                spawns(self.mailbox@.take(i as int)) <= i,
                self.tasks@.len() + self.mailbox@.len() <= usize::MAX,
            decreases self.mailbox.len() - i,
        {
            assert(self.mailbox@.take(i + 1).drop_last() =~= self.mailbox@.take(i as int));
            if let Command::Spawn(_) = self.mailbox[i] {
                n = n + 1;
            }
            i = i + 1;
        }
        assert(self.mailbox@.take(i as int) =~= self.mailbox@);
        n
    }
}

/// How many of the commands spawn a task.
pub open spec fn spawns(commands: Seq<Command>) -> nat
    decreases commands.len(),
{
    if commands.len() == 0 {
        0
    } else {
        spawns(commands.drop_last()) + if commands.last() is Spawn {
            1nat
        } else {
            0
        }
    }
}

/// Notify a waiter that no world can be told of. A thread that owns no world
/// polls the registry; the wait of one whose world is gone is closed.
pub fn wake(reg: &mut WaitRegistry, waiter: Waiter) -> (r: bool)
    requires
        old(reg).inv(),
    ensures
        final(reg).inv(),
        final(reg).next_token == old(reg).next_token,
        ({
            let won = wait_of(old(reg).entries@, waiter.token) == Some(
                WaitEntry { waiter, status: WaitStatus::Waiting },
            );
            &&& r == (won && waiter.world == 0)
            &&& r ==> with_wait(
                old(reg).entries@,
                final(reg).entries@,
                WaitEntry { waiter, status: WaitStatus::Notified },
            )
            &&& won && !r ==> without_wait(old(reg).entries@, final(reg).entries@, waiter.token)
            &&& !won ==> final(reg).entries@ == old(reg).entries@
        }),
{
    if !reg.claim_notification(waiter) {
        return false;
    }
    if waiter.world == 0 {
        return true;
    }
    let _was: Option<WaitStatus> = reg.finish_wait(waiter.token);
    false
}

/// Whether the task `id` is ready because it was notified.
pub open spec fn is_notified(s: WorldState, id: TaskId) -> bool {
    &&& task_index(s.tasks, id) matches Some(i) && s.tasks[i].run_state == RunState::Runnable
        && s.tasks[i].resume_cause == ResumeCause::Notified
    &&& s.ready.contains(id)
}

proof fn lemma_ready_stays(ready: Seq<TaskId>, added: TaskId, id: TaskId)
    requires
        ready.contains(id) || added == id,
    ensures
        enqueued(ready, added).contains(id),
{
    if !ready.contains(added) {
        if ready.contains(id) {
            let k = choose|k: int| 0 <= k < ready.len() && ready[k] == id;
            assert(ready.push(added)[k] == id);
        } else {
            assert(ready.push(added)[ready.len() as int] == id);
        }
    }
}

/// One command keeps a parked task parked or makes it ready, and keeps a ready
/// one ready.
proof fn lemma_command_keeps(s: WorldState, c: Command, waiter: Waiter)
    requires
        waiter.task.0 != 0,
        is_parked(s.tasks, waiter.task, waiter.token) || is_notified(s, waiter.task),
        c matches Command::Spawn(r) ==> r.id != waiter.task,
    ensures
        ({
            let after = carried_out(s, c);
            is_notified(after, waiter.task) || (is_parked(after.tasks, waiter.task, waiter.token)
                && !is_notified(s, waiter.task) && c != Command::Wake(waiter))
        }),
{
    lemma_task_found(s.tasks, waiter.task);
    match c {
        Command::Wake(w) => {
            if w.task.0 != 0 && is_parked(s.tasks, w.task, w.token) {
                let i = task_index(s.tasks, w.task)->0;
                lemma_task_found(s.tasks, w.task);
                let now = TaskRecord {
                    run_state: RunState::Runnable,
                    resume_cause: ResumeCause::Notified,
                    ..s.tasks[i]
                };
                lemma_update_index(s.tasks, i, now, waiter.task);
                if is_notified(s, waiter.task) || w.task == waiter.task {
                    lemma_ready_stays(s.ready, w.task, waiter.task);
                }
            }
        },
        Command::Spawn(r) => {
            assert(s.tasks.push(r).drop_last() =~= s.tasks);
            if is_notified(s, waiter.task) {
                lemma_ready_stays(s.ready, r.id, waiter.task);
            }
        },
        _ => {},
    }
}

/// No wake is lost: once a world has carried out its commands, a task that was
/// parked when a wake for it was among them is ready, and knows it was notified.
pub proof fn law_no_wake_is_lost(s: WorldState, commands: Seq<Command>, waiter: Waiter)
    requires
        waiter.task.0 != 0,
        is_parked(s.tasks, waiter.task, waiter.token),
        spawns_ok(s.tasks, commands),
        commands.contains(Command::Wake(waiter)),
    ensures
        is_notified(drained(s, commands), waiter.task),
{
    lemma_wake_arrives(s, commands, waiter);
}

proof fn lemma_wake_arrives(s: WorldState, commands: Seq<Command>, waiter: Waiter)
    requires
        waiter.task.0 != 0,
        is_parked(s.tasks, waiter.task, waiter.token),
        spawns_ok(s.tasks, commands),
    ensures
        ({
            let after = drained(s, commands);
            is_notified(after, waiter.task) || (is_parked(after.tasks, waiter.task, waiter.token)
                && !commands.contains(Command::Wake(waiter)))
        }),
    decreases commands.len(),
{
    if commands.len() > 0 {
        let init = commands.drop_last();
        assert(spawns_ok(s.tasks, init)) by {
            assert forall|i: int| 0 <= i < init.len() implies (
            #[trigger] init[i] matches Command::Spawn(r) ==> r.id.0 != 0 && r.run_state
                == RunState::Runnable && task_index(s.tasks, r.id) is None) by {
                assert(init[i] == commands[i]);
            }
            assert forall|i: int, j: int|
                #![trigger init[i], init[j]]
                0 <= i < j < init.len() implies (init[i] matches Command::Spawn(a) ==> (
            init[j] matches Command::Spawn(b) ==> a.id != b.id)) by {
                assert(init[i] == commands[i] && init[j] == commands[j]);
            }
        }
        lemma_wake_arrives(s, init, waiter);
        let last = commands[commands.len() - 1];
        lemma_command_keeps(drained(s, init), last, waiter);
        if commands.contains(Command::Wake(waiter)) && last != Command::Wake(waiter) {
            let k = choose|k: int|
                0 <= k < commands.len() && commands[k] == Command::Wake(waiter);
            assert(init[k] == Command::Wake(waiter));
        }
    }
}

/// A wake that comes before the task parks is not lost either: once its turn
/// ends, it is parked on the token the wake is for.
pub proof fn law_turn_ends_parked(
    before: &World,
    after: &World,
    active: ActiveTask,
    suspension: Suspension,
)
    requires
        task_index(before.tasks@, active.id) is Some,
        ended(before, after, active, suspension),
        !(suspension is Completed),
    ensures
        match active.pending_park {
            Some(request) => is_parked(after.tasks@, active.id, request.waiter.token),
            None => (task_index(after.tasks@, active.id) matches Some(i)
                && after.tasks@[i].run_state == RunState::Runnable) && after.ready@.contains(
                active.id,
            ),
        },
{
    let i = task_index(before.tasks@, active.id)->0;
    lemma_task_found(before.tasks@, active.id);
    lemma_update_index(before.tasks@, i, after.tasks@[i], active.id);
    if active.pending_park is None {
        lemma_ready_stays(before.ready@, active.id, active.id);
    }
}

/// First come, first served: whatever a turn adds to the queue, a task that
/// waits in it is one place nearer its own.
pub proof fn law_first_come_first_served(ready: Seq<TaskId>, added: Seq<TaskId>, k: int)
    requires
        0 < k < ready.len(),
    ensures
        all_enqueued(ready.drop_first(), added)[k - 1] == ready[k],
        all_enqueued(ready.drop_first(), added).len() >= ready.len() - 1,
    decreases added.len(),
{
    if added.len() > 0 {
        law_first_come_first_served(ready, added.drop_last(), k);
    }
}

/// The queue with all of `added` at its end, but those in it already.
pub open spec fn all_enqueued(ready: Seq<TaskId>, added: Seq<TaskId>) -> Seq<TaskId>
    decreases added.len(),
{
    if added.len() == 0 {
        ready
    } else {
        enqueued(all_enqueued(ready, added.drop_last()), added.last())
    }
}

/// Raises before a source is handled fold into one: its signal is there once,
/// and only if it was raised.
pub proof fn law_raises_fold(signals: Seq<u64>, commands: Seq<Command>, signal: u64)
    requires
        signals.no_duplicates(),
    ensures
        signalled(signals, commands).no_duplicates(),
        signalled(signals, commands).contains(signal) <==> signals.contains(signal)
            || commands.contains(Command::Ready(signal)),
    decreases commands.len(),
{
    if commands.len() > 0 {
        let init = commands.drop_last();
        law_raises_fold(signals, init, signal);
        let before = signalled(signals, init);
        let last = commands[commands.len() - 1];
        if commands.contains(Command::Ready(signal)) {
            let k = choose|k: int|
                0 <= k < commands.len() && commands[k] == Command::Ready(signal);
            if k < init.len() {
                assert(init[k] == commands[k]);
            }
        }
        if init.contains(Command::Ready(signal)) {
            let k = choose|k: int| 0 <= k < init.len() && init[k] == Command::Ready(signal);
            assert(commands[k] == init[k]);
        }
        match last {
            Command::Ready(s) => {
                let after = raised(before, s);
                assert(commands[commands.len() - 1] == Command::Ready(s));
                if !before.contains(s) {
                    assert(after[before.len() as int] == s);
                    if before.contains(signal) {
                        let k = choose|k: int| 0 <= k < before.len() && before[k] == signal;
                        assert(after[k] == signal);
                    }
                    if after.contains(signal) && signal != s {
                        let k = choose|k: int| 0 <= k < after.len() && after[k] == signal;
                        assert(before[k] == signal);
                    }
                }
            },
            _ => {},
        }
    }
}

} // verus!
