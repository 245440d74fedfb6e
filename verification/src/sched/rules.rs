//! What holds of the turns of a world, of its waits, and of where tasks go.

use vstd::prelude::*;

use crate::platform::Platform;
use crate::sched::pool::{
    first_idle, least_from, machine_default, worker_count_of, Setting, WorkerPool,
};
use crate::sched::preempt::next_epoch;
use crate::sched::reactor::{first_world, raised};
use crate::sched::stack::{attached, kind_at, owners_apart, states_of, Attached, Slot};
use crate::sched::task::{
    depth_after, new_record, ResumeCause, RunState, Suspension, TaskId, TaskRecord,
};
use crate::sched::turn::{ended, signalled, spawns};
use crate::sched::wait::{
    lemma_wait_at, lemma_wait_found, tokens_apart, wait_of, with_wait, without_wait, WaitEntry,
};
use crate::sched::world::{enqueued, ids_apart, task_index, ActiveTask, Command, Timer, World};
use crate::text::{trimmed, usize_value};

verus! {

// Tasks.

/// A task is found where it stands, and where none has the id, none is found.
pub proof fn law_a_task_is_found(tasks: Seq<TaskRecord>, id: TaskId, i: int)
    requires
        ids_apart(tasks),
    ensures
        task_index(tasks, id) == Some(i) <==> 0 <= i < tasks.len() && tasks[i].id == id,
        task_index(tasks, id) is None <==> forall|k: int|
            0 <= k < tasks.len() ==> (#[trigger] tasks[k]).id != id,
    decreases tasks.len(),
{
    if tasks.len() > 0 {
        let front = tasks.drop_last();
        assert(ids_apart(front)) by {
            assert forall|a: int, b: int|
                #![trigger front[a], front[b]]
                0 <= a < b < front.len() implies front[a].id != front[b].id by {
                assert(front[a] == tasks[a] && front[b] == tasks[b]);
            }
        }
        law_a_task_is_found(front, id, i);
        let _ = tasks[tasks.len() - 1];
        if 0 <= i < front.len() {
            assert(front[i] == tasks[i]);
        }
        if task_index(tasks, id) is None {
            assert forall|k: int| 0 <= k < tasks.len() implies (#[trigger] tasks[k]).id != id by {
                if k < front.len() {
                    assert(front[k] == tasks[k]);
                }
            }
        } else if tasks.last().id != id {
            let k = choose|k: int| 0 <= k < front.len() && (#[trigger] front[k]).id == id;
            assert(tasks[k].id == id);
        }
    }
}

/// A new task is ready for its first turn, and in no section that blocks.
pub proof fn law_a_new_task_is_ready(id: TaskId, can_suspend: bool)
    ensures
        new_record(id, can_suspend).id == id,
        new_record(id, can_suspend).can_suspend == can_suspend,
        new_record(id, can_suspend).run_state == RunState::Runnable,
        new_record(id, can_suspend).resume_cause == ResumeCause::Scheduled,
        new_record(id, can_suspend).fresh,
        new_record(id, can_suspend).blocking_depth == 0,
{
}

/// A task that is over is no longer there, and its world has one task fewer; the
/// others stay, in their order, and nobody is made ready or given a deadline.
pub proof fn law_a_task_that_is_over_leaves(
    before: &World,
    after: &World,
    active: ActiveTask,
    k: int,
)
    requires
        ids_apart(before.tasks@),
        task_index(before.tasks@, active.id) is Some,
        ended(before, after, active, Suspension::Completed),
    ensures
        after.tasks@.len() == before.tasks@.len() - 1,
        forall|i: int| 0 <= i < after.tasks@.len() ==> (#[trigger] after.tasks@[i]).id != active.id,
        0 <= k < before.tasks@.len() && before.tasks@[k].id != active.id
            ==> after.tasks@.contains(before.tasks@[k]),
        before.assigned > 0 ==> after.assigned == before.assigned - 1,
        after.ready@ == before.ready@,
        after.timers@ == before.timers@,
{
    let at = task_index(before.tasks@, active.id)->0;
    law_a_task_is_found(before.tasks@, active.id, at);
    assert forall|i: int| 0 <= i < after.tasks@.len() implies (#[trigger] after.tasks@[i]).id
        != active.id by {
        if i < at {
            assert(after.tasks@[i] == before.tasks@[i]);
        } else {
            assert(after.tasks@[i] == before.tasks@[i + 1]);
        }
        let _ = before.tasks@[at];
    }
    if 0 <= k < before.tasks@.len() && before.tasks@[k].id != active.id {
        if k < at {
            assert(after.tasks@[k] == before.tasks@[k]);
        } else {
            assert(after.tasks@[k - 1] == before.tasks@[k]);
        }
    }
}

/// A task that parks keeps its depth, is given its deadline if it has one, and is
/// not ready; one that yields comes last of the ready, at no deadline. The other
/// tasks are as they were, and no task leaves.
pub proof fn law_a_turn_is_given_up(
    before: &World,
    after: &World,
    active: ActiveTask,
    suspension: Suspension,
    i: int,
)
    requires
        ids_apart(before.tasks@),
        0 <= i < before.tasks@.len(),
        before.tasks@[i].id == active.id,
        !before.ready@.contains(active.id),
        suspension != Suspension::Completed,
        ended(before, after, active, suspension),
    ensures
        after.assigned == before.assigned,
        after.tasks@.len() == before.tasks@.len(),
        forall|k: int|
            0 <= k < before.tasks@.len() && k != i ==> #[trigger] after.tasks@[k]
                == before.tasks@[k],
        after.tasks@[i].id == active.id,
        after.tasks@[i].blocking_depth == active.blocking_depth,
        after.tasks@[i].can_suspend == before.tasks@[i].can_suspend,
        after.tasks@[i].fresh == before.tasks@[i].fresh,
        match active.pending_park {
            Some(request) => {
                &&& after.tasks@[i].run_state == RunState::Waiting(request.waiter.token)
                &&& after.ready@ == before.ready@
                &&& match request.deadline {
                    Some(deadline) => {
                        &&& after.timers@.len() == before.timers@.len() + 1
                        &&& after.timers@.last() == Timer {
                            deadline,
                            token: request.waiter.token,
                            task: active.id,
                        }
                        &&& after.timers@.drop_last() == before.timers@
                    },
                    None => after.timers@ == before.timers@,
                }
            },
            None => {
                &&& after.tasks@[i].run_state == RunState::Runnable
                &&& after.ready@.len() == before.ready@.len() + 1
                &&& after.ready@.last() == active.id
                &&& after.ready@.drop_last() == before.ready@
                &&& after.timers@ == before.timers@
            },
        },
{
    law_a_task_is_found(before.tasks@, active.id, i);
}

/// Sections nest: entering one is one deeper, leaving one is one shallower, and
/// leaving none changes nothing.
pub proof fn law_sections_nest(depth: u32)
    ensures
        depth < u32::MAX ==> depth_after(depth, true) == depth + 1,
        depth > 0 ==> depth_after(depth, false) == depth - 1,
        depth_after(0, false) == 0,
        depth_after(u32::MAX, true) == u32::MAX,
{
}

/// The tasks still to spawn are the spawns among the commands.
pub proof fn law_spawns_are_counted(commands: Seq<Command>)
    ensures
        spawns(commands) == commands.filter(|c: Command| c is Spawn).len(),
    decreases commands.len(),
{
    reveal(Seq::filter);
    if commands.len() > 0 {
        law_spawns_are_counted(commands.drop_last());
    }
}

/// Signals keep the order in which they were first raised: what was raised before
/// the commands stays in front.
pub proof fn law_signals_keep_their_order(signals: Seq<u64>, commands: Seq<Command>)
    ensures
        signals.len() <= signalled(signals, commands).len() <= signals.len() + commands.len(),
        signalled(signals, commands).take(signals.len() as int) == signals,
    decreases commands.len(),
{
    if commands.len() > 0 {
        law_signals_keep_their_order(signals, commands.drop_last());
        let init = signalled(signals, commands.drop_last());
        assert(signalled(signals, commands).take(signals.len() as int) =~= init.take(
            signals.len() as int,
        ));
    } else {
        assert(signals.take(signals.len() as int) =~= signals);
    }
}

/// Nobody is queued twice, and who was queued keeps the place.
pub proof fn law_nobody_is_queued_twice(ready: Seq<TaskId>, id: TaskId, k: int)
    requires
        ready.no_duplicates(),
        0 <= k < ready.len(),
    ensures
        enqueued(ready, id).no_duplicates(),
        enqueued(ready, id)[k] == ready[k],
        enqueued(ready, id).contains(id),
        ready.contains(id) ==> enqueued(ready, id).len() == ready.len(),
        !ready.contains(id) ==> enqueued(ready, id).last() == id,
{
    if !ready.contains(id) {
        assert(enqueued(ready, id)[ready.len() as int] == id);
    }
}

// Waits.

/// A wait is found by its token.
pub proof fn law_a_wait_is_found(entries: Seq<WaitEntry>, token: u64, e: WaitEntry)
    requires
        tokens_apart(entries),
    ensures
        wait_of(entries, token) == Some(e) <==> entries.contains(e) && e.waiter.token == token,
{
    if wait_of(entries, token) == Some(e) {
        let i = lemma_wait_found(entries, token);
        assert(entries[i] == e);
    }
    if entries.contains(e) && e.waiter.token == token {
        let i = choose|i: int| 0 <= i < entries.len() && entries[i] == e;
        lemma_wait_at(entries, i);
    }
}

/// A wait that was filed is there, in the place of the one with its token, and the
/// others are as they were; one that was taken is gone, and the others are not.
pub proof fn law_waits_change_one_by_one(
    before: Seq<WaitEntry>,
    after: Seq<WaitEntry>,
    entry: WaitEntry,
    e: WaitEntry,
)
    requires
        tokens_apart(before),
        tokens_apart(after),
    ensures
        with_wait(before, after, entry) ==> (after.contains(e) <==> e == entry || (before.contains(
            e,
        ) && e.waiter.token != entry.waiter.token)),
        without_wait(before, after, entry.waiter.token) ==> (after.contains(e) <==> before.contains(
            e,
        ) && e.waiter.token != entry.waiter.token),
{
    law_a_wait_is_found(before, e.waiter.token, e);
    law_a_wait_is_found(after, e.waiter.token, e);
    if with_wait(before, after, entry) {
        assert(wait_of(after, e.waiter.token) == if e.waiter.token == entry.waiter.token {
            Some(entry)
        } else {
            wait_of(before, e.waiter.token)
        });
    }
    if without_wait(before, after, entry.waiter.token) {
        assert(wait_of(after, e.waiter.token) == if e.waiter.token == entry.waiter.token {
            None
        } else {
            wait_of(before, e.waiter.token)
        });
    }
}

// Workers.

/// A worker stays free of the calling core: `n` cores have `n - 1` workers.
pub proof fn law_one_core_is_left(n: usize)
    ensures
        n > 0 ==> machine_default(Some(n)) + 1 == n,
        machine_default(Some(0)) == 0,
        machine_default(None) == 0,
{
}

/// The library's own setting wins, then the other one, then the machine; a setting
/// that is no number is named, and the machine decides.
pub proof fn law_the_first_setting_wins(
    own: Option<Seq<char>>,
    other: Option<Seq<char>>,
    cores: Option<usize>,
)
    ensures
        own is Some ==> {
            let r = worker_count_of(own, other, cores);
            &&& usize_value(trimmed(own->0)) matches Some(n) ==> r.count == n && r.refused is None
            &&& usize_value(trimmed(own->0)) is None ==> r.count == machine_default(cores)
                && r.refused == Some(Setting::CaribouWorkers)
        },
        own is None && other is Some ==> {
            let r = worker_count_of(own, other, cores);
            &&& usize_value(trimmed(other->0)) matches Some(n) ==> r.count == n && r.refused is None
            &&& usize_value(trimmed(other->0)) is None ==> r.count == machine_default(cores)
                && r.refused == Some(Setting::AshWorkers)
        },
        own is None && other is None ==> {
            let r = worker_count_of(own, other, cores);
            r.count == machine_default(cores) && r.refused is None
        },
{
}

/// The first idle worker has no task, and every worker before it has one; there is
/// none exactly when every worker has one.
pub proof fn law_the_first_idle_worker(assigned: Seq<usize>)
    ensures
        match first_idle(assigned) {
            Some(i) => {
                &&& 0 <= i < assigned.len()
                &&& assigned[i] == 0
                &&& forall|k: int| 0 <= k < i ==> #[trigger] assigned[k] > 0
            },
            None => forall|k: int| 0 <= k < assigned.len() ==> #[trigger] assigned[k] > 0,
        },
    decreases assigned.len(),
{
    if assigned.len() > 0 {
        let front = assigned.drop_last();
        law_the_first_idle_worker(front);
        assert forall|k: int| 0 <= k < front.len() implies front[k] == #[trigger] assigned[k] by {}
    }
}

/// The worker a task goes to has no more tasks than any other; where all have the
/// same, the workers take turns.
pub proof fn law_the_least_loaded_is_chosen(
    before: &WorkerPool,
    after: &WorkerPool,
    assigned: Seq<usize>,
    index: usize,
    w: int,
)
    requires
        after.rotated(before, assigned, index),
        0 <= w < assigned.len(),
    ensures
        index < assigned.len(),
        assigned[index as int] <= assigned[w],
        (forall|k: int| 0 <= k < assigned.len() ==> #[trigger] assigned[k] == assigned[w]) ==> index
            == before.next as int % assigned.len() as int,
        before.next < usize::MAX ==> after.next == before.next + 1,
        before.next == usize::MAX ==> after.next == 0,
{
    let n = assigned.len() as int;
    let start = before.next as int % n;
    vstd::arithmetic::div_mod::lemma_mod_bound(before.next as int, n);
    let offset = choose|offset: int| #[trigger]
        least_from(assigned, start, offset) && index == (start + offset) % n;
    vstd::arithmetic::div_mod::lemma_mod_bound(start + offset, n);
    let k = if w >= start {
        w - start
    } else {
        w - start + n
    };
    assert((start + k) % n == w) by {
        if w >= start {
            vstd::arithmetic::div_mod::lemma_small_mod(w as nat, n as nat);
        } else {
            vstd::arithmetic::div_mod::lemma_mod_add_multiples_vanish(w, n);
            vstd::arithmetic::div_mod::lemma_small_mod(w as nat, n as nat);
        }
    }
    assert(assigned[(start + offset) % n] <= assigned[(start + k) % n]);
    if forall|k: int| 0 <= k < assigned.len() ==> #[trigger] assigned[k] == assigned[w] {
        if offset > 0 {
            assert((start + 0) % n == start) by {
                vstd::arithmetic::div_mod::lemma_small_mod(start as nat, n as nat);
            }
            assert(assigned[(start + offset) % n] < assigned[(start + 0) % n]);
            assert(assigned[(start + offset) % n] == assigned[w]);
            assert(assigned[start] == assigned[w]);
        }
        vstd::arithmetic::div_mod::lemma_small_mod(start as nat, n as nat);
    }
}

/// The epoch counts on, and starts anew only where it would not fit.
pub proof fn law_the_epoch_counts_on(epoch: u64)
    ensures
        epoch < u64::MAX ==> next_epoch(epoch) == epoch + 1,
        epoch == u64::MAX ==> next_epoch(epoch) == 0,
{
}

/// A signal goes to the first world with its id, and is refused where there is none.
pub proof fn law_a_signal_finds_its_world(worlds: Seq<World>, id: u64)
    ensures
        match first_world(worlds, id) {
            Some(at) => {
                &&& 0 <= at < worlds.len()
                &&& worlds[at].id == id
                &&& forall|k: int| 0 <= k < at ==> (#[trigger] worlds[k]).id != id
            },
            None => forall|k: int| 0 <= k < worlds.len() ==> (#[trigger] worlds[k]).id != id,
        },
    decreases worlds.len(),
{
    if worlds.len() > 0 && worlds[0].id != id {
        let rest = worlds.drop_first();
        law_a_signal_finds_its_world(rest, id);
        assert forall|k: int| 0 < k < worlds.len() implies (#[trigger] worlds[k]) == rest[k - 1] by {}
        if first_world(worlds, id) is Some {
            let at = first_world(rest, id)->0;
            assert(worlds[at + 1] == rest[at]);
        }
    }
}

// Host states.

/// An owner's states are those in its slot.
pub proof fn law_an_owner_has_its_slot(slots: Seq<Slot>, i: int, owner: u64)
    requires
        owners_apart(slots),
    ensures
        0 <= i < slots.len() ==> states_of(slots, slots[i].owner) == Some(slots[i].states@),
        states_of(slots, owner) is None <==> forall|k: int|
            0 <= k < slots.len() ==> (#[trigger] slots[k]).owner != owner,
    decreases slots.len(),
{
    if slots.len() > 0 {
        let front = slots.drop_last();
        assert(owners_apart(front)) by {
            assert forall|a: int, b: int|
                #![trigger front[a], front[b]]
                0 <= a < b < front.len() implies front[a].owner != front[b].owner by {
                assert(front[a] == slots[a] && front[b] == slots[b]);
            }
        }
        law_an_owner_has_its_slot(front, i, owner);
        assert forall|k: int| 0 <= k < front.len() implies front[k] == #[trigger] slots[k] by {}
        let last = slots[slots.len() - 1];
        if 0 <= i < front.len() {
            assert(front[i] == slots[i]);
            assert(slots[i].owner != last.owner);
        }
        if states_of(slots, owner) is Some && last.owner != owner {
            let k = choose|k: int| 0 <= k < front.len() && (#[trigger] front[k]).owner == owner;
            assert(slots[k].owner == owner);
        }
    }
}

/// A state is attached in the place of the first of its kind, or after all others;
/// every other state stays where it is.
pub proof fn law_a_state_replaces_its_kind(states: Seq<Attached>, new: Attached, k: int)
    requires
        0 <= k < states.len(),
    ensures
        match kind_at(states, new.kind) {
            Some(i) => {
                &&& 0 <= i < states.len()
                &&& states[i].kind == new.kind
                &&& forall|j: int| 0 <= j < i ==> (#[trigger] states[j]).kind != new.kind
                &&& attached(states, new).len() == states.len()
                &&& attached(states, new)[i] == new
            },
            None => {
                &&& forall|j: int| 0 <= j < states.len() ==> (#[trigger] states[j]).kind != new.kind
                &&& attached(states, new).len() == states.len() + 1
                &&& attached(states, new).last() == new
            },
        },
        kind_at(states, new.kind) != Some(k) ==> attached(states, new)[k] == states[k],
{
    lemma_first_of_kind(states, new.kind);
}

proof fn lemma_first_of_kind(states: Seq<Attached>, kind: u64)
    ensures
        match kind_at(states, kind) {
            Some(i) => {
                &&& 0 <= i < states.len()
                &&& states[i].kind == kind
                &&& forall|j: int| 0 <= j < i ==> (#[trigger] states[j]).kind != kind
            },
            None => forall|j: int| 0 <= j < states.len() ==> (#[trigger] states[j]).kind != kind,
        },
    decreases states.len(),
{
    if states.len() > 0 {
        let front = states.drop_last();
        lemma_first_of_kind(front, kind);
        assert forall|j: int| 0 <= j < front.len() implies front[j] == #[trigger] states[j] by {}
    }
}

// The running task.

/// Entering or leaving a section changes the caller's own depth alone: the running
/// task's while one runs, and the main context's otherwise.
pub proof fn law_a_depth_is_the_callers_own(before: &World, after: &World)
    requires
        after.depth_only(before),
    ensures
        before.active matches Some(a) ==> {
            &&& after.main_depth == before.main_depth
            &&& after.active matches Some(b) && b.id == a.id && b.pending_park == a.pending_park
                && b.resume_cause == a.resume_cause && b.can_suspend == a.can_suspend
                && b.blocking_depth == after.depth()
        },
        before.active is None ==> after.active is None && after.depth() == after.main_depth,
        after.tasks == before.tasks && after.ready == before.ready && after.timers == before.timers,
        after.mailbox == before.mailbox && after.signals == before.signals && after.assigned
            == before.assigned && after.id == before.id,
{
}

/// What is noted on the running task leaves the rest of the world as it was.
pub proof fn law_a_note_on_the_running_task(before: &World, after: &World)
    requires
        after.same_but_active(before),
    ensures
        after.tasks == before.tasks && after.ready == before.ready && after.timers == before.timers,
        after.mailbox == before.mailbox && after.signals == before.signals && after.assigned
            == before.assigned && after.id == before.id && after.main_depth == before.main_depth,
{
}

/// Every thread but a wasm module without threads can be told of a command.
pub proof fn law_where_there_are_threads(threads: bool)
    ensures
        Platform::Native.threaded(),
        (Platform::Wasm { threads }).threaded() == threads,
{
}

/// A signal that is raised is the last command of its world, and changes nothing else of
/// it.
pub proof fn law_a_raise_is_a_command(before: World, after: World, id: u64)
    requires
        raised(before, after, id),
    ensures
        after.mailbox@.len() == before.mailbox@.len() + 1,
        after.mailbox@.last() == Command::Ready(id),
        after.mailbox@.drop_last() == before.mailbox@,
        after.tasks == before.tasks && after.ready == before.ready && after.timers == before.timers,
        after.active == before.active && after.signals == before.signals && after.id == before.id,
{
}

} // verus!
