//! What holds of every step of a world: which timers fire, whom they wake, and
//! who is left alone.

use vstd::prelude::*;

use crate::sched::task::{ResumeCause, RunState, TaskId};
use crate::sched::turn::{lemma_update_index, spawns_ok};
use crate::sched::wait::{WaitStatus, Waiter};
use crate::sched::world::{
    carried_out, drained, earliest, enqueued, expired, fired, is_parked, lemma_task_found,
    made_ready, task_index, Command, Timer, World, WorldState,
};

verus! {

/// The timer that fires first is due no later than any other.
pub proof fn law_the_earliest_is_first(timers: Seq<Timer>)
    requires
        timers.len() > 0,
    ensures
        0 <= earliest(timers) < timers.len(),
        forall|i: int|
            0 <= i < timers.len() ==> timers[earliest(timers)].deadline <= (
            #[trigger] timers[i]).deadline,
    decreases timers.len(),
{
    if timers.len() > 1 {
        let init = timers.drop_last();
        law_the_earliest_is_first(init);
        let e = earliest(init);
        assert forall|i: int| 0 <= i < timers.len() implies timers[earliest(timers)].deadline <= (
        #[trigger] timers[i]).deadline by {
            assert(init[e] == timers[e]);
            if i < init.len() {
                assert(init[i] == timers[i]);
                assert(init[e].deadline <= init[i].deadline);
            }
        }
    }
}

/// An idle world wakes no later than the deadline it is given and no later than
/// any of its timers, and not before the first of them.
pub proof fn law_an_idle_world_wakes_in_time(w: &World, deadline: Option<u64>)
    ensures
        deadline matches Some(d) ==> w.wakes_at(deadline) matches Some(at) && at <= d,
        forall|i: int|
            0 <= i < w.timers@.len() ==> (w.wakes_at(deadline) matches Some(at) && at <= (
            #[trigger] w.timers@[i]).deadline),
        w.wakes_at(deadline) matches Some(at) ==> deadline == Some(at) || exists|i: int|
            0 <= i < w.timers@.len() && (#[trigger] w.timers@[i]).deadline == at,
        w.wakes_at(deadline) is None ==> deadline is None && w.timers@.len() == 0,
{
    if w.timers@.len() > 0 {
        law_the_earliest_is_first(w.timers@);
        let e = earliest(w.timers@);
        assert(w.first_timer() == Some(w.timers@[e].deadline));
    }
}

/// Once a world has fired its timers none that is due is left, and none that is
/// not due is gone.
pub proof fn law_every_due_timer_fires(s: WorldState, now: u64)
    ensures
        forall|i: int|
            0 <= i < fired(s, now).timers.len() ==> (#[trigger] fired(s, now).timers[i]).deadline
                > now,
        forall|t: Timer| #[trigger]
            fired(s, now).timers.contains(t) <==> s.timers.contains(t) && t.deadline > now,
    decreases s.timers.len(),
{
    let after = fired(s, now);
    if s.timers.len() > 0 {
        law_the_earliest_is_first(s.timers);
        let i = earliest(s.timers);
        if s.timers[i].deadline <= now {
            let rest = WorldState { timers: s.timers.remove(i), ..s };
            let mid = expired(rest, s.timers[i]);
            assert(mid.timers == rest.timers);
            law_every_due_timer_fires(mid, now);
            assert(after == fired(mid, now));
            assert forall|k: int| 0 <= k < after.timers.len() implies (
            #[trigger] after.timers[k]).deadline > now by {
                assert(fired(mid, now).timers[k].deadline > now);
            }
            assert forall|t: Timer| #[trigger] after.timers.contains(t) <==> s.timers.contains(t)
                && t.deadline > now by {
                lemma_without(s.timers, i, t);
                assert(fired(mid, now).timers.contains(t) <==> mid.timers.contains(t) && t.deadline
                    > now);
            }
        } else {
            assert forall|k: int| 0 <= k < after.timers.len() implies (
            #[trigger] after.timers[k]).deadline > now by {
                assert(s.timers[i].deadline <= s.timers[k].deadline);
            }
        }
    }
    assert forall|t: Timer| #[trigger] after.timers.contains(t) <==> s.timers.contains(t)
        && t.deadline > now by {
        if s.timers.len() > 0 && !(s.timers[earliest(s.timers)].deadline <= now) {
            if after.timers.contains(t) {
                let k = choose|k: int| 0 <= k < after.timers.len() && after.timers[k] == t;
                assert(after.timers[k].deadline > now);
            }
        }
    }
}

proof fn lemma_without(timers: Seq<Timer>, i: int, t: Timer)
    requires
        0 <= i < timers.len(),
    ensures
        timers.contains(t) <==> timers.remove(i).contains(t) || t == timers[i],
{
    let less = timers.remove(i);
    if timers.contains(t) {
        let k = choose|k: int| 0 <= k < timers.len() && timers[k] == t;
        if k < i {
            assert(less[k] == t);
        } else if k > i {
            assert(less[k - 1] == t);
        }
    }
    if less.contains(t) {
        let k = choose|k: int| 0 <= k < less.len() && less[k] == t;
        let o = if k < i {
            k
        } else {
            k + 1
        };
        assert(timers[o] == t);
    }
}

/// Whether the task `id` is in the queue to be resumed for this cause.
pub open spec fn is_ready_for(s: WorldState, id: TaskId, cause: ResumeCause) -> bool {
    &&& exists|i: int|
        0 <= i < s.tasks.len() && (#[trigger] s.tasks[i]).id == id && s.tasks[i].run_state
            == RunState::Runnable && s.tasks[i].resume_cause == cause
    &&& s.ready.contains(id)
}

/// Whether the task `id` waits on `token`, its wait open and nothing decided.
pub open spec fn waits_on(s: WorldState, id: TaskId, token: u64) -> bool {
    &&& is_parked(s.tasks, id, token)
    &&& s.waits.contains_key(token)
    &&& s.waits[token].status == WaitStatus::Waiting
}

/// Timers of one token are of one task.
pub open spec fn tokens_have_owners(timers: Seq<Timer>) -> bool {
    forall|i: int, j: int|
        #![trigger timers[i], timers[j]]
        0 <= i < timers.len() && 0 <= j < timers.len() && timers[i].token == timers[j].token
            ==> timers[i].task == timers[j].task
}

proof fn lemma_owners_less(timers: Seq<Timer>, i: int)
    requires
        tokens_have_owners(timers),
        0 <= i < timers.len(),
    ensures
        tokens_have_owners(timers.remove(i)),
{
    let less = timers.remove(i);
    assert forall|a: int, b: int|
        #![trigger less[a], less[b]]
        0 <= a < less.len() && 0 <= b < less.len() && less[a].token
            == less[b].token implies less[a].task == less[b].task by {
        let x = if a < i {
            a
        } else {
            a + 1
        };
        let y = if b < i {
            b
        } else {
            b + 1
        };
        assert(less[a] == timers[x] && less[b] == timers[y]);
    }
}

/// What the end of a wait does to another task: nothing.
proof fn lemma_expired_others(s: WorldState, t: Timer, id: TaskId)
    requires
        t.task != id,
    ensures
        ({
            let after = expired(s, t);
            &&& task_index(after.tasks, id) == task_index(s.tasks, id)
            &&& task_index(s.tasks, id) matches Some(i) ==> after.tasks[i] == s.tasks[i]
            &&& s.ready.contains(id) <==> after.ready.contains(id)
        }),
{
    let after = expired(s, t);
    if is_parked(s.tasks, t.task, t.token) && s.waits.contains_key(t.token)
        && s.waits[t.token].status == WaitStatus::Waiting {
        let k = task_index(s.tasks, t.task)->0;
        lemma_task_found(s.tasks, t.task);
        lemma_update_index(s.tasks, k, after.tasks[k], id);
        if task_index(s.tasks, id) is Some {
            lemma_task_found(s.tasks, id);
        }
        lemma_enqueued(s.ready, t.task, id);
    }
}

/// A task that is in the queue for a cause stays in it while timers fire.
proof fn lemma_ready_stays_ready(s: WorldState, now: u64, id: TaskId, i: int)
    requires
        task_index(s.tasks, id) == Some(i),
        s.tasks[i].run_state == RunState::Runnable,
        s.ready.contains(id),
    ensures
        task_index(fired(s, now).tasks, id) == Some(i),
        fired(s, now).tasks[i] == s.tasks[i],
        fired(s, now).ready.contains(id),
    decreases s.timers.len(),
{
    if s.timers.len() > 0 {
        law_the_earliest_is_first(s.timers);
        let e = earliest(s.timers);
        if s.timers[e].deadline <= now {
            let t = s.timers[e];
            let rest = WorldState { timers: s.timers.remove(e), ..s };
            let mid = expired(rest, t);
            if t.task != id {
                lemma_expired_others(rest, t, id);
            } else {
                assert(!is_parked(s.tasks, id, t.token));
            }
            lemma_ready_stays_ready(mid, now, id, i);
        }
    }
}

/// A deadline wakes: a task that waits on a token with a timer due at `now` is
/// ready once the world has fired its timers, and knows that it timed out. Its
/// wait is over.
pub proof fn law_a_deadline_wakes(s: WorldState, now: u64, k: int)
    requires
        tokens_have_owners(s.timers),
        0 <= k < s.timers.len(),
        s.timers[k].deadline <= now,
        waits_on(s, s.timers[k].task, s.timers[k].token),
    ensures
        is_ready_for(fired(s, now), s.timers[k].task, ResumeCause::TimedOut),
        !fired(s, now).waits.contains_key(s.timers[k].token),
    decreases s.timers.len(),
{
    let t = s.timers[k];
    law_the_earliest_is_first(s.timers);
    let e = earliest(s.timers);
    let first = s.timers[e];
    let rest = WorldState { timers: s.timers.remove(e), ..s };
    let mid = expired(rest, first);
    let i = task_index(s.tasks, t.task)->0;
    lemma_task_found(s.tasks, t.task);
    lemma_owners_less(s.timers, e);
    if first.token == t.token {
        let _ = s.timers[k];
        assert(first.task == t.task);
        lemma_update_index(s.tasks, i, mid.tasks[i], t.task);
        lemma_enqueued(s.ready, t.task, t.task);
        lemma_ready_stays_ready(mid, now, t.task, i);
        lemma_over_stays_over(mid, now, t.token);
        let after = fired(s, now);
        assert(after == fired(mid, now));
        lemma_task_found(after.tasks, t.task);
        assert(after.tasks[i].id == t.task);
    } else {
        if first.task == t.task {
            assert(!is_parked(s.tasks, t.task, first.token));
        } else {
            lemma_expired_others(rest, first, t.task);
        }
        assert(mid.waits.contains_key(t.token) && mid.waits[t.token] == s.waits[t.token]);
        let j = if k < e {
            k
        } else {
            k - 1
        };
        assert(mid.timers[j] == t);
        law_a_deadline_wakes(mid, now, j);
    }
}

/// A wait that is over stays over while timers fire.
proof fn lemma_over_stays_over(s: WorldState, now: u64, token: u64)
    requires
        !s.waits.contains_key(token),
    ensures
        !fired(s, now).waits.contains_key(token),
    decreases s.timers.len(),
{
    if s.timers.len() > 0 {
        let e = earliest(s.timers);
        if 0 <= e < s.timers.len() && s.timers[e].deadline <= now {
            let rest = WorldState { timers: s.timers.remove(e), ..s };
            lemma_over_stays_over(expired(rest, s.timers[e]), now, token);
        }
    }
}

/// Nobody is woken early: a task that waits on a token with no timer due at `now`
/// is where it was once the world has fired its timers, and so is its wait.
pub proof fn law_nobody_times_out_early(s: WorldState, now: u64, id: TaskId, token: u64)
    requires
        is_parked(s.tasks, id, token),
        forall|k: int|
            0 <= k < s.timers.len() && (#[trigger] s.timers[k]).token == token
                ==> s.timers[k].deadline > now,
    ensures
        is_parked(fired(s, now).tasks, id, token),
        fired(s, now).ready.contains(id) <==> s.ready.contains(id),
        s.waits.contains_key(token) <==> fired(s, now).waits.contains_key(token),
        s.waits.contains_key(token) ==> fired(s, now).waits[token] == s.waits[token],
    decreases s.timers.len(),
{
    if s.timers.len() > 0 {
        law_the_earliest_is_first(s.timers);
        let e = earliest(s.timers);
        let t = s.timers[e];
        if t.deadline <= now {
            let rest = WorldState { timers: s.timers.remove(e), ..s };
            let mid = expired(rest, t);
            if t.task == id {
                assert(!is_parked(s.tasks, id, t.token));
            } else {
                lemma_expired_others(rest, t, id);
            }
            assert forall|k: int|
                0 <= k < mid.timers.len() && (#[trigger] mid.timers[k]).token
                    == token implies mid.timers[k].deadline > now by {
                let o = if k < e {
                    k
                } else {
                    k + 1
                };
                assert(mid.timers[k] == s.timers[o]);
            }
            law_nobody_times_out_early(mid, now, id, token);
        }
    }
}

/// A wake that came first wins: the deadline of a wait that was notified changes
/// nothing of its task, nor of the wait.
pub proof fn law_a_stale_deadline_does_nothing(s: WorldState, t: Timer)
    requires
        s.waits.contains_key(t.token) ==> s.waits[t.token].status != WaitStatus::Waiting,
    ensures
        expired(s, t).tasks == s.tasks,
        expired(s, t).ready == s.ready,
        expired(s, t).waits == s.waits,
{
}

proof fn lemma_enqueued(ready: Seq<TaskId>, added: TaskId, id: TaskId)
    ensures
        enqueued(ready, added).contains(id) <==> ready.contains(id) || added == id,
        ready.is_prefix_of(enqueued(ready, added)),
{
    let after = enqueued(ready, added);
    if !ready.contains(added) {
        assert(after[ready.len() as int] == added);
        if ready.contains(id) {
            let k = choose|k: int| 0 <= k < ready.len() && ready[k] == id;
            assert(after[k] == id);
        }
        if after.contains(id) {
            let k = choose|k: int| 0 <= k < after.len() && after[k] == id;
            if k < ready.len() {
                assert(ready[k] == id);
            }
        }
    }
}

/// The queue only grows at its end: nobody in it is overtaken by those a deadline
/// wakes.
pub proof fn law_deadlines_queue_behind(s: WorldState, now: u64)
    ensures
        s.ready.is_prefix_of(fired(s, now).ready),
    decreases s.timers.len(),
{
    if s.timers.len() > 0 {
        let e = earliest(s.timers);
        if 0 <= e < s.timers.len() && s.timers[e].deadline <= now {
            let rest = WorldState { timers: s.timers.remove(e), ..s };
            let mid = expired(rest, s.timers[e]);
            lemma_enqueued(s.ready, s.timers[e].task, s.timers[e].task);
            assert(s.ready.is_prefix_of(mid.ready));
            law_deadlines_queue_behind(mid, now);
            assert forall|k: int| 0 <= k < s.ready.len() implies s.ready[k] == fired(
                s,
                now,
            ).ready[k] by {
                assert(s.ready[k] == mid.ready[k]);
            }
        }
    }
}

/// The soonest first: of two waits whose deadlines have passed, the task of the
/// earlier deadline is before the other in the queue.
pub proof fn law_the_sooner_deadline_runs_first(s: WorldState, now: u64, j: int, k: int)
    requires
        tokens_have_owners(s.timers),
        0 <= j < s.timers.len(),
        0 <= k < s.timers.len(),
        s.timers[k].deadline <= now,
        waits_on(s, s.timers[j].task, s.timers[j].token),
        waits_on(s, s.timers[k].task, s.timers[k].token),
        s.timers[j].task != s.timers[k].task,
        !s.ready.contains(s.timers[j].task),
        !s.ready.contains(s.timers[k].task),
        forall|i: int|
            0 <= i < s.timers.len() && (#[trigger] s.timers[i]).token == s.timers[k].token
                ==> s.timers[j].deadline < s.timers[i].deadline,
    ensures
        exists|a: int, b: int|
            0 <= a < b < fired(s, now).ready.len() && #[trigger] fired(s, now).ready[a]
                == s.timers[j].task && #[trigger] fired(s, now).ready[b] == s.timers[k].task,
    decreases s.timers.len(),
{
    let tj = s.timers[j];
    let tk = s.timers[k];
    law_the_earliest_is_first(s.timers);
    let e = earliest(s.timers);
    let first = s.timers[e];
    assert(first.deadline <= s.timers[j].deadline);
    assert(s.timers[k].token == tk.token);
    let rest = WorldState { timers: s.timers.remove(e), ..s };
    let mid = expired(rest, first);
    lemma_owners_less(s.timers, e);
    let after = fired(s, now);
    assert(after == fired(mid, now));
    assert(first.token != tk.token);
    let k2 = if k < e {
        k
    } else {
        k - 1
    };
    assert(mid.timers[k2] == tk);
    if first.task == tk.task {
        lemma_task_found(s.tasks, tk.task);
        assert(!is_parked(s.tasks, tk.task, first.token));
    } else {
        lemma_expired_others(rest, first, tk.task);
    }
    if first.token == tj.token {
        assert(first.task == tj.task);
        lemma_enqueued(s.ready, tj.task, tj.task);
        law_deadlines_queue_behind(mid, now);
        law_a_deadline_wakes(mid, now, k2);
        let a = choose|a: int| 0 <= a < mid.ready.len() && mid.ready[a] == tj.task;
        let b = choose|b: int| 0 <= b < after.ready.len() && after.ready[b] == tk.task;
        assert(after.ready[a] == tj.task);
        if b < mid.ready.len() {
            assert(mid.ready[b] == tk.task);
        }
    } else {
        if first.task == tj.task {
            assert(!is_parked(s.tasks, tj.task, first.token));
        } else {
            lemma_expired_others(rest, first, tj.task);
        }
        let j2 = if j < e {
            j
        } else {
            j - 1
        };
        assert(mid.timers[j2] == tj);
        assert forall|i: int|
            0 <= i < mid.timers.len() && (#[trigger] mid.timers[i]).token
                == tk.token implies tj.deadline < mid.timers[i].deadline by {
            let o = if i < e {
                i
            } else {
                i + 1
            };
            assert(mid.timers[i] == s.timers[o]);
        }
        law_the_sooner_deadline_runs_first(mid, now, j2, k2);
        let (a, b) = choose|a: int, b: int|
            0 <= a < b < fired(mid, now).ready.len() && #[trigger] fired(mid, now).ready[a]
                == tj.task && #[trigger] fired(mid, now).ready[b] == tk.task;
        assert(after.ready[a] == tj.task && after.ready[b] == tk.task);
    }
}

/// A task that is to be spawned is one of the world's once the commands are
/// carried out, and in the queue.
pub proof fn law_a_spawned_task_is_queued(s: WorldState, commands: Seq<Command>, n: int)
    requires
        spawns_ok(s.tasks, commands),
        0 <= n < commands.len(),
        commands[n] is Spawn,
    ensures
        drained(s, commands).ready.contains(commands[n]->Spawn_0.id),
        task_index(drained(s, commands).tasks, commands[n]->Spawn_0.id) is Some,
    decreases commands.len(),
{
    let id = commands[n]->Spawn_0.id;
    let init = commands.drop_last();
    let before = drained(s, init);
    let last = commands.last();
    if n == commands.len() - 1 {
        lemma_enqueued(before.ready, id, id);
    } else {
        assert(init[n] == commands[n]);
        assert(spawns_ok(s.tasks, init)) by {
            assert forall|i: int| 0 <= i < init.len() implies (
            #[trigger] init[i] matches Command::Spawn(r) ==> r.id.0 != 0 && r.run_state
                == RunState::Runnable && task_index(s.tasks, r.id) is None) by {
                assert(init[i] == commands[i]);
            }
            assert forall|i: int, j: int|
                #![trigger init[i], init[j]]
                0 <= i < j < init.len() implies (init[i] matches Command::Spawn(a) ==> (
            init[j] matches Command::Spawn(b) ==> a.id != b.id)) by {
                assert(init[i] == commands[i] && init[j] == commands[j]);
            }
        }
        law_a_spawned_task_is_queued(s, init, n);
        match last {
            Command::Wake(w) => {
                if w.task.0 != 0 && is_parked(before.tasks, w.task, w.token) {
                    let k = task_index(before.tasks, w.task)->0;
                    lemma_task_found(before.tasks, w.task);
                    let now = made_ready(before, w.task, w.token, ResumeCause::Notified);
                    lemma_update_index(before.tasks, k, now.tasks[k], id);
                    lemma_enqueued(before.ready, w.task, id);
                }
            },
            Command::Spawn(r) => {
                lemma_enqueued(before.ready, r.id, id);
                assert(before.tasks.push(r).drop_last() =~= before.tasks);
            },
            _ => {},
        }
    }
}

/// A wake reaches nobody else: a task that is parked on another token than the
/// one that was notified stays parked.
pub proof fn law_a_wake_is_for_one(s: WorldState, waiter: Waiter, id: TaskId, token: u64)
    requires
        is_parked(s.tasks, id, token),
        token != waiter.token || id != waiter.task,
    ensures
        is_parked(carried_out(s, Command::Wake(waiter)).tasks, id, token),
        carried_out(s, Command::Wake(waiter)).ready.contains(id) <==> s.ready.contains(id),
        carried_out(s, Command::Wake(waiter)).timers == s.timers,
{
    if waiter.task.0 != 0 && is_parked(s.tasks, waiter.task, waiter.token) {
        let k = task_index(s.tasks, waiter.task)->0;
        lemma_task_found(s.tasks, waiter.task);
        lemma_task_found(s.tasks, id);
        let now = made_ready(s, waiter.task, waiter.token, ResumeCause::Notified);
        lemma_update_index(s.tasks, k, now.tasks[k], id);
        lemma_enqueued(s.ready, waiter.task, id);
    }
}

} // verus!
