use caribou::future;
use caribou::object::{Objects, Settlement};
use caribou::platform::Platform;
use caribou::sched::pool::{configured_worker_count, Placement, Setting, WorkerPool};
use caribou::sched::preempt::Preemption;
use caribou::sched::quiesce::{Quiescence, PATIENCE};
use caribou::sched::reactor::Sources;
use caribou::sched::stack::{switch_stack, Attached, HostStates, SwitchStep};
use caribou::sched::task::{Body, ResumeCause, Suspension, TaskId};
use caribou::sched::turn::{self, Idle, Poll, Tick, TurnStep, Yield};
use caribou::sched::wait::{WaitRegistry, Waiter};
use caribou::sched::world::World;
use caribou::value::Value;

/// A turn for everybody who was ready: what each does is `body`.
fn step(
    world: &mut World,
    reg: &mut WaitRegistry,
    now: u64,
    body: &mut dyn FnMut(&mut World, &mut WaitRegistry, TaskId, ResumeCause) -> Suspension,
) -> bool {
    let mut resumed = false;
    for _ in 0..world.schedule_step(reg, now) {
        match world.next_turn() {
            TurnStep::Run { id, cause, .. } => {
                let suspension = body(world, reg, id, cause);
                world.end_turn(suspension);
                resumed = true;
            }
            TurnStep::Skipped(_) => {}
            TurnStep::Idle => break,
        }
        world.wake_due_timers(reg, now);
    }
    resumed
}

#[test]
fn completion_wakes_all_waiters_and_keeps_one_result() {
    let mut objects = Objects::new();
    let mut world = World::new(1);
    let mut reg = WaitRegistry::new();
    let f = future::new(&mut objects);
    let mut seen = Vec::new();
    let mut waiters: Vec<Waiter> = Vec::new();
    world.spawn(TaskId(1), true);
    world.spawn(TaskId(2), true);
    let mut tick = |world: &mut World,
                    reg: &mut WaitRegistry,
                    objects: &mut Objects,
                    waiters: &mut Vec<Waiter>,
                    seen: &mut Vec<i32>| {
        while step(world, reg, 0, &mut |world, reg, id, _| {
            let waiter = reg.new_waiter(world.world_id(), id);
            match future::await_settlement(objects, f, waiter.token) {
                Some(Settlement::Resolved(v)) => {
                    reg.finish_wait(waiter.token);
                    seen.push(v.as_int().unwrap());
                    Suspension::Completed
                }
                Some(Settlement::Rejected(_)) => panic!("rejected"),
                None => {
                    waiters.push(waiter);
                    world.request_park(waiter, None);
                    Suspension::Pending
                }
            }
        }) {}
    };
    tick(&mut world, &mut reg, &mut objects, &mut waiters, &mut seen);
    assert!(seen.is_empty());
    let (first, woken) = future::settle(&mut objects, f, Value::Int(42), false);
    assert!(first);
    assert!(!future::settle(&mut objects, f, Value::Int(7), false).0);
    for token in woken {
        let waiter = *waiters.iter().find(|w| w.token == token).unwrap();
        assert!(world.wake(&mut reg, waiter));
        assert!(!world.wake(&mut reg, waiter), "one wake per wait");
    }
    tick(&mut world, &mut reg, &mut objects, &mut waiters, &mut seen);
    seen.sort();
    assert_eq!(seen, [42, 42]);
    assert_eq!(world.live_tasks(), 0);
}

#[test]
fn a_wake_before_the_park_is_not_lost() {
    let mut world = World::new(3);
    let mut reg = WaitRegistry::new();
    world.spawn(TaskId(1), false);
    let mut causes = Vec::new();
    let mut turns = 0;
    for now in 0..3 {
        step(&mut world, &mut reg, now, &mut |world, reg, id, cause| {
            causes.push(cause);
            turns += 1;
            if turns == 1 {
                let w = reg.new_waiter(3, id);
                assert!(world.wake(reg, w));
                assert!(!world.request_park(w, None), "it suspends by returning");
                assert!(world.park_pending());
                Suspension::Pending
            } else {
                Suspension::Completed
            }
        });
    }
    assert_eq!(causes, [ResumeCause::Scheduled, ResumeCause::Notified]);
}

#[test]
fn a_park_past_its_deadline_times_out() {
    let mut world = World::new(3);
    let mut reg = WaitRegistry::new();
    world.spawn(TaskId(1), true);
    let mut causes = Vec::new();
    let mut parked = None;
    for now in [0, 4, 5, 6] {
        let done = !causes.is_empty();
        step(&mut world, &mut reg, now, &mut |world, reg, id, cause| {
            causes.push((now, cause));
            if done {
                return Suspension::Completed;
            }
            let w = reg.new_waiter(3, id);
            parked = Some(w);
            world.request_park(w, Some(5));
            Suspension::Pending
        });
        if now == 0 {
            assert_eq!(world.scheduler_idle(Some(9), 0, Platform::Native), Idle::Until(5));
            assert_eq!(world.scheduler_idle(Some(2), 0, Platform::Native), Idle::Until(2));
            assert_eq!(world.scheduler_idle(None, 0, Platform::Native), Idle::Until(5));
        }
    }
    assert_eq!(
        causes,
        [(0, ResumeCause::Scheduled), (5, ResumeCause::TimedOut)]
    );
    assert!(!world.wake(&mut reg, parked.unwrap()), "too late");
    assert_eq!(world.scheduler_idle(None, 0, Platform::Native), Idle::Forever);
}

#[test]
fn a_yield_is_another_turn() {
    let mut world = World::new(1);
    let mut reg = WaitRegistry::new();
    world.spawn(TaskId(1), true);
    world.spawn(TaskId(2), true);
    let mut order = Vec::new();
    for _ in 0..3 {
        step(&mut world, &mut reg, 0, &mut |world, _, id, _| {
            assert!(world.is_on_task());
            assert_eq!(world.current_task(), id);
            assert_eq!(world.yield_now(), Yield::Suspend);
            assert_eq!(world.poll(true), Poll::Yield);
            assert_eq!(world.tick(false, true, false), Tick::Yield);
            assert_eq!(world.tick(true, false, false), Tick::Done(true));
            order.push(id.0);
            if order.len() > 4 {
                Suspension::Completed
            } else {
                Suspension::Yielded
            }
        });
    }
    assert_eq!(order, [1, 2, 1, 2, 1, 2]);
    assert_eq!(world.yield_now(), Yield::Turn);
    assert_eq!(world.poll(false), Poll::Nothing);
    assert_eq!(world.tick(false, true, false), Tick::Again);
    assert_eq!(world.tick(false, false, false), Tick::Done(false));
    assert!(world.task_exists(TaskId(0)));
    assert!(!world.task_exists(TaskId(1)));
}

#[test]
fn a_wait_without_a_world_is_polled() {
    let mut reg = WaitRegistry::new();
    let w = reg.new_waiter(0, TaskId(0));
    assert_eq!(reg.poll_wait(w.token, false), None);
    assert!(turn::wake(&mut reg, w));
    assert_eq!(reg.poll_wait(w.token, false), Some(true));
    assert_eq!(reg.poll_wait(w.token, false), Some(false), "it is closed");
    let late = reg.new_waiter(0, TaskId(0));
    assert_eq!(reg.poll_wait(late.token, true), Some(false));
    // Its world is gone: the wait is closed, and nobody was told.
    let gone = reg.new_waiter(77, TaskId(4));
    assert!(!turn::wake(&mut reg, gone));
    assert_eq!(reg.wait_status(gone.token), None);
    let early = reg.new_waiter(0, TaskId(0));
    assert!(!reg.notified_before_park(early.token));
    assert!(turn::wake(&mut reg, early));
    assert!(reg.notified_before_park(early.token));
    assert!(!reg.after_park(early.token, ResumeCause::Scheduled));
    assert!(reg.after_park(early.token, ResumeCause::Notified));
}

#[test]
fn blocking_sections_nest() {
    let mut world = World::new(1);
    assert!(!world.is_blocking());
    assert!(world.enter_blocking());
    assert!(world.enter_blocking());
    assert!(world.leave_blocking());
    assert!(world.is_blocking());
    assert!(world.leave_blocking());
    assert!(!world.leave_blocking(), "none was open");
    assert!(!world.is_blocking());
}

#[test]
fn raises_fold_into_one_run() {
    let mut worlds = vec![World::new(4), World::new(9)];
    let mut reg = WaitRegistry::new();
    let mut sources = Sources::new(9);
    let a = sources.add_source();
    let b = sources.add_source();
    assert_ne!(a, b);
    assert!(a.raise(&mut worlds));
    assert!(b.raise(&mut worlds));
    assert!(a.raise(&mut worlds));
    let mut world = worlds.pop().unwrap();
    assert!(!a.raise(&mut worlds), "its world is gone");
    assert_eq!(world.scheduler_idle(None, 0, Platform::Native), Idle::Busy);
    assert_eq!(world.schedule_step(&mut reg, 0), 0);
    let raised = world.take_signals();
    assert_eq!(raised, [a.id, b.id]);
    sources.remove_source(&b);
    assert_eq!(sources.due(&raised), [a.id]);
    assert!(world.take_signals().is_empty());
}

#[test]
fn a_task_goes_to_the_least_loaded_worker() {
    let mut pool = WorkerPool::new();
    assert_eq!(pool.dispatch(&vec![], Platform::Native), Placement::Here);
    assert_eq!(pool.dispatch(&vec![2, 1, 1], Platform::Native), Placement::Worker(1));
    // Equal loads do not favour lane zero.
    assert_eq!(pool.dispatch(&vec![0, 0, 0], Platform::Native), Placement::Worker(1));
    assert_eq!(pool.dispatch(&vec![0, 0, 0], Platform::Native), Placement::Worker(2));
    assert_eq!(pool.dispatch(&vec![0, 0, 0], Platform::Native), Placement::Worker(0));
    assert_eq!(pool.dispatch(&vec![0, 5, 0], Platform::Native), Placement::Worker(2));
}

#[test]
fn the_worker_count_is_read_or_defaulted() {
    let count = |own, other, cores| configured_worker_count(own, other, cores);
    assert_eq!(count(None, None, Some(8)).count, 7);
    assert_eq!(count(None, None, None).count, 0);
    assert_eq!(count(Some(" 3\n"), Some("5"), Some(8)).count, 3);
    assert_eq!(count(None, Some("+5"), Some(8)).count, 5);
    let refused = count(Some("three"), Some("5"), Some(8));
    assert_eq!(refused.count, 7);
    assert_eq!(refused.refused, Some(Setting::CaribouWorkers));
    assert_eq!(
        count(None, Some("-1"), Some(2)).refused,
        Some(Setting::AshWorkers)
    );
    assert!(!count(Some("0"), None, Some(8)).has_worker_pool(Platform::Native));
    let wasm = |threads| Platform::Wasm { threads };
    assert!(count(Some("0"), None, Some(8)).has_worker_pool(wasm(true)));
    assert!(!count(Some("4"), None, Some(8)).has_worker_pool(wasm(false)));
    assert_eq!(count(Some("4"), None, Some(8)).worker_count(wasm(true)), 4);
    assert_eq!(count(Some("4"), None, Some(8)).worker_count(wasm(false)), 0);
    assert_eq!(
        count(Some("99999999999999999999999"), None, Some(8)).worker_count(Platform::Native),
        7
    );
}

#[test]
fn a_request_changes_the_epoch() {
    let mut p = Preemption::new();
    p.quantum();
    assert_eq!(p.epoch, 1, "no task, no timer");
    p.task_created();
    assert_eq!(p.epoch, 2);
    p.quantum();
    assert_eq!(p.epoch, 3);
    assert!(p.any_live_tasks());
    p.task_removed();
    assert!(!p.any_live_tasks());
    p.epoch = u64::MAX;
    p.request_poll();
    assert_eq!(p.epoch, 0);
}

#[test]
fn a_quiescent_point_waits_for_its_workers() {
    let mut q = Quiescence::new();
    assert!(!q.quiesce(0), "nobody to wait for");
    assert!(q.quiesce(2));
    assert!(q.requested());
    q.park();
    assert!(!q.reached(2, 0));
    assert!(q.reached(2, PATIENCE), "patience is over");
    q.park();
    assert!(q.reached(2, 0));
    assert!(!q.leave());
    q.end();
    assert!(q.leave());
    assert!(!q.is_over());
    assert!(q.leave());
    assert!(q.is_over());
}

#[test]
fn host_states_follow_their_stack() {
    let mut h = HostStates::new();
    let trap = |state| Attached { kind: 1, state };
    assert_eq!(h.attach_stack_host_state(0, trap(10)), None);
    assert_eq!(h.attach_stack_host_state(0, trap(11)), Some(10));
    assert_eq!(
        h.attach_stack_host_state(0, Attached { kind: 2, state: 5 }),
        None
    );
    assert_eq!(h.with_stack_host_state(0, 1), Some(11));
    let mut same = switch_stack(4, 4);
    assert!(matches!(h.switch_next(&mut same, vec![]), SwitchStep::Done));
    let mut switch = switch_stack(0, 7);
    let out = match h.switch_next(&mut switch, vec![]) {
        SwitchStep::SwapOut(out) => out,
        _ => panic!("the states that are left come first"),
    };
    assert_eq!(out.len(), 2);
    // Attached during the swap: kept beside what was out.
    h.attach_stack_host_state(0, Attached { kind: 3, state: 8 });
    assert!(matches!(h.switch_next(&mut switch, out), SwitchStep::Hooks));
    assert_eq!(h.with_stack_host_state(0, 2), Some(5));
    assert_eq!(h.with_stack_host_state(0, 3), Some(8));
    // A hook attaches what the new stack keeps.
    h.attach_stack_host_state(7, trap(20));
    let states = match h.switch_next(&mut switch, vec![]) {
        SwitchStep::SwapIn(states) => states,
        _ => panic!("then the states of the new stack"),
    };
    assert_eq!(states, [trap(20)]);
    assert!(!h.has(7), "out of its slot for the calls");
    assert!(matches!(h.switch_next(&mut switch, states), SwitchStep::Done));
    assert_eq!(h.with_stack_host_state(7, 1), Some(20));
    // Back: the hooks have run for it.
    let mut switch = switch_stack(7, 0);
    let out = match h.switch_next(&mut switch, vec![]) {
        SwitchStep::SwapOut(out) => out,
        _ => panic!("swapped out"),
    };
    assert!(matches!(
        h.switch_next(&mut switch, out),
        SwitchStep::SwapIn(states) if states.len() == 3
    ));
    assert!(!h.open(7));
    h.forget_stack(7);
    assert!(h.open(7), "its hooks run");
    h.forget_stack(0);
    assert_eq!(h.with_stack_host_state(0, 1), None);
    // A task that is gone takes nothing.
    assert_eq!(h.attach_host_state(99, trap(1)), None);
    assert!(!h.has(99));
    // A task's states are put back unless some were attached meanwhile.
    h.put_back_task(7, vec![trap(3)]);
    assert_eq!(h.with_stack_host_state(7, 1), Some(3));
    h.put_back_task(7, vec![trap(4)]);
    assert_eq!(h.with_stack_host_state(7, 1), Some(3));
}

#[test]
fn a_module_places_tasks_as_its_host_allows() {
    let wasm = |threads| Platform::Wasm { threads };
    let mut pool = WorkerPool::new();
    // A worker runs a body straight through: it takes one task, and the pool
    // grows for the next.
    assert_eq!(pool.dispatch(&vec![1, 0, 0], wasm(true)), Placement::Worker(1));
    assert_eq!(pool.dispatch(&vec![1, 1], wasm(true)), Placement::Start(2));
    assert_eq!(pool.dispatch(&vec![0, 0], wasm(false)), Placement::Here);
    assert_eq!(pool.next, 0);
    assert_eq!(Body::fiber(Platform::Native), Body::Stackful);
    assert_eq!(Body::fiber(wasm(true)), Body::Stackless);
    assert!(!Body::Stackless.can_suspend(Platform::Native));
    assert!(Body::Stackless.can_suspend(wasm(false)));
    assert!(wasm(true).suspends(true) && !wasm(true).suspends(false));
    assert!(Platform::Native.suspends(false));
    let mut timer = Preemption::new();
    assert!(!timer.timer_runs(Platform::Native));
    timer.task_created();
    assert!(timer.timer_runs(Platform::Native) && !timer.timer_runs(wasm(true)));
}

#[test]
fn without_threads_an_idle_world_naps() {
    let world = World::new(1);
    let alone = Platform::Wasm { threads: false };
    assert_eq!(world.scheduler_idle(None, 0, alone), Idle::Nap(1_000_000));
    assert_eq!(world.scheduler_idle(Some(700), 200, alone), Idle::Nap(500));
    assert_eq!(world.scheduler_idle(Some(100), 200, alone), Idle::Nap(0));
    let threaded = Platform::Wasm { threads: true };
    assert_eq!(world.scheduler_idle(Some(700), 200, threaded), Idle::Until(700));
}
