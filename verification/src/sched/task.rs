//! What a world schedules, and the bookkeeping it keeps beside it.

use vstd::prelude::*;

use crate::platform::Platform;

verus! {

/// Default stack for a stackful task.
pub const DEFAULT_STACK_SIZE: usize = 262144;

/// A task, by the order it was created in; zero is the main context.
#[derive(Clone, Copy, Debug, PartialEq, Eq, Hash, Structural)]
pub struct TaskId(pub u64);

impl TaskId {
    /// The main context.
    pub fn none() -> (t: TaskId)
        ensures
            t == TaskId(0),
    {
        TaskId(0)
    }

    pub fn is_task(self) -> (r: bool)
        ensures
            r == (self.0 != 0),
    {
        self.0 != 0
    }
}

/// Why the current task was resumed.
#[derive(Clone, Copy, Debug, PartialEq, Eq, Structural)]
pub enum ResumeCause {
    Scheduled,
    Notified,
    TimedOut,
}

#[derive(Clone, Copy, Debug, PartialEq, Eq, Structural)]
pub enum RunState {
    Runnable,
    Running,
    /// Parked on the wait token.
    Waiting(u64),
}

/// How a task's step ended.
#[derive(Clone, Copy, Debug, PartialEq, Eq, Structural)]
pub enum Suspension {
    /// It gave up the rest of its turn.
    Yielded,
    /// It has nothing to do until something wakes it.
    Pending,
    /// It is over.
    Completed,
}

/// What a world keeps of one of its tasks.
#[derive(Clone, Copy, Debug, PartialEq, Eq, Structural)]
pub struct TaskRecord {
    pub id: TaskId,
    pub run_state: RunState,
    pub resume_cause: ResumeCause,
    /// How many native sections that may block it is in.
    pub blocking_depth: u32,
    /// It has not had a turn yet.
    pub fresh: bool,
    /// Whether it can suspend from inside a step.
    pub can_suspend: bool,
}

/// A task's body: one with a stack of its own, or a state machine that is stepped
/// on the scheduler's.
#[derive(Clone, Copy, Debug, PartialEq, Eq, Structural)]
pub enum Body {
    Stackful,
    Stackless,
}

impl Body {
    /// The body of a fiber. Where stacks cannot be switched it runs through in
    /// one step.
    pub fn fiber(platform: Platform) -> (b: Body)
        ensures
            b == if platform is Wasm {
                Body::Stackless
            } else {
                Body::Stackful
            },
    {
        if platform.is_wasm() {
            Body::Stackless
        } else {
            Body::Stackful
        }
    }

    /// Whether a park or a yield can suspend the body from inside. Natively only
    /// a fiber can; in a wasm module every body suspends through the host, or not
    /// at all, and either way the call returns.
    pub fn can_suspend(self, platform: Platform) -> (r: bool)
        ensures
            r == (self == Body::Stackful || platform is Wasm),
    {
        match self {
            Body::Stackful => true,
            Body::Stackless => platform.is_wasm(),
        }
    }
}

/// A task as it starts.
pub open spec fn new_record(id: TaskId, can_suspend: bool) -> TaskRecord {
    TaskRecord {
        id,
        run_state: RunState::Runnable,
        resume_cause: ResumeCause::Scheduled,
        blocking_depth: 0,
        fresh: true,
        can_suspend,
    }
}

impl TaskRecord {
    pub fn new(id: TaskId, can_suspend: bool) -> (r: TaskRecord)
        ensures
            r == new_record(id, can_suspend),
    {
        TaskRecord {
            id,
            run_state: RunState::Runnable,
            resume_cause: ResumeCause::Scheduled,
            blocking_depth: 0,
            fresh: true,
            can_suspend,
        }
    }
}

/// A depth after entering or leaving a section: leaving where none is open
/// changes nothing.
pub open spec fn depth_after(depth: u32, blocking: bool) -> u32 {
    if blocking {
        if depth < u32::MAX {
            (depth + 1) as u32
        } else {
            depth
        }
    } else if depth > 0 {
        (depth - 1) as u32
    } else {
        0
    }
}

/// Enter or leave a native section that may block; false when there was none
/// to leave.
pub fn update_blocking_depth(depth: &mut u32, blocking: bool) -> (changed: bool)
    ensures
        changed == (blocking || *old(depth) > 0),
        *final(depth) == depth_after(*old(depth), blocking),
{
    if blocking {
        *depth = depth.saturating_add(1);
        true
    } else if *depth == 0 {
        false
    } else {
        *depth = *depth - 1;
        true
    }
}

/// Nested sections balance.
pub proof fn law_sections_balance(depth: u32)
    requires
        depth < u32::MAX,
    ensures
        depth_after(depth_after(depth, true), false) == depth,
{
}

} // verus!
