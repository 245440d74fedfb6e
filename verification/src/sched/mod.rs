//! The scheduler: one world per thread, every language's concurrency on it.
//!
//! A world holds its tasks, a ready queue and its timers. A turn resumes every
//! task that was ready when it began; parked tasks consume no switch. Parking
//! and waking are the one blocking primitive; locks, conditions and sleeps are
//! built on them. Other threads reach a world only through its mailbox: a
//! wake, or a task to spawn. A task is placed once and never migrates.

pub mod laws;
pub mod pool;
pub mod preempt;
pub mod quiesce;
pub mod reactor;
pub mod rules;
pub mod stack;
pub mod task;
pub mod turn;
pub mod wait;
pub mod world;
