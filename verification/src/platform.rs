//! What the core has to know of the machine it runs on.

use vstd::prelude::*;

verus! {

/// The kind of machine.
#[derive(Clone, Copy, Debug, PartialEq, Eq, Structural)]
pub enum Platform {
    /// Threads, stacks that can be switched, and a size for each of them.
    Native,
    /// A wasm module: it suspends through its host, if at all, cannot ask how
    /// long a stack is, and has threads only where its host grants them.
    Wasm { threads: bool },
}

impl Platform {
    /// Whether threads can be started at all.
    pub open spec fn threaded(self) -> bool {
        match self {
            Platform::Native => true,
            Platform::Wasm { threads } => threads,
        }
    }

    /// Whether this is a wasm module.
    pub fn is_wasm(self) -> (r: bool)
        ensures
            r == (self is Wasm),
    {
        match self {
            Platform::Native => false,
            Platform::Wasm { threads: _ } => true,
        }
    }

    /// [`Self::threaded`].
    pub fn has_threads(self) -> (r: bool)
        ensures
            r == self.threaded(),
    {
        match self {
            Platform::Native => true,
            Platform::Wasm { threads } => threads,
        }
    }

    /// Whether suspending the running task switches away from it. A module does
    /// so through its host; without a suspender installed the call returns at
    /// once, and the task runs to completion.
    pub fn suspends(self, has_suspender: bool) -> (r: bool)
        ensures
            r == (self is Native || has_suspender),
    {
        match self {
            Platform::Native => true,
            Platform::Wasm { threads: _ } => has_suspender,
        }
    }
}

} // verus!
