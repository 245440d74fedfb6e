//! Worker worlds: threads that each run a world, for task bodies that may run
//! off the spawning thread. A task goes to the least-loaded worker before its
//! stack exists and never moves afterwards.

use vstd::prelude::*;

use crate::platform::Platform;
use crate::text::{parse_trimmed, trimmed, usize_value};

verus! {

/// The variables that say how many workers to start, the first set one wins.
#[derive(Clone, Copy, Debug, PartialEq, Eq, Structural)]
pub enum Setting {
    CaribouWorkers,
    AshWorkers,
}

/// How many workers to start. `refused` is the setting that did not parse: the
/// default holds instead, and is said so, since a typo read as zero would look
/// like a speed-up rather than a mistake.
#[derive(Clone, Copy, Debug, PartialEq, Eq, Structural)]
pub struct WorkerCount {
    pub count: usize,
    pub refused: Option<Setting>,
}

/// The workers to start where nothing is set: one fewer than the machine's
/// cores, none where their number is not known.
pub open spec fn machine_default(cores: Option<usize>) -> usize {
    match cores {
        Some(n) => if n > 0 {
            (n - 1) as usize
        } else {
            0
        },
        None => 0,
    }
}

/// The workers to start.
pub open spec fn worker_count_of(
    own: Option<Seq<char>>,
    other: Option<Seq<char>>,
    cores: Option<usize>,
) -> WorkerCount {
    match own {
        Some(text) => counted(text, Setting::CaribouWorkers, cores),
        None => match other {
            Some(text) => counted(text, Setting::AshWorkers, cores),
            None => WorkerCount { count: machine_default(cores), refused: None },
        },
    }
}

/// The workers a set variable asks for.
pub open spec fn counted(text: Seq<char>, name: Setting, cores: Option<usize>) -> WorkerCount {
    match usize_value(trimmed(text)) {
        Some(count) => WorkerCount { count, refused: None },
        None => WorkerCount { count: machine_default(cores), refused: Some(name) },
    }
}

pub fn default_count(cores: Option<usize>) -> (n: usize)
    ensures
        n == machine_default(cores),
{
    match cores {
        Some(n) => if n > 0 {
            n - 1
        } else {
            0
        },
        None => 0,
    }
}

fn count_or_default(text: &str, name: Setting, cores: Option<usize>) -> (r: WorkerCount)
    ensures
        r == counted(text@, name, cores),
{
    match parse_trimmed(text) {
        Some(count) => WorkerCount { count, refused: None },
        None => WorkerCount { count: default_count(cores), refused: Some(name) },
    }
}

/// Worker worlds to start, zero for none, from the texts of the two variables
/// and the machine's number of cores.
pub fn configured_worker_count(
    own: Option<&str>,
    other: Option<&str>,
    cores: Option<usize>,
) -> (r: WorkerCount)
    ensures
        r == worker_count_of(
            match own {
                Some(t) => Some(t@),
                None => None,
            },
            match other {
                Some(t) => Some(t@),
                None => None,
            },
            cores,
        ),
{
    match own {
        Some(text) => count_or_default(text, Setting::CaribouWorkers, cores),
        None => match other {
            Some(text) => count_or_default(text, Setting::AshWorkers, cores),
            None => WorkerCount { count: default_count(cores), refused: None },
        },
    }
}

impl WorkerCount {
    /// Whether a task may be placed off the calling world. In a wasm module with
    /// threads the host answers, by granting or refusing the first.
    pub fn has_worker_pool(&self, platform: Platform) -> (r: bool)
        ensures
            r == match platform {
                Platform::Native => self.count != 0,
                Platform::Wasm { threads } => threads,
            },
    {
        match platform {
            Platform::Native => self.count != 0,
            Platform::Wasm { threads } => threads,
        }
    }

    /// Worker worlds a task may be placed on.
    pub fn worker_count(&self, platform: Platform) -> (n: usize)
        ensures
            n == if platform.threaded() {
                self.count
            } else {
                0
            },
    {
        if platform.has_threads() {
            self.count
        } else {
            0
        }
    }
}

/// Where a task goes.
#[derive(Clone, Copy, Debug, PartialEq, Eq, Structural)]
pub enum Placement {
    /// To the worker of this number.
    Worker(usize),
    /// To a worker that is started for it, of this number. Where the host gives
    /// no more threads, the spawning world runs the task.
    Start(usize),
    /// The spawning world runs it.
    Here,
}

/// The first worker without a task.
pub open spec fn first_idle(assigned: Seq<usize>) -> Option<int>
    decreases assigned.len(),
{
    if assigned.len() == 0 {
        None
    } else {
        match first_idle(assigned.drop_last()) {
            Some(i) => Some(i),
            None => if assigned.last() == 0 {
                Some(assigned.len() - 1)
            } else {
                None
            },
        }
    }
}

/// An idle worker that was found stays the first.
proof fn lemma_first_idle(assigned: Seq<usize>, n: int)
    requires
        0 < n <= assigned.len(),
        first_idle(assigned.take(n)) is Some,
    ensures
        first_idle(assigned) == first_idle(assigned.take(n)),
    decreases assigned.len(),
{
    if n == assigned.len() {
        assert(assigned.take(n) =~= assigned);
    } else {
        assert(assigned.drop_last().take(n) =~= assigned.take(n));
        lemma_first_idle(assigned.drop_last(), n);
    }
}

/// Whether `offset` from `start`, round the workers, is the first of the least
/// loaded.
pub open spec fn least_from(assigned: Seq<usize>, start: int, offset: int) -> bool {
    let n = assigned.len() as int;
    &&& 0 <= offset < n
    &&& forall|k: int|
        0 <= k < n ==> assigned[(start + offset) % n] <= #[trigger] assigned[(start + k) % n]
    &&& forall|k: int|
        0 <= k < offset ==> assigned[(start + offset) % n] < #[trigger] assigned[(start + k) % n]
}

/// The pool's part of a dispatch: where the next rotation starts.
pub struct WorkerPool {
    pub next: usize,
}

impl WorkerPool {
    pub fn new() -> (p: WorkerPool)
        ensures
            p.next == 0,
    {
        WorkerPool { next: 0 }
    }

    /// Where the next task goes, `assigned` being how many each worker has.
    /// Natively to the least loaded worker, if there is one. In a wasm module a
    /// worker runs a body straight through and cannot hold a second task while
    /// the first waits, so the pool grows: to a worker without a task, else to a
    /// new one. Without threads the spawning world runs it.
    pub fn dispatch(&mut self, assigned: &Vec<usize>, platform: Platform) -> (r: Placement)
        ensures
            match platform {
                Platform::Native => if assigned@.len() == 0 {
                    r == Placement::Here && *final(self) == *old(self)
                } else {
                    r matches Placement::Worker(index) && final(self).rotated(
                        old(self),
                        assigned@,
                        index,
                    )
                },
                Platform::Wasm { threads } => {
                    &&& *final(self) == *old(self)
                    &&& r == if !threads {
                        Placement::Here
                    } else {
                        match first_idle(assigned@) {
                            Some(i) => Placement::Worker(i as usize),
                            None => Placement::Start(assigned@.len() as usize),
                        }
                    }
                },
            },
    {
        match platform {
            Platform::Native => match self.least_loaded(assigned) {
                Some(index) => Placement::Worker(index),
                None => Placement::Here,
            },
            Platform::Wasm { threads } => {
                if !threads {
                    return Placement::Here;
                }
                let mut i: usize = 0;
                assert(assigned@.take(0) =~= Seq::<usize>::empty());
                while i < assigned.len()
                    invariant
                        i <= assigned.len(),
                        *self == *old(self),
                        platform == (Platform::Wasm { threads }),
                        threads,
                        first_idle(assigned@.take(i as int)) is None,
                    decreases assigned.len() - i,
                {
                    assert(assigned@.take(i + 1).drop_last() =~= assigned@.take(i as int));
                    if assigned[i] == 0 {
                        proof {
                            lemma_first_idle(assigned@, i + 1);
                        }
                        return Placement::Worker(i);
                    }
                    i = i + 1;
                }
                assert(assigned@.take(i as int) =~= assigned@);
                Placement::Start(assigned.len())
            },
        }
    }

    /// The pool after the worker `index` was taken: the least loaded, the first
    /// from where the rotation stood.
    pub open spec fn rotated(&self, before: &WorkerPool, assigned: Seq<usize>, index: usize) -> bool {
        let n = assigned.len() as int;
        &&& self.next == if before.next == usize::MAX {
            0
        } else {
            before.next + 1
        }
        &&& exists|offset: int| #[trigger]
            least_from(assigned, before.next as int % n, offset) && index == (before.next as int % n
                + offset) % n
    }

    /// Rotate the starting point so equal loads do not favour lane zero, then
    /// take the least-loaded worker; `None` where there are none.
    fn least_loaded(&mut self, assigned: &Vec<usize>) -> (r: Option<usize>)
        ensures
            match r {
                None => assigned@.len() == 0 && *final(self) == *old(self),
                Some(index) => assigned@.len() > 0 && final(self).rotated(
                    old(self),
                    assigned@,
                    index,
                ),
            },
    {
        let n: usize = assigned.len();
        if n == 0 {
            return None;
        }
        let start: usize = self.next % n;
        self.next = self.next.wrapping_add(1);
        let mut best: usize = 0;
        let mut index: usize = start;
        let mut offset: usize = 1;
        let mut at: usize = start;
        proof {
            vstd::arithmetic::div_mod::lemma_small_mod(start as nat, n as nat);
        }
        while offset < n
            invariant
                n == assigned@.len(),
                0 < n,
                start < n,
                at < n,
                index < n,
                1 <= offset <= n,
                best < offset,
                at == (start + offset - 1) % n as int,
                index == (start + best) % n as int,
                forall|k: int|
                    0 <= k < offset ==> assigned@[(start + best) % n as int] <= #[trigger] assigned@[(start
                        + k) % n as int],
                forall|k: int|
                    0 <= k < best ==> assigned@[(start + best) % n as int] < #[trigger] assigned@[(start
                        + k) % n as int],
            decreases n - offset,
        {
            let next: usize = if at == n - 1 {
                0
            } else {
                at + 1
            };
            proof {
                lemma_next(start + offset - 1, n as int);
            }
            at = next;
            if assigned[at] < assigned[index] {
                index = at;
                best = offset;
            }
            offset = offset + 1;
        }
        assert(least_from(assigned@, start as int, best as int));
        Some(index)
    }
}

/// One more, round `n`.
proof fn lemma_next(a: int, n: int)
    requires
        0 <= a,
        0 < n,
    ensures
        (a + 1) % n == if a % n == n - 1 {
            0
        } else {
            a % n + 1
        },
{
    vstd::arithmetic::div_mod::lemma_fundamental_div_mod(a, n);
    let q = a / n;
    let r = a % n;
    vstd::arithmetic::div_mod::lemma_mod_bound(a, n);
    if r == n - 1 {
        assert(a + 1 == n * (q + 1)) by (nonlinear_arith)
            requires
                a == n * q + r,
                r == n - 1,
        ;
        vstd::arithmetic::div_mod::lemma_fundamental_div_mod_converse(a + 1, n, q + 1, 0);
    } else {
        assert(n * q == q * n) by (nonlinear_arith);
        vstd::arithmetic::div_mod::lemma_fundamental_div_mod_converse(a + 1, n, q, r + 1);
    }
}

} // verus!
