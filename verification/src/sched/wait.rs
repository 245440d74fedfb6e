//! Wait tokens: the one blocking primitive, and the registry that lets a wake
//! from any thread find the world and task that are parked on it.

use vstd::prelude::*;

use crate::sched::task::{ResumeCause, TaskId};

verus! {

/// One wait operation by one task (or the main context) of one world.
#[derive(Clone, Copy, Debug, PartialEq, Eq, Hash, Structural)]
pub struct Waiter {
    /// Zero for a thread that owns no world.
    pub world: u64,
    pub task: TaskId,
    pub token: u64,
}

impl Waiter {
    pub fn world(&self) -> (w: u64)
        ensures
            w == self.world,
    {
        self.world
    }

    pub fn task(&self) -> (t: TaskId)
        ensures
            t == self.task,
    {
        self.task
    }

    pub fn token(&self) -> (t: u64)
        ensures
            t == self.token,
    {
        self.token
    }

    /// Rebuild a waiter an adapter carried across an ABI in its own layout.
    pub fn from_parts(world: u64, task: TaskId, token: u64) -> (w: Waiter)
        ensures
            w == (Waiter { world, task, token }),
    {
        Waiter { world, task, token }
    }
}

#[derive(Clone, Copy, Debug, PartialEq, Eq, Structural)]
pub enum WaitStatus {
    Waiting,
    Notified,
    TimedOut,
}

/// A wait that was handed out and not finished.
#[derive(Clone, Copy, Debug, PartialEq, Eq, Structural)]
pub struct WaitEntry {
    pub waiter: Waiter,
    pub status: WaitStatus,
}

/// The waits that are open, one per token.
pub struct WaitRegistry {
    pub entries: Vec<WaitEntry>,
    pub next_token: u64,
}

/// The open wait of a token.
pub open spec fn wait_of(entries: Seq<WaitEntry>, token: u64) -> Option<WaitEntry>
    decreases entries.len(),
{
    if entries.len() == 0 {
        None
    } else if entries.last().waiter.token == token {
        Some(entries.last())
    } else {
        wait_of(entries.drop_last(), token)
    }
}

/// One wait per token.
pub open spec fn tokens_apart(entries: Seq<WaitEntry>) -> bool {
    forall|i: int, j: int|
        #![trigger entries[i], entries[j]]
        0 <= i < j < entries.len() ==> entries[i].waiter.token != entries[j].waiter.token
}

pub proof fn lemma_wait_at(entries: Seq<WaitEntry>, i: int)
    requires
        tokens_apart(entries),
        0 <= i < entries.len(),
    ensures
        wait_of(entries, entries[i].waiter.token) == Some(entries[i]),
    decreases entries.len(),
{
    if i < entries.len() - 1 {
        let init = entries.drop_last();
        assert(init[i] == entries[i]);
        assert(tokens_apart(init)) by {
            assert forall|a: int, b: int|
                #![trigger init[a], init[b]]
                0 <= a < b < init.len() implies init[a].waiter.token != init[b].waiter.token by {
                let _ = entries[a];
                let _ = entries[b];
            }
        }
        lemma_wait_at(init, i);
        assert(entries[entries.len() - 1].waiter.token != entries[i].waiter.token);
    }
}

pub proof fn lemma_wait_none(entries: Seq<WaitEntry>, token: u64)
    requires
        forall|i: int| 0 <= i < entries.len() ==> (#[trigger] entries[i]).waiter.token != token,
    ensures
        wait_of(entries, token) is None,
    decreases entries.len(),
{
    if entries.len() > 0 {
        let init = entries.drop_last();
        assert forall|i: int| 0 <= i < init.len() implies (#[trigger] init[i]).waiter.token
            != token by {
            assert(init[i] == entries[i]);
        }
        lemma_wait_none(init, token);
    }
}

pub proof fn lemma_wait_found(entries: Seq<WaitEntry>, token: u64) -> (i: int)
    requires
        wait_of(entries, token) is Some,
    ensures
        0 <= i < entries.len(),
        entries[i].waiter.token == token,
        wait_of(entries, token) == Some(entries[i]),
    decreases entries.len(),
{
    if entries.last().waiter.token == token {
        entries.len() - 1
    } else {
        let i = lemma_wait_found(entries.drop_last(), token);
        i
    }
}

/// The waits with the one of `entry`'s token replaced by it.
pub open spec fn with_wait(entries: Seq<WaitEntry>, after: Seq<WaitEntry>, entry: WaitEntry) -> bool {
    forall|t: u64| #[trigger]
        wait_of(after, t) == if t == entry.waiter.token {
            Some(entry)
        } else {
            wait_of(entries, t)
        }
}

/// The waits without the one of `token`.
pub open spec fn without_wait(entries: Seq<WaitEntry>, after: Seq<WaitEntry>, token: u64) -> bool {
    forall|t: u64| #[trigger]
        wait_of(after, t) == if t == token {
            None
        } else {
            wait_of(entries, t)
        }
}

proof fn lemma_waits_same(a: Seq<WaitEntry>, b: Seq<WaitEntry>, token: u64)
    requires
        tokens_apart(a),
        tokens_apart(b),
        forall|e: WaitEntry|
            e.waiter.token == token ==> (#[trigger] a.contains(e) <==> b.contains(e)),
    ensures
        wait_of(a, token) == wait_of(b, token),
{
    if wait_of(a, token) is Some {
        let i = lemma_wait_found(a, token);
        assert(a.contains(a[i]));
        assert(b.contains(a[i]));
        let j = choose|j: int| 0 <= j < b.len() && b[j] == a[i];
        lemma_wait_at(b, j);
    } else if wait_of(b, token) is Some {
        let i = lemma_wait_found(b, token);
        assert(b.contains(b[i]));
        assert(a.contains(b[i]));
        let j = choose|j: int| 0 <= j < a.len() && a[j] == b[i];
        lemma_wait_at(a, j);
    }
}

impl WaitRegistry {
    pub open spec fn inv(&self) -> bool {
        &&& tokens_apart(self.entries@)
        &&& forall|i: int|
            0 <= i < self.entries@.len() ==> (#[trigger] self.entries@[i]).waiter.token
                < self.next_token
    }

    pub fn new() -> (r: WaitRegistry)
        ensures
            r.inv(),
            r.entries@ == Seq::<WaitEntry>::empty(),
            r.next_token == 1,
    {
        WaitRegistry { entries: Vec::new(), next_token: 1 }
    }

    fn position(&self, token: u64) -> (r: Option<usize>)
        ensures
            match r {
                Some(i) => i < self.entries.len() && self.entries@[i as int].waiter.token == token,
                None => forall|k: int|
                    0 <= k < self.entries@.len() ==> (#[trigger] self.entries@[k]).waiter.token
                        != token,
            },
    {
        let mut i: usize = 0;
        while i < self.entries.len()
            invariant
                i <= self.entries.len(),
                forall|k: int|
                    0 <= k < i ==> (#[trigger] self.entries@[k]).waiter.token != token,
            decreases self.entries.len() - i,
        {
            if self.entries[i].waiter.token == token {
                return Some(i);
            }
            i = i + 1;
        }
        None
    }

    /// A token for the calling context. Registered before it is handed out, so
    /// a wake that races the park is not lost.
    pub fn new_waiter(&mut self, world: u64, task: TaskId) -> (w: Waiter)
        requires
            old(self).inv(),
            old(self).next_token < u64::MAX,
        ensures
            final(self).inv(),
            w == (Waiter { world, task, token: old(self).next_token }),
            wait_of(old(self).entries@, w.token) is None,
            with_wait(
                old(self).entries@,
                final(self).entries@,
                WaitEntry { waiter: w, status: WaitStatus::Waiting },
            ),
            final(self).next_token == old(self).next_token + 1,
    {
        let waiter = Waiter { world, task, token: self.next_token };
        let entry = WaitEntry { waiter, status: WaitStatus::Waiting };
        proof {
            lemma_wait_none(self.entries@, self.next_token);
        }
        self.entries.push(entry);
        self.next_token = self.next_token + 1;
        assert(self.entries@.drop_last() =~= old(self).entries@);
        waiter
    }

    /// Change the status of the wait at `i`.
    fn set_status(&mut self, i: usize, status: WaitStatus)
        requires
            old(self).inv(),
            i < old(self).entries@.len(),
        ensures
            final(self).inv(),
            final(self).next_token == old(self).next_token,
            with_wait(
                old(self).entries@,
                final(self).entries@,
                WaitEntry { waiter: old(self).entries@[i as int].waiter, status },
            ),
    {
        let ghost was = self.entries@;
        let entry = WaitEntry { waiter: self.entries[i].waiter, status };
        self.entries.set(i, entry);
        proof {
            let now = self.entries@;
            assert forall|a: int, b: int|
                #![trigger now[a], now[b]]
                0 <= a < b < now.len() implies now[a].waiter.token != now[b].waiter.token by {
                let _ = was[a];
                let _ = was[b];
            }
            assert forall|t: u64| #[trigger]
                wait_of(now, t) == if t == entry.waiter.token {
                    Some(entry)
                } else {
                    wait_of(was, t)
                } by {
                if t == entry.waiter.token {
                    lemma_wait_at(now, i as int);
                } else {
                    assert forall|e: WaitEntry|
                        e.waiter.token == t implies (#[trigger] was.contains(e) <==> now.contains(
                        e,
                    )) by {
                        if was.contains(e) {
                            let k = choose|k: int| 0 <= k < was.len() && was[k] == e;
                            assert(now[k] == e);
                        }
                        if now.contains(e) {
                            let k = choose|k: int| 0 <= k < now.len() && now[k] == e;
                            assert(was[k] == e);
                        }
                    }
                    lemma_waits_same(was, now, t);
                }
            }
        }
    }

    /// Claim a waiter's notification: false if it was already notified, timed
    /// out or finished, or is not the one that was registered.
    pub fn claim_notification(&mut self, waiter: Waiter) -> (won: bool)
        requires
            old(self).inv(),
        ensures
            final(self).inv(),
            final(self).next_token == old(self).next_token,
            won == (wait_of(old(self).entries@, waiter.token) == Some(
                WaitEntry { waiter, status: WaitStatus::Waiting },
            )),
            won ==> with_wait(
                old(self).entries@,
                final(self).entries@,
                WaitEntry { waiter, status: WaitStatus::Notified },
            ),
            !won ==> final(self).entries@ == old(self).entries@,
    {
        match self.position(waiter.token) {
            Some(i) => {
                proof {
                    lemma_wait_at(self.entries@, i as int);
                }
                let e: WaitEntry = self.entries[i];
                if e.waiter != waiter || e.status != WaitStatus::Waiting {
                    return false;
                }
                self.set_status(i, WaitStatus::Notified);
                true
            },
            None => {
                proof {
                    lemma_wait_none(self.entries@, waiter.token);
                }
                false
            },
        }
    }

    /// Claim a wait for its deadline: false if it was notified first, timed out
    /// or finished.
    pub fn claim_timeout(&mut self, token: u64) -> (won: bool)
        requires
            old(self).inv(),
        ensures
            final(self).inv(),
            final(self).next_token == old(self).next_token,
            won == (wait_of(old(self).entries@, token) matches Some(e) && e.status
                == WaitStatus::Waiting),
            won ==> with_wait(
                old(self).entries@,
                final(self).entries@,
                WaitEntry {
                    waiter: wait_of(old(self).entries@, token)->0.waiter,
                    status: WaitStatus::TimedOut,
                },
            ),
            !won ==> final(self).entries@ == old(self).entries@,
    {
        match self.position(token) {
            Some(i) => {
                proof {
                    lemma_wait_at(self.entries@, i as int);
                }
                if self.entries[i].status != WaitStatus::Waiting {
                    return false;
                }
                self.set_status(i, WaitStatus::TimedOut);
                true
            },
            None => {
                proof {
                    lemma_wait_none(self.entries@, token);
                }
                false
            },
        }
    }

    /// The status of an open wait.
    pub fn wait_status(&self, token: u64) -> (r: Option<WaitStatus>)
        requires
            self.inv(),
        ensures
            r == match wait_of(self.entries@, token) {
                Some(e) => Some(e.status),
                None => None,
            },
    {
        match self.position(token) {
            Some(i) => {
                proof {
                    lemma_wait_at(self.entries@, i as int);
                }
                Some(self.entries[i].status)
            },
            None => {
                proof {
                    lemma_wait_none(self.entries@, token);
                }
                None
            },
        }
    }

    /// Close a wait: what its status was.
    pub fn finish_wait(&mut self, token: u64) -> (r: Option<WaitStatus>)
        requires
            old(self).inv(),
        ensures
            final(self).inv(),
            final(self).next_token == old(self).next_token,
            r == match wait_of(old(self).entries@, token) {
                Some(e) => Some(e.status),
                None => None,
            },
            without_wait(old(self).entries@, final(self).entries@, token),
    {
        match self.position(token) {
            Some(i) => {
                let ghost was = self.entries@;
                proof {
                    lemma_wait_at(was, i as int);
                }
                let e: WaitEntry = self.entries.remove(i);
                proof {
                    let now = self.entries@;
                    assert forall|a: int, b: int|
                        #![trigger now[a], now[b]]
                        0 <= a < b < now.len() implies now[a].waiter.token
                        != now[b].waiter.token by {
                        let oa = if a < i { a } else { a + 1 };
                        let ob = if b < i { b } else { b + 1 };
                        assert(was[oa] == now[a] && was[ob] == now[b]);
                    }
                    assert forall|k: int| 0 <= k < now.len() implies (
                    #[trigger] now[k]).waiter.token < self.next_token by {
                        let o = if k < i { k } else { k + 1 };
                        assert(was[o] == now[k]);
                    }
                    assert forall|t: u64| #[trigger]
                        wait_of(now, t) == if t == token {
                            None
                        } else {
                            wait_of(was, t)
                        } by {
                        if t == token {
                            assert forall|k: int| 0 <= k < now.len() implies (
                            #[trigger] now[k]).waiter.token != token by {
                                let o = if k < i { k } else { k + 1 };
                                assert(was[o] == now[k]);
                                assert(was[i as int].waiter.token == token);
                            }
                            lemma_wait_none(now, token);
                        } else {
                            assert forall|x: WaitEntry|
                                x.waiter.token == t implies (#[trigger] was.contains(x)
                                <==> now.contains(x)) by {
                                if was.contains(x) {
                                    let k = choose|k: int| 0 <= k < was.len() && was[k] == x;
                                    let o = if k < i { k } else { k - 1 };
                                    assert(now[o] == x);
                                }
                                if now.contains(x) {
                                    let k = choose|k: int| 0 <= k < now.len() && now[k] == x;
                                    let o = if k < i { k } else { k + 1 };
                                    assert(was[o] == x);
                                }
                            }
                            lemma_waits_same(was, now, t);
                        }
                    }
                }
                Some(e.status)
            },
            None => {
                proof {
                    lemma_wait_none(self.entries@, token);
                }
                None
            },
        }
    }

    /// One look at a wait that is polled: `Some` with whether it was notified
    /// when it is over, `None` to wait on. A wait past its deadline is claimed
    /// for it, unless a notification came first.
    pub fn poll_wait(&mut self, token: u64, past_deadline: bool) -> (r: Option<bool>)
        requires
            old(self).inv(),
        ensures
            final(self).inv(),
            final(self).next_token == old(self).next_token,
            match wait_of(old(self).entries@, token) {
                Some(e) => match e.status {
                    WaitStatus::Notified => r == Some(true),
                    WaitStatus::TimedOut => r == Some(false),
                    WaitStatus::Waiting => if past_deadline {
                        r == Some(false)
                    } else {
                        r is None
                    },
                },
                None => r == Some(false),
            },
            r is Some ==> without_wait(old(self).entries@, final(self).entries@, token),
            r is None ==> final(self).entries@ == old(self).entries@,
    {
        match self.wait_status(token) {
            Some(WaitStatus::Notified) => {
                let _was: Option<WaitStatus> = self.finish_wait(token);
                Some(true)
            },
            Some(WaitStatus::Waiting) => {
                if past_deadline {
                    let _was: Option<WaitStatus> = self.finish_wait(token);
                    Some(false)
                } else {
                    None
                }
            },
            _ => {
                let _was: Option<WaitStatus> = self.finish_wait(token);
                Some(false)
            },
        }
    }

    /// A task about to park: true when it was notified already, and the wait is
    /// over.
    pub fn notified_before_park(&mut self, token: u64) -> (r: bool)
        requires
            old(self).inv(),
        ensures
            final(self).inv(),
            final(self).next_token == old(self).next_token,
            r == (wait_of(old(self).entries@, token) matches Some(e) && e.status
                == WaitStatus::Notified),
            r ==> without_wait(old(self).entries@, final(self).entries@, token),
            !r ==> final(self).entries@ == old(self).entries@,
    {
        match self.wait_status(token) {
            Some(WaitStatus::Notified) => {
                let _was: Option<WaitStatus> = self.finish_wait(token);
                true
            },
            _ => false,
        }
    }

    /// A task that parked is running again: whether it was notified. The wait
    /// is over.
    pub fn after_park(&mut self, token: u64, cause: ResumeCause) -> (notified: bool)
        requires
            old(self).inv(),
        ensures
            final(self).inv(),
            final(self).next_token == old(self).next_token,
            notified == (cause == ResumeCause::Notified || (wait_of(
                old(self).entries@,
                token,
            ) matches Some(e) && e.status == WaitStatus::Notified)),
            without_wait(old(self).entries@, final(self).entries@, token),
    {
        let status: Option<WaitStatus> = self.wait_status(token);
        let _was: Option<WaitStatus> = self.finish_wait(token);
        match status {
            Some(WaitStatus::Notified) => true,
            _ => cause == ResumeCause::Notified,
        }
    }
}

/// A wait is claimed once: a notification that came first leaves nothing for
/// the deadline, and the other way round.
pub proof fn law_one_claim(
    before: Seq<WaitEntry>,
    after: Seq<WaitEntry>,
    waiter: Waiter,
    status: WaitStatus,
)
    requires
        status != WaitStatus::Waiting,
        with_wait(before, after, WaitEntry { waiter, status }),
    ensures
        wait_of(after, waiter.token) != Some(WaitEntry { waiter, status: WaitStatus::Waiting }),
        !(wait_of(after, waiter.token) matches Some(e) && e.status == WaitStatus::Waiting),
{
    assert(wait_of(after, waiter.token) == Some(WaitEntry { waiter, status }));
}

/// The open waits, by token.
pub open spec fn waits(entries: Seq<WaitEntry>) -> Map<u64, WaitEntry> {
    Map::new(|t: u64| wait_of(entries, t) is Some, |t: u64| wait_of(entries, t)->0)
}

/// One wait replaced is one entry of the map.
pub proof fn lemma_waits_with(before: Seq<WaitEntry>, after: Seq<WaitEntry>, entry: WaitEntry)
    requires
        with_wait(before, after, entry),
    ensures
        waits(after) == waits(before).insert(entry.waiter.token, entry),
{
    assert(waits(after) =~= waits(before).insert(entry.waiter.token, entry));
}

/// One wait closed is one entry less.
pub proof fn lemma_waits_without(before: Seq<WaitEntry>, after: Seq<WaitEntry>, token: u64)
    requires
        without_wait(before, after, token),
    ensures
        waits(after) == waits(before).remove(token),
{
    assert(waits(after) =~= waits(before).remove(token));
}

} // verus!
