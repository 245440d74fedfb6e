//! The reactor: a world's sources of external wakeups. A source's handler runs
//! on the world's main context, between turns, each time its signal is raised;
//! raises before it runs fold into one.

use vstd::prelude::*;

use crate::sched::world::{Command, World};

verus! {

/// A source's handle, raised from any thread.
#[derive(Clone, Copy, Debug, PartialEq, Eq, Structural)]
pub struct Signal {
    pub world: u64,
    pub id: u64,
}

impl Signal {
    /// Ask the source's world to run the handler at its next turn. `false`, and
    /// nothing differs, when the world is not among `worlds`: it is gone.
    pub fn raise(&self, worlds: &mut Vec<World>) -> (told: bool)
        requires
            forall|i: int| 0 <= i < old(worlds)@.len() ==> (#[trigger] old(worlds)@[i]).inv(),
        ensures
            forall|i: int| 0 <= i < final(worlds)@.len() ==> (#[trigger] final(worlds)@[i]).inv(),
            told == (first_world(old(worlds)@, self.world) is Some),
            match first_world(old(worlds)@, self.world) {
                Some(at) => {
                    &&& 0 <= at < old(worlds)@.len()
                    &&& final(worlds)@ == old(worlds)@.update(at, final(worlds)@[at])
                    &&& raised(old(worlds)@[at], final(worlds)@[at], self.id)
                },
                None => final(worlds)@ == old(worlds)@,
            },
    {
        let mut i: usize = 0;
        let ghost all = worlds@;
        assert(all.skip(0) =~= all);
        while i < worlds.len()
            invariant
                i <= worlds.len(),
                worlds@ == all,
                all == old(worlds)@,
                forall|k: int| 0 <= k < all.len() ==> (#[trigger] all[k]).inv(),
                first_world(all, self.world) == after_skip(first_world(all.skip(i as int), self.world), i as int),
            decreases worlds.len() - i,
        {
            assert(all.skip(i as int).drop_first() =~= all.skip(i + 1));
            assert(all.skip(i as int)[0] == all[i as int]);
            if worlds[i].id == self.world {
                worlds[i].push(Command::Ready(self.id));
                return true;
            }
            i = i + 1;
        }
        false
    }
}

/// The first of `worlds` with this id.
pub open spec fn first_world(worlds: Seq<World>, id: u64) -> Option<int>
    decreases worlds.len(),
{
    if worlds.len() == 0 {
        None
    } else if worlds[0].id == id {
        Some(0)
    } else {
        after_skip(first_world(worlds.drop_first(), id), 1)
    }
}

/// An index into what is left after `n` were skipped, as one into the whole.
pub open spec fn after_skip(at: Option<int>, n: int) -> Option<int> {
    match at {
        Some(i) => Some(i + n),
        None => None,
    }
}

/// `after` is `before` with the signal `id` left for its next step.
pub open spec fn raised(before: World, after: World, id: u64) -> bool {
    &&& after.mailbox@ == before.mailbox@.push(Command::Ready(id))
    &&& after.rest_same(&before)
    &&& after.tasks == before.tasks
    &&& after.ready == before.ready
    &&& after.timers == before.timers
}

/// The sources of one world.
pub struct Sources {
    pub world: u64,
    pub live: Vec<u64>,
    pub next: u64,
}

impl Sources {
    /// No source twice, and the next one is new.
    pub open spec fn inv(&self) -> bool {
        &&& self.live@.no_duplicates()
        &&& forall|i: int| 0 <= i < self.live@.len() ==> #[trigger] self.live@[i] < self.next
    }

    pub fn new(world: u64) -> (s: Sources)
        ensures
            s.inv(),
            s.world == world,
            s.live@ == Seq::<u64>::empty(),
            s.next == 1,
    {
        Sources { world, live: Vec::new(), next: 1 }
    }

    /// Add a source: the signal that runs its handler.
    pub fn add_source(&mut self) -> (s: Signal)
        requires
            old(self).inv(),
            old(self).next < u64::MAX,
        ensures
            final(self).inv(),
            s == (Signal { world: old(self).world, id: old(self).next }),
            !old(self).live@.contains(s.id),
            final(self).live@ == old(self).live@.push(s.id),
            final(self).world == old(self).world,
            final(self).next == old(self).next + 1,
    {
        let id: u64 = self.next;
        self.next = self.next + 1;
        self.live.push(id);
        Signal { world: self.world, id }
    }

    fn position(&self, id: u64) -> (r: Option<usize>)
        requires
            self.inv(),
        ensures
            match r {
                Some(i) => i < self.live@.len() && self.live@[i as int] == id,
                None => !self.live@.contains(id),
            },
    {
        let mut i: usize = 0;
        while i < self.live.len()
            invariant
                i <= self.live.len(),
                forall|k: int| 0 <= k < i ==> self.live@[k] != id,
            decreases self.live.len() - i,
        {
            if self.live[i] == id {
                return Some(i);
            }
            i = i + 1;
        }
        None
    }

    /// Forget a source.
    pub fn remove_source(&mut self, signal: &Signal)
        requires
            old(self).inv(),
        ensures
            final(self).inv(),
            final(self).world == old(self).world,
            final(self).next == old(self).next,
            forall|id: u64|
                final(self).live@.contains(id) <==> old(self).live@.contains(id) && id
                    != signal.id,
    {
        if let Some(i) = self.position(signal.id) {
            let ghost was = self.live@;
            let _gone: u64 = self.live.remove(i);
            proof {
                let now = self.live@;
                assert(now.no_duplicates()) by {
                    assert forall|a: int, b: int|
                        0 <= a < now.len() && 0 <= b < now.len() && a != b implies now[a]
                        != now[b] by {
                        let oa = if a < i { a } else { a + 1 };
                        let ob = if b < i { b } else { b + 1 };
                        assert(now[a] == was[oa] && now[b] == was[ob]);
                    }
                }
                assert forall|k: int| 0 <= k < now.len() implies #[trigger] now[k]
                    < self.next by {
                    let o = if k < i { k } else { k + 1 };
                    assert(now[k] == was[o]);
                }
                assert forall|id: u64|
                    now.contains(id) <==> was.contains(id) && id != signal.id by {
                    if now.contains(id) {
                        let k = choose|k: int| 0 <= k < now.len() && now[k] == id;
                        let o = if k < i { k } else { k + 1 };
                        assert(was[o] == id);
                    }
                    if was.contains(id) && id != signal.id {
                        let k = choose|k: int| 0 <= k < was.len() && was[k] == id;
                        let o = if k < i { k } else { k - 1 };
                        assert(now[o] == id);
                    }
                }
            }
        }
    }

    /// The handlers to run for the signals raised, in their order; a raise
    /// after its source is removed does nothing.
    pub fn due(&self, raised: &Vec<u64>) -> (r: Vec<u64>)
        requires
            self.inv(),
        ensures
            r@ == raised@.filter(|id: u64| self.live@.contains(id)),
    {
        let mut r: Vec<u64> = Vec::new();
        let mut i: usize = 0;
        let ghost live = |id: u64| self.live@.contains(id);
        assert(raised@.take(0).filter(live) =~= Seq::<u64>::empty()) by {
            reveal(Seq::filter);
        }
        while i < raised.len()
            invariant
                self.inv(),
                i <= raised.len(),
                live == (|id: u64| self.live@.contains(id)),
                r@ == raised@.take(i as int).filter(live),
            decreases raised.len() - i,
        {
            assert(raised@.take(i + 1).drop_last() =~= raised@.take(i as int));
            reveal(Seq::filter);
            if self.position(raised[i]).is_some() {
                r.push(raised[i]);
            }
            i = i + 1;
        }
        assert(raised@.take(i as int) =~= raised@);
        r
    }
}

} // verus!
