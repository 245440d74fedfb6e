//! Work a collection leaves behind: handles given up inside it, and the
//! finalizers of blocks it found dead. Both wait until the lock is free.

use vstd::prelude::*;

use crate::heap::handles::{Handle, HandleTable};

verus! {

/// The queues drained at the outermost release of the lock.
pub struct Deferred {
    pub releases: Vec<Handle>,
    /// Blocks whose finalizer is due, with the word that names it.
    pub finalizers: Vec<(usize, u64)>,
    /// Set while a batch of finalizers runs: one may allocate, collect and
    /// come back here, and what it queues waits for the next batch.
    pub running: bool,
}

/// What is left of a slot after `n` releases.
pub open spec fn after_releases(v: Option<(usize, u32)>, n: nat) -> Option<(usize, u32)> {
    match v {
        Some((p, refs)) => if n >= refs {
            None
        } else {
            Some((p, (refs - n) as u32))
        },
        None => None,
    }
}

/// How often `h` stands in `s`.
pub open spec fn times(s: Seq<Handle>, h: Handle) -> nat
    decreases s.len(),
{
    if s.len() == 0 {
        0
    } else {
        times(s.drop_last(), h) + if s.last() == h {
            1nat
        } else {
            0
        }
    }
}

impl Deferred {
    pub fn new() -> (d: Deferred)
        ensures
            d.releases@ == Seq::<Handle>::empty(),
            d.finalizers@ == Seq::<(usize, u64)>::empty(),
            !d.running,
    {
        Deferred { releases: Vec::new(), finalizers: Vec::new(), running: false }
    }

    /// Whether anything waits.
    pub fn pending(&self) -> (r: bool)
        ensures
            r == (self.releases.len() > 0 || self.finalizers.len() > 0),
    {
        self.releases.len() > 0 || self.finalizers.len() > 0
    }

    /// Release every queued handle.
    pub fn release_deferred_handles(&mut self, handles: &mut HandleTable)
        requires
            old(handles).inv(),
        ensures
            final(handles).inv(),
            *final(self) == (Deferred { releases: final(self).releases, ..*old(self) }),
            final(self).releases@ == Seq::<Handle>::empty(),
            final(handles).slots.len() == old(handles).slots.len(),
            forall|h: Handle| #[trigger]
                final(handles).live(h) == after_releases(
                    old(handles).live(h),
                    times(old(self).releases@, h),
                ),
    {
        let mut i: usize = 0;
        while i < self.releases.len()
            invariant
                *self == *old(self),
                handles.inv(),
                handles.slots.len() == old(handles).slots.len(),
                i <= self.releases.len(),
                forall|h: Handle| #[trigger]
                    handles.live(h) == after_releases(
                        old(handles).live(h),
                        times(self.releases@.take(i as int), h),
                    ),
            decreases self.releases.len() - i,
        {
            let ghost before = *handles;
            let g: Handle = self.releases[i];
            handles.release(g);
            proof {
                let next = self.releases@.take(i + 1);
                assert(next.drop_last() =~= self.releases@.take(i as int));
                assert forall|h: Handle| #[trigger]
                    handles.live(h) == after_releases(old(handles).live(h), times(next, h)) by {
                    assert(before.live(h) == after_releases(
                        old(handles).live(h),
                        times(self.releases@.take(i as int), h),
                    ));
                }
            }
            i = i + 1;
        }
        assert(self.releases@.take(i as int) =~= self.releases@);
        self.releases = Vec::new();
    }

    /// The finalizers that are due, for the caller to run; none, and nothing
    /// taken, while a batch runs.
    pub fn take_finalizers(&mut self) -> (due: Vec<(usize, u64)>)
        ensures
            old(self).running ==> due@.len() == 0 && *final(self) == *old(self),
            !old(self).running ==> due@ == old(self).finalizers@ && final(
                self).finalizers@.len() == 0 && final(self).running && final(self).releases == old(
                self,
            ).releases,
    {
        if self.running {
            return Vec::new();
        }
        self.running = true;
        let mut due: Vec<(usize, u64)> = Vec::new();
        due.append(&mut self.finalizers);
        due
    }

    /// The batch has run.
    pub fn finished(&mut self)
        ensures
            !final(self).running,
            final(self).releases == old(self).releases,
            final(self).finalizers == old(self).finalizers,
    {
        self.running = false;
    }
}

/// Queue `h` for release once the lock is free; nothing for the null handle.
pub fn handle_release_deferred(queue: &mut Deferred, h: Handle)
    ensures
        final(queue).releases@ == if h.0 == 0 {
            old(queue).releases@
        } else {
            old(queue).releases@.push(h)
        },
        final(queue).finalizers == old(queue).finalizers,
        final(queue).running == old(queue).running,
{
    if h.is_null() {
        return ;
    }
    queue.releases.push(h);
}

/// Releasing a handle once for each time it was taken frees its slot, and
/// not before.
pub proof fn law_releases_balance(v: Option<(usize, u32)>, n: nat)
    ensures
        v matches Some((p, refs)) ==> (after_releases(v, n) is None <==> n >= refs),
        v is None ==> after_releases(v, n) is None,
{
}

} // verus!
