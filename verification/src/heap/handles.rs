//! Counted references to heap objects, held outside the heap. Every live slot
//! is a root.

use vstd::prelude::*;

verus! {

/// A counted reference to a heap object. Zero is null; the rest index the
/// table plus one.
#[derive(Clone, Copy, Debug, PartialEq, Eq, Structural, Hash)]
pub struct Handle(pub u32);

impl Handle {
    /// The handle of nothing.
    pub fn null() -> (h: Handle)
        ensures
            h == Handle(0),
    {
        Handle(0)
    }

    /// The raw word, for a caller that stores handles as integers.
    pub fn as_raw(self) -> (r: u32)
        ensures
            r == self.0,
    {
        self.0
    }

    pub fn from_raw(raw: u32) -> (h: Handle)
        ensures
            h == Handle(raw),
    {
        Handle(raw)
    }

    pub fn is_null(self) -> (r: bool)
        ensures
            r == (self.0 == 0),
    {
        self.0 == 0
    }
}

#[derive(Clone, Copy)]
pub struct HandleSlot {
    pub ptr: usize,
    /// Zero for a free slot.
    pub refs: u32,
}

/// The slots behind the handles, and the free ones among them.
pub struct HandleTable {
    pub slots: Vec<HandleSlot>,
    pub free: Vec<u32>,
}

impl HandleTable {
    /// The address and the count behind `h`, while it is live.
    pub open spec fn live(&self, h: Handle) -> Option<(usize, u32)> {
        if 1 <= h.0 <= self.slots.len() && self.slots[h.0 - 1].refs != 0 {
            Some((self.slots[h.0 - 1].ptr, self.slots[h.0 - 1].refs))
        } else {
            None
        }
    }

    /// Whether slot `i` is on the free list.
    pub open spec fn listed(&self, i: int) -> bool {
        exists|k: int| 0 <= k < self.free.len() && #[trigger] self.free[k] == i
    }

    /// The free list names exactly the free slots, each once, and every slot
    /// has a handle.
    pub open spec fn inv(&self) -> bool {
        &&& self.slots.len() <= u32::MAX
        &&& forall|k: int|
            0 <= k < self.free.len() ==> (#[trigger] self.free[k]) < self.slots.len()
                && self.slots[self.free[k] as int].refs == 0
        &&& forall|j: int, k: int|
            0 <= j < k < self.free.len() ==> #[trigger] self.free[j] != #[trigger] self.free[k]
        &&& forall|i: int|
            0 <= i < self.slots.len() && (#[trigger] self.slots[i]).refs == 0 ==> self.listed(i)
    }

    /// Whether one more handle can be made.
    pub open spec fn room(&self) -> bool {
        self.free.len() > 0 || self.slots.len() < u32::MAX
    }

    /// `self` is `before` with `ptr` behind the handle `h`: in the slot that was
    /// freed last, or in a new one. Nothing differs for null.
    pub open spec fn inserted(&self, before: &HandleTable, ptr: usize, h: Handle) -> bool {
        let slot = HandleSlot { ptr, refs: 1 };
        if ptr == 0 {
            h == Handle(0) && *self == *before
        } else if before.free.len() > 0 {
            let i = before.free@.last();
            &&& h == Handle((i + 1) as u32)
            &&& self.slots@ == before.slots@.update(i as int, slot)
            &&& self.free@ == before.free@.drop_last()
        } else {
            &&& h == Handle((before.slots.len() + 1) as u32)
            &&& self.slots@ == before.slots@.push(slot)
            &&& self.free@ == before.free@
        }
    }

    /// `self` is `before` with one reference more behind `h`, where it is live.
    pub open spec fn retained(&self, before: &HandleTable, h: Handle) -> bool {
        &&& self.free@ == before.free@
        &&& self.slots@ == match before.live(h) {
            Some((ptr, refs)) => before.slots@.update(
                h.0 - 1,
                HandleSlot { ptr, refs: (refs + 1) as u32 },
            ),
            None => before.slots@,
        }
    }

    /// `self` is `before` with one reference fewer behind `h`, where it is live:
    /// the last frees its slot.
    pub open spec fn released(&self, before: &HandleTable, h: Handle) -> bool {
        match before.live(h) {
            Some((ptr, refs)) => if refs == 1 {
                &&& self.slots@ == before.slots@.update(h.0 - 1, HandleSlot { ptr: 0, refs: 0 })
                &&& self.free@ == before.free@.push((h.0 - 1) as u32)
            } else {
                &&& self.slots@ == before.slots@.update(
                    h.0 - 1,
                    HandleSlot { ptr, refs: (refs - 1) as u32 },
                )
                &&& self.free@ == before.free@
            },
            None => *self == *before,
        }
    }

    pub fn new() -> (t: HandleTable)
        ensures
            t.inv(),
            t.slots@ == Seq::<HandleSlot>::empty(),
            t.free@ == Seq::<u32>::empty(),
            forall|h: Handle| #[trigger] t.live(h) is None,
    {
        HandleTable { slots: Vec::new(), free: Vec::new() }
    }

    /// A slot for `ptr` with one reference; the null handle for null.
    pub fn insert(&mut self, ptr: usize) -> (h: Handle)
        requires
            old(self).inv(),
            ptr == 0 || old(self).room(),
        ensures
            final(self).inv(),
            final(self).inserted(old(self), ptr, h),
            ptr == 0 ==> h == Handle(0) && *final(self) == *old(self),
            ptr != 0 ==> h != Handle(0) && old(self).live(h) is None && final(self).live(h)
                == Some((ptr, 1u32)),
            forall|g: Handle| g != h ==> #[trigger] final(self).live(g) == old(self).live(g),
    {
        if ptr == 0 {
            return Handle::null();
        }
        let slot = HandleSlot { ptr, refs: 1 };
        match self.free.pop() {
            Some(i) => {
                proof {
                    assert(old(self).free[old(self).free.len() - 1] == i);
                }
                self.slots[i as usize] = slot;
                proof {
                    assert forall|k: int| 0 <= k < self.free.len() implies (#[trigger] self.free[k])
                        < self.slots.len() && self.slots[self.free[k] as int].refs == 0 by {
                        assert(self.free[k] == old(self).free[k]);
                    }
                    assert forall|j: int|
                        0 <= j < self.slots.len() && (
                        #[trigger] self.slots[j]).refs == 0 implies self.listed(j) by {
                        assert(old(self).slots[j].refs == 0);
                        let k = choose|k: int|
                            0 <= k < old(self).free.len() && #[trigger] old(self).free[k] == j;
                        assert(k < self.free.len());
                        assert(self.free[k] == j);
                    }
                }
                Handle(i + 1)
            },
            None => {
                self.slots.push(slot);
                Handle(self.slots.len() as u32)
            },
        }
    }

    /// The address behind a live handle, zero for a released or null one.
    pub fn get(&self, h: Handle) -> (ptr: usize)
        ensures
            ptr == match self.live(h) {
                Some((p, _)) => p,
                None => 0,
            },
    {
        if h.0 == 0 || h.0 as usize > self.slots.len() {
            return 0;
        }
        let slot: HandleSlot = self.slots[h.0 as usize - 1];
        if slot.refs != 0 {
            slot.ptr
        } else {
            0
        }
    }

    /// One more reference to a live handle; nothing on any other.
    pub fn retain(&mut self, h: Handle)
        requires
            old(self).inv(),
            old(self).live(h) matches Some((_, refs)) ==> refs < u32::MAX,
        ensures
            final(self).inv(),
            final(self).retained(old(self), h),
            final(self).live(h) == match old(self).live(h) {
                Some((p, refs)) => Some((p, (refs + 1) as u32)),
                None => None,
            },
            forall|g: Handle| g != h ==> #[trigger] final(self).live(g) == old(self).live(g),
    {
        if h.0 == 0 || h.0 as usize > self.slots.len() {
            return ;
        }
        let i: usize = h.0 as usize - 1;
        let slot: HandleSlot = self.slots[i];
        if slot.refs != 0 {
            self.slots[i] = HandleSlot { ptr: slot.ptr, refs: slot.refs + 1 };
            proof {
                assert forall|j: int|
                    0 <= j < self.slots.len() && (
                    #[trigger] self.slots[j]).refs == 0 implies self.listed(j) by {
                    assert(old(self).slots[j].refs == 0);
                    let k = choose|k: int|
                        0 <= k < old(self).free.len() && #[trigger] old(self).free[k] == j;
                    assert(self.free[k] == j);
                }
            }
        }
    }

    /// One reference fewer to a live handle; at zero the slot is free.
    pub fn release(&mut self, h: Handle)
        requires
            old(self).inv(),
        ensures
            final(self).inv(),
            final(self).released(old(self), h),
            final(self).live(h) == match old(self).live(h) {
                Some((p, refs)) => if refs == 1 {
                    None
                } else {
                    Some((p, (refs - 1) as u32))
                },
                None => None,
            },
            forall|g: Handle| g != h ==> #[trigger] final(self).live(g) == old(self).live(g),
    {
        if h.0 == 0 || h.0 as usize > self.slots.len() {
            return ;
        }
        let i: usize = h.0 as usize - 1;
        let slot: HandleSlot = self.slots[i];
        if slot.refs == 0 {
            return ;
        }
        if slot.refs > 1 {
            self.slots[i] = HandleSlot { ptr: slot.ptr, refs: slot.refs - 1 };
            proof {
                assert forall|j: int|
                    0 <= j < self.slots.len() && (
                    #[trigger] self.slots[j]).refs == 0 implies self.listed(j) by {
                    assert(old(self).slots[j].refs == 0);
                    let k = choose|k: int|
                        0 <= k < old(self).free.len() && #[trigger] old(self).free[k] == j;
                    assert(self.free[k] == j);
                }
            }
            return ;
        }
        self.slots[i] = HandleSlot { ptr: 0, refs: 0 };
        self.free.push(i as u32);
        proof {
            assert forall|k: int| 0 <= k < self.free.len() implies (#[trigger] self.free[k])
                < self.slots.len() && self.slots[self.free[k] as int].refs == 0 by {
                if k < old(self).free.len() {
                    assert(self.free[k] == old(self).free[k]);
                }
            }
            assert forall|j: int, k: int| 0 <= j < k < self.free.len() implies #[trigger]
            self.free[j] != #[trigger] self.free[k] by {
                assert(self.free[j] == old(self).free[j]);
                if k < old(self).free.len() {
                    assert(self.free[k] == old(self).free[k]);
                }
            }
            assert forall|j: int|
                0 <= j < self.slots.len() && (#[trigger] self.slots[j]).refs == 0 implies self.listed(
                j,
            ) by {
                if j == i {
                    assert(self.free[self.free.len() - 1] == j);
                } else {
                    assert(old(self).slots[j].refs == 0);
                    let k = choose|k: int|
                        0 <= k < old(self).free.len() && #[trigger] old(self).free[k] == j;
                    assert(self.free[k] == j);
                }
            }
        }
    }

    /// The addresses behind every live handle, in slot order.
    pub open spec fn roots(slots: Seq<HandleSlot>) -> Seq<u64>
        decreases slots.len(),
    {
        if slots.len() == 0 {
            Seq::empty()
        } else {
            let init = HandleTable::roots(slots.drop_last());
            if slots.last().refs != 0 {
                init.push(slots.last().ptr as u64)
            } else {
                init
            }
        }
    }

    /// Every live handle's address is among the roots.
    pub proof fn lemma_roots(&self, h: Handle)
        requires
            self.live(h) is Some,
        ensures
            HandleTable::roots(self.slots@).contains((self.live(h)->0).0 as u64),
    {
        HandleTable::lemma_roots_at(self.slots@, h.0 - 1);
    }

    proof fn lemma_roots_at(slots: Seq<HandleSlot>, i: int)
        requires
            0 <= i < slots.len(),
            slots[i].refs != 0,
        ensures
            HandleTable::roots(slots).contains(slots[i].ptr as u64),
        decreases slots.len(),
    {
        let all = HandleTable::roots(slots);
        let init = HandleTable::roots(slots.drop_last());
        if i == slots.len() - 1 {
            assert(all[all.len() - 1] == slots[i].ptr as u64);
        } else {
            HandleTable::lemma_roots_at(slots.drop_last(), i);
            let k = choose|k: int| 0 <= k < init.len() && init[k] == slots[i].ptr as u64;
            assert(all[k] == init[k]);
        }
    }

    /// The addresses behind every live handle: the roots a hosted collector
    /// adds to its own.
    pub fn live_addresses(&self) -> (r: Vec<u64>)
        ensures
            r@ == HandleTable::roots(self.slots@),
    {
        let mut out: Vec<u64> = Vec::new();
        let mut i: usize = 0;
        while i < self.slots.len()
            invariant
                i <= self.slots.len(),
                out@ == HandleTable::roots(self.slots@.take(i as int)),
            decreases self.slots.len() - i,
        {
            assert(self.slots@.take(i + 1).drop_last() =~= self.slots@.take(i as int));
            if self.slots[i].refs != 0 {
                out.push(self.slots[i].ptr as u64);
            }
            i = i + 1;
        }
        assert(self.slots@.take(i as int) =~= self.slots@);
        out
    }
}

/// A slot that is freed is handed out again, once: the next handle is the one
/// that was released last.
pub proof fn law_freed_handle_is_reused(
    before: &HandleTable,
    freed: &HandleTable,
    after: &HandleTable,
    h: Handle,
    ptr: usize,
    g: Handle,
)
    requires
        before.inv(),
        before.live(h) matches Some((_, refs)) && refs == 1,
        freed.released(before, h),
        ptr != 0,
        after.inserted(freed, ptr, g),
    ensures
        g == h,
        freed.live(h) is None,
        after.live(h) == Some((ptr, 1u32)),
        after.free@ == before.free@,
        forall|o: Handle| o != h ==> #[trigger] after.live(o) == before.live(o),
{
    assert(freed.free@.last() == h.0 - 1);
    assert(after.free@ =~= before.free@);
}

} // verus!
