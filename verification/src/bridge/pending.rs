//! The pending error, one slot per task.

use vstd::prelude::*;

use crate::heap::handles::{Handle, HandleTable};
use crate::sched::task::TaskId;
use crate::value::Value;

verus! {

/// Past this many slots an insert first drops the entries of tasks that
/// finished without their error being taken.
pub const PENDING_SWEEP_AT: usize = 16;

/// A pending error, rooted while it waits: the slot is not a heap root and the
/// value may be the only reference.
#[derive(Clone, Copy)]
pub struct Pending {
    pub task: TaskId,
    pub value: Value,
    pub root: Handle,
}

/// The pending errors of a world's tasks.
pub struct PendingTable {
    pub slots: Vec<Pending>,
}

/// Whether `list` has a slot of `task` holding `value` under `root`.
pub open spec fn holds(list: Seq<Pending>, task: TaskId, value: Value) -> bool {
    exists|i: int| 0 <= i < list.len() && (#[trigger] list[i]).task == task && list[i].value == value
}

/// Whether `list` has a slot of `task`.
pub open spec fn has_slot(list: Seq<Pending>, task: TaskId) -> bool {
    exists|i: int| 0 <= i < list.len() && (#[trigger] list[i]).task == task
}

/// The pending error of `task`, if it has one.
pub open spec fn pending_of(list: Seq<Pending>, task: TaskId) -> Option<Value> {
    if has_slot(list, task) {
        let i = choose|i: int| 0 <= i < list.len() && (#[trigger] list[i]).task == task;
        Some(list[i].value)
    } else {
        None
    }
}

/// `after` is `before` with `err` as the pending error of `task`. A list that
/// has grown long has lost the entries of tasks that are gone.
pub open spec fn left_pending(
    before: Seq<Pending>,
    after: Seq<Pending>,
    task: TaskId,
    err: Value,
    alive: Seq<TaskId>,
) -> bool {
    &&& forall|t: TaskId, v: Value| #[trigger]
        holds(after, t, v) <==> if t == task {
            v == err
        } else {
            holds(before, t, v) && (before.len() >= 16 ==> exists_task(alive, t))
        }
    &&& pending_of(after, task) == Some(err)
}

/// Whether `h` roots a slot of `list`.
pub open spec fn roots_slot(list: Seq<Pending>, h: Handle) -> bool {
    exists|i: int| 0 <= i < list.len() && (#[trigger] list[i]).root == h
}

/// Whether a task is among the live ones; the main context always is.
pub open spec fn exists_task(alive: Seq<TaskId>, task: TaskId) -> bool {
    task.0 == 0 || alive.contains(task)
}

/// One slot per task; a slot holding an object has a root for it, and no two
/// share one.
pub open spec fn slots_ok(list: Seq<Pending>, handles: &HandleTable) -> bool {
    &&& handles.inv()
    &&& forall|i: int, j: int|
        #![trigger list[i], list[j]]
        0 <= i < j < list.len() ==> list[i].task != list[j].task && (list[i].root.0 == 0
            || list[i].root != list[j].root)
    &&& forall|i: int| 0 <= i < list.len() ==> rooted(#[trigger] list[i], handles)
}

/// A slot's root stands for its object.
pub open spec fn rooted(p: Pending, handles: &HandleTable) -> bool {
    match p.value.address() {
        Some(addr) => handles.live(p.root) matches Some((a, refs)) && a == addr && refs >= 1,
        None => p.root.0 == 0,
    }
}

impl PendingTable {
    pub fn new() -> (t: PendingTable)
        ensures
            t.slots@ == Seq::<Pending>::empty(),
    {
        PendingTable { slots: Vec::new() }
    }

    fn position(&self, task: TaskId) -> (r: Option<usize>)
        ensures
            match r {
                Some(i) => i < self.slots.len() && self.slots[i as int].task == task,
                None => !has_slot(self.slots@, task),
            },
    {
        let mut i: usize = 0;
        while i < self.slots.len()
            invariant
                i <= self.slots.len(),
                forall|k: int| 0 <= k < i ==> (#[trigger] self.slots@[k]).task != task,
            decreases self.slots.len() - i,
        {
            if self.slots[i].task == task {
                return Some(i);
            }
            i = i + 1;
        }
        None
    }

    /// Whether `task` has a pending error.
    pub fn has_pending(&self, task: TaskId) -> (r: bool)
        ensures
            r == has_slot(self.slots@, task),
    {
        match self.position(task) {
            Some(i) => {
                assert(self.slots@[i as int].task == task);
                true
            },
            None => false,
        }
    }

    /// Drop the entries of tasks that are gone.
    fn sweep(&mut self, handles: &mut HandleTable, alive: &Vec<TaskId>)
        requires
            slots_ok(old(self).slots@, old(handles)),
        ensures
            slots_ok(final(self).slots@, final(handles)),
            forall|t: TaskId, v: Value| #[trigger]
                holds(final(self).slots@, t, v) <==> holds(old(self).slots@, t, v) && exists_task(
                    alive@,
                    t,
                ),
            forall|k: int|
                0 <= k < final(self).slots.len() ==> old(self).slots@.contains(
                    #[trigger] final(self).slots@[k],
                ),
            forall|h: Handle|
                (forall|i: int| 0 <= i < old(self).slots.len() ==> (#[trigger] old(
                    self,
                ).slots@[i]).root != h) ==> #[trigger] final(handles).live(h) == old(
                    handles,
                ).live(h),
            final(handles).slots.len() == old(handles).slots.len(),
    {
        let ghost before = self.slots@;
        let ghost handles0 = *handles;
        let mut i: usize = 0;
        while i < self.slots.len()
            invariant
                i <= self.slots.len(),
                handles.slots.len() == handles0.slots.len(),
                slots_ok(self.slots@, handles),
                forall|k: int|
                    0 <= k < i ==> exists_task(alive@, (#[trigger] self.slots@[k]).task),
                forall|t: TaskId, v: Value|
                    holds(self.slots@, t, v) ==> #[trigger] holds(before, t, v),
                forall|t: TaskId, v: Value|
                    holds(before, t, v) && exists_task(alive@, t) ==> #[trigger] holds(
                        self.slots@,
                        t,
                        v,
                    ),
                forall|k: int|
                    0 <= k < self.slots.len() ==> before.contains(#[trigger] self.slots@[k]),
                forall|h: Handle|
                    (forall|k: int| 0 <= k < before.len() ==> (#[trigger] before[k]).root != h)
                        ==> #[trigger] handles.live(h) == handles0.live(h),
            decreases self.slots.len() - i,
        {
            let slot: Pending = self.slots[i];
            if task_exists(alive, slot.task) {
                i = i + 1;
            } else {
                let ghost list = self.slots@;
                let ghost held = *handles;
                let _gone: Pending = self.slots.remove(i);
                handles.release(slot.root);
                proof {
                    lemma_slot_dropped(list, &held, i as int, handles);
                    assert(before.contains(list[i as int]));
                    assert forall|t: TaskId, v: Value|
                        holds(before, t, v) && exists_task(alive@, t) implies #[trigger] holds(
                        self.slots@,
                        t,
                        v,
                    ) by {
                        assert(holds(list, t, v));
                        let k = choose|k: int|
                            0 <= k < list.len() && (#[trigger] list[k]).task == t && list[k].value
                                == v;
                        assert(k != i);
                        if k < i {
                            assert(self.slots@[k] == list[k]);
                        } else {
                            assert(self.slots@[k - 1] == list[k]);
                        }
                    }
                    assert forall|t: TaskId, v: Value|
                        holds(self.slots@, t, v) implies #[trigger] holds(before, t, v) by {
                        let k = choose|k: int|
                            0 <= k < self.slots@.len() && (#[trigger] self.slots@[k]).task == t
                                && self.slots@[k].value == v;
                        let o = if k < i { k } else { k + 1 };
                        assert(list[o] == self.slots@[k]);
                        assert(holds(list, t, v));
                    }
                    assert forall|k: int| 0 <= k < self.slots.len() implies before.contains(
                        #[trigger] self.slots@[k],
                    ) by {
                        let o = if k < i { k } else { k + 1 };
                        assert(list[o] == self.slots@[k]);
                    }
                    assert forall|h: Handle|
                        (forall|k: int| 0 <= k < before.len() ==> (#[trigger] before[k]).root
                            != h) implies #[trigger] handles.live(h) == handles0.live(h) by {
                        let k = choose|k: int| 0 <= k < before.len() && before[k] == slot;
                        assert(before[k].root != h);
                        assert(held.live(h) == handles0.live(h));
                    }
                }
            }
        }
    }

    /// Make `err` the pending error of `task`, replacing any that was not
    /// taken, and root it.
    pub fn set_pending(
        &mut self,
        handles: &mut HandleTable,
        task: TaskId,
        err: Value,
        alive: &Vec<TaskId>,
    )
        requires
            slots_ok(old(self).slots@, old(handles)),
            err.address() is None || old(handles).room(),
        ensures
            slots_ok(final(self).slots@, final(handles)),
            left_pending(old(self).slots@, final(self).slots@, task, err, alive@),
            final(handles).slots.len() == old(handles).slots.len() + (if err.address() is Some
                && old(handles).free.len() == 0 {
                1int
            } else {
                0
            }),
            forall|h: Handle|
                old(handles).live(h) is Some && !roots_slot(old(self).slots@, h)
                    ==> #[trigger] final(handles).live(h) == old(handles).live(h),
    {
        let root: Handle = match err.object_of() {
            Some(p) => handles.insert(p),
            None => Handle::null(),
        };
        proof {
            lemma_handle_added(self.slots@, old(handles), handles, root);
        }
        let ghost fresh = *handles;
        if self.slots.len() >= PENDING_SWEEP_AT {
            proof {
                assert(root.0 != 0 ==> forall|i: int|
                    0 <= i < self.slots.len() ==> (#[trigger] self.slots@[i]).root != root);
            }
            self.sweep(handles, alive);
            assert(root.0 != 0 ==> handles.live(root) == fresh.live(root));
        }
        proof {
            assert forall|k: int| 0 <= k < self.slots.len() && root.0 != 0 implies (
            #[trigger] self.slots@[k]).root != root by {
                assert(old(self).slots@.contains(self.slots@[k]));
            }
        }
        let ghost mid = self.slots@;
        let entry = Pending { task, value: err, root };
        assert(rooted(entry, handles));
        match self.position(task) {
            Some(i) => {
                let previous: Pending = self.slots[i];
                let ghost held = *handles;
                self.slots.set(i, entry);
                handles.release(previous.root);
                proof {
                    lemma_slot_replaced(mid, &held, i as int, entry, handles);
                    assert forall|t: TaskId, v: Value| #[trigger]
                        holds(self.slots@, t, v) <==> if t == task {
                            v == err
                        } else {
                            holds(mid, t, v)
                        } by {
                        assert(self.slots@[i as int] == entry);
                        if holds(self.slots@, t, v) {
                            let k = choose|k: int|
                                0 <= k < self.slots@.len() && (#[trigger] self.slots@[k]).task == t
                                    && self.slots@[k].value == v;
                            if k != i {
                                assert(mid[k] == self.slots@[k]);
                            }
                        }
                        if t != task && holds(mid, t, v) {
                            let k = choose|k: int|
                                0 <= k < mid.len() && (#[trigger] mid[k]).task == t && mid[k].value
                                    == v;
                            assert(self.slots@[k] == mid[k]);
                        }
                    }
                }
            },
            None => {
                self.slots.push(entry);
                proof {
                    let now = self.slots@;
                    assert forall|t: TaskId, v: Value| #[trigger]
                        holds(now, t, v) <==> if t == task {
                            v == err
                        } else {
                            holds(mid, t, v)
                        } by {
                        assert(now[mid.len() as int] == entry);
                        if holds(now, t, v) {
                            let k = choose|k: int|
                                0 <= k < now.len() && (#[trigger] now[k]).task == t && now[k].value
                                    == v;
                            if k < mid.len() {
                                assert(mid[k] == now[k]);
                            }
                        }
                        if holds(mid, t, v) {
                            let k = choose|k: int|
                                0 <= k < mid.len() && (#[trigger] mid[k]).task == t && mid[k].value
                                    == v;
                            assert(now[k] == mid[k]);
                        }
                    }
                }
            },
        }
        proof {
            let now = self.slots@;
            assert(holds(now, task, err));
            let k = choose|k: int|
                0 <= k < now.len() && (#[trigger] now[k]).task == task && now[k].value == err;
            lemma_pending_of(now, handles, k);
            assert forall|h: Handle|
                old(handles).live(h) is Some && !roots_slot(
                    old(self).slots@,
                    h,
                ) implies #[trigger] handles.live(h) == old(handles).live(h) by {
                assert(forall|i: int|
                    0 <= i < old(self).slots.len() ==> (#[trigger] old(self).slots@[i]).root != h);
                assert(forall|i: int|
                    0 <= i < mid.len() ==> old(self).slots@.contains(#[trigger] mid[i]));
            }
        }
    }

    /// Take the pending error of `task`, clearing the slot. The slot's root
    /// goes with it: release it once the value is kept otherwise.
    pub fn take_pending_rooted(&mut self, handles: &HandleTable, task: TaskId) -> (r: Option<
        (Value, Handle),
    >)
        requires
            slots_ok(old(self).slots@, handles),
        ensures
            slots_ok(final(self).slots@, handles),
            match r {
                Some((v, root)) => holds(old(self).slots@, task, v) && rooted(
                    Pending { task, value: v, root },
                    handles,
                ),
                None => !has_slot(old(self).slots@, task),
            },
            pending_of(old(self).slots@, task) == match r {
                Some((v, _)) => Some(v),
                None => None,
            },
            !has_slot(final(self).slots@, task),
            forall|t: TaskId, v: Value| #[trigger]
                holds(final(self).slots@, t, v) <==> t != task && holds(old(self).slots@, t, v),
    {
        match self.position(task) {
            Some(i) => {
                let ghost list = self.slots@;
                let slot: Pending = self.slots.remove(i);
                proof {
                    assert(rooted(list[i as int], handles));
                    assert(list[i as int].value == slot.value);
                    let now = self.slots@;
                    assert forall|t: TaskId, v: Value| #[trigger]
                        holds(now, t, v) <==> t != task && holds(list, t, v) by {
                        if holds(now, t, v) {
                            let k = choose|k: int|
                                0 <= k < now.len() && (#[trigger] now[k]).task == t && now[k].value
                                    == v;
                            let o = if k < i { k } else { k + 1 };
                            assert(list[o] == now[k]);
                            assert(list[i as int].task == task);
                        }
                        if t != task && holds(list, t, v) {
                            let k = choose|k: int|
                                0 <= k < list.len() && (#[trigger] list[k]).task == t
                                    && list[k].value == v;
                            let o = if k < i { k } else { k - 1 };
                            assert(now[o] == list[k]);
                        }
                    }
                    assert forall|a: int, b: int|
                        #![trigger now[a], now[b]]
                        0 <= a < b < now.len() implies now[a].task != now[b].task && (
                    now[a].root.0 == 0 || now[a].root != now[b].root) by {
                        let oa = if a < i { a } else { a + 1 };
                        let ob = if b < i { b } else { b + 1 };
                        assert(list[oa] == now[a] && list[ob] == now[b]);
                    }
                    assert forall|k: int| 0 <= k < now.len() implies rooted(
                        #[trigger] now[k],
                        handles,
                    ) by {
                        let o = if k < i { k } else { k + 1 };
                        assert(list[o] == now[k]);
                    }
                }
                proof {
                    lemma_pending_of(list, handles, i as int);
                    lemma_no_slot(self.slots@, task);
                }
                Some((slot.value, slot.root))
            },
            None => {
                proof {
                    assert forall|v: Value| !holds(self.slots@, task, v) by {}
                }
                None
            },
        }
    }

    /// Take the pending error of `task`; its root is released.
    pub fn take_pending(&mut self, handles: &mut HandleTable, task: TaskId) -> (r: Option<Value>)
        requires
            slots_ok(old(self).slots@, old(handles)),
        ensures
            slots_ok(final(self).slots@, final(handles)),
            r == pending_of(old(self).slots@, task),
            !has_slot(final(self).slots@, task),
            final(handles).slots.len() == old(handles).slots.len(),
            forall|t: TaskId, v: Value| #[trigger]
                holds(final(self).slots@, t, v) <==> t != task && holds(old(self).slots@, t, v),
            forall|h: Handle|
                !roots_slot(old(self).slots@, h) ==> #[trigger] final(handles).live(h) == old(
                    handles,
                ).live(h),
    {
        match self.position(task) {
            Some(i) => {
                let ghost list = self.slots@;
                let ghost held = *handles;
                let slot: Pending = self.slots.remove(i);
                handles.release(slot.root);
                proof {
                    lemma_slot_dropped(list, &held, i as int, handles);
                    let now = self.slots@;
                    assert(list[i as int].value == slot.value);
                    assert forall|t: TaskId, v: Value| #[trigger]
                        holds(now, t, v) <==> t != task && holds(list, t, v) by {
                        if holds(now, t, v) {
                            let k = choose|k: int|
                                0 <= k < now.len() && (#[trigger] now[k]).task == t && now[k].value
                                    == v;
                            let o = if k < i { k } else { k + 1 };
                            assert(list[o] == now[k]);
                            assert(list[i as int].task == task);
                        }
                        if t != task && holds(list, t, v) {
                            let k = choose|k: int|
                                0 <= k < list.len() && (#[trigger] list[k]).task == t
                                    && list[k].value == v;
                            let o = if k < i { k } else { k - 1 };
                            assert(now[o] == list[k]);
                        }
                    }
                }
                proof {
                    lemma_pending_of(list, &held, i as int);
                    lemma_no_slot(self.slots@, task);
                    assert(forall|h: Handle| !roots_slot(list, h) ==> list[i as int].root != h);
                }
                Some(slot.value)
            },
            None => {
                proof {
                    assert forall|v: Value| !holds(self.slots@, task, v) by {}
                }
                None
            },
        }
    }
}

/// A task's slot is the only one it has.
pub proof fn lemma_pending_of(list: Seq<Pending>, handles: &HandleTable, i: int)
    requires
        slots_ok(list, handles),
        0 <= i < list.len(),
    ensures
        pending_of(list, list[i].task) == Some(list[i].value),
{
    let task = list[i].task;
    assert(has_slot(list, task));
    let k = choose|k: int| 0 <= k < list.len() && (#[trigger] list[k]).task == task;
    if k < i {
        assert(list[k].task != list[i].task);
    } else if i < k {
        assert(list[i].task != list[k].task);
    }
}

/// A task for which nothing is held has no slot.
proof fn lemma_no_slot(list: Seq<Pending>, task: TaskId)
    requires
        forall|v: Value| !#[trigger] holds(list, task, v),
    ensures
        !has_slot(list, task),
{
    if has_slot(list, task) {
        let i = choose|i: int| 0 <= i < list.len() && (#[trigger] list[i]).task == task;
        assert(holds(list, task, list[i].value));
    }
}

/// Whether a task is among the live ones.
fn task_exists(alive: &Vec<TaskId>, task: TaskId) -> (r: bool)
    ensures
        r == exists_task(alive@, task),
{
    if task.0 == 0 {
        return true;
    }
    let mut i: usize = 0;
    while i < alive.len()
        invariant
            i <= alive.len(),
            forall|k: int| 0 <= k < i ==> alive@[k] != task,
        decreases alive.len() - i,
    {
        if alive[i] == task {
            assert(alive@[i as int] == task);
            return true;
        }
        i = i + 1;
    }
    false
}

/// Dropping a slot and its root leaves the others rooted.
proof fn lemma_slot_dropped(list: Seq<Pending>, held: &HandleTable, i: int, now: &HandleTable)
    requires
        slots_ok(list, held),
        0 <= i < list.len(),
        now.inv(),
        forall|g: Handle| g != list[i].root ==> #[trigger] now.live(g) == held.live(g),
        list[i].root.0 == 0 ==> now.live(list[i].root) is None,
    ensures
        slots_ok(list.remove(i), now),
{
    let rest = list.remove(i);
    assert forall|a: int, b: int|
        #![trigger rest[a], rest[b]]
        0 <= a < b < rest.len() implies rest[a].task != rest[b].task && (rest[a].root.0 == 0
        || rest[a].root != rest[b].root) by {
        let oa = if a < i { a } else { a + 1 };
        let ob = if b < i { b } else { b + 1 };
        assert(list[oa] == rest[a] && list[ob] == rest[b]);
    }
    assert forall|k: int| 0 <= k < rest.len() implies rooted(#[trigger] rest[k], now) by {
        let o = if k < i { k } else { k + 1 };
        assert(list[o] == rest[k]);
        assert(rooted(list[o], held));
        if rest[k].root.0 != 0 {
            if o < i {
                assert(list[o].root != list[i].root);
            } else {
                assert(list[i].root != list[o].root);
            }
        }
    }
}

/// A slot that takes another's place, with its root already made.
proof fn lemma_slot_replaced(
    list: Seq<Pending>,
    held: &HandleTable,
    i: int,
    entry: Pending,
    now: &HandleTable,
)
    requires
        slots_ok(list, held),
        0 <= i < list.len(),
        list[i].task == entry.task,
        rooted(entry, held),
        entry.root.0 != 0 ==> forall|k: int|
            0 <= k < list.len() ==> (#[trigger] list[k]).root != entry.root,
        now.inv(),
        forall|g: Handle| g != list[i].root ==> #[trigger] now.live(g) == held.live(g),
    ensures
        slots_ok(list.update(i, entry), now),
{
    let rest = list.update(i, entry);
    assert forall|a: int, b: int|
        #![trigger rest[a], rest[b]]
        0 <= a < b < rest.len() implies rest[a].task != rest[b].task && (rest[a].root.0 == 0
        || rest[a].root != rest[b].root) by {
        let _ = list[a];
        let _ = list[b];
    }
    assert forall|k: int| 0 <= k < rest.len() implies rooted(#[trigger] rest[k], now) by {
        if k == i {
            assert(list[i].root != entry.root || entry.root.0 == 0);
        } else {
            assert(rooted(list[k], held));
            if k < i {
                assert(list[k].root.0 == 0 || list[k].root != list[i].root);
            } else {
                assert(list[i].root.0 == 0 || list[i].root != list[k].root);
            }
        }
    }
}

/// A new handle leaves every slot rooted, and none has it.
proof fn lemma_handle_added(
    list: Seq<Pending>,
    before: &HandleTable,
    now: &HandleTable,
    h: Handle,
)
    requires
        slots_ok(list, before),
        now.inv(),
        h.0 != 0 ==> before.live(h) is None,
        forall|g: Handle| g != h ==> #[trigger] now.live(g) == before.live(g),
        h.0 == 0 ==> now == before,
    ensures
        slots_ok(list, now),
        h.0 != 0 ==> forall|i: int| 0 <= i < list.len() ==> (#[trigger] list[i]).root != h,
{
    assert forall|i: int| 0 <= i < list.len() implies rooted(#[trigger] list[i], now) && (h.0 != 0
        ==> list[i].root != h) by {
        assert(rooted(list[i], before));
    }
}

/// Of two errors left on a task, the later is taken; the earlier is gone.
pub proof fn law_later_error_is_taken(
    before: Seq<Pending>,
    once: Seq<Pending>,
    twice: Seq<Pending>,
    task: TaskId,
    first: Value,
    second: Value,
    alive: Seq<TaskId>,
)
    requires
        left_pending(before, once, task, first, alive),
        left_pending(once, twice, task, second, alive),
    ensures
        pending_of(twice, task) == Some(second),
        first != second ==> !holds(twice, task, first),
{
}

} // verus!
