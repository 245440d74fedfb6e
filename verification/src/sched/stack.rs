//! Host state: what an adapter keeps in the thread's live cells that belongs to
//! a stack or a task, a trap chain above all, since a trap is a frame. It is
//! swapped on every switch, and out of its slot for the calls, so a swap may
//! attach. An owner is a stack's id, zero the thread's own, or a task's, zero
//! the main context.

use vstd::prelude::*;

verus! {

/// One adapter's state: which adapter's, and the state itself.
#[derive(Clone, Copy, Debug, PartialEq, Eq, Structural)]
pub struct Attached {
    pub kind: u64,
    pub state: u64,
}

/// The states of one owner, in the order they were attached.
pub struct Slot {
    pub owner: u64,
    pub states: Vec<Attached>,
}

/// The states of every owner seen, by owner.
pub struct HostStates {
    pub slots: Vec<Slot>,
}

/// How far a switch has come.
#[derive(Clone, Copy, Debug, PartialEq, Eq, Structural)]
pub enum Phase {
    Start,
    /// The states of the stack that is left are out.
    Out,
    /// The other stack is new, and its hooks run.
    Opened,
    /// The states of the other stack are out.
    In,
    Ended,
}

/// A switch of stacks under way.
#[derive(Clone, Copy, Debug, PartialEq, Eq, Structural)]
pub struct Switch {
    pub from: u64,
    pub to: u64,
    pub phase: Phase,
}

/// What is to be done next in a switch.
pub enum SwitchStep {
    /// Swap these out, in order, and give them back.
    SwapOut(Vec<Attached>),
    /// Run the hooks of a stack's first turn.
    Hooks,
    /// Swap these in, in order, and give them back.
    SwapIn(Vec<Attached>),
    Done,
}

/// The thread is switching from stack `from` to stack `to`: nothing is to be
/// done where it is one stack. [`HostStates::switch_next`] says what is.
pub fn switch_stack(from: u64, to: u64) -> (s: Switch)
    ensures
        s == (Switch {
            from,
            to,
            phase: if from == to {
                Phase::Ended
            } else {
                Phase::Start
            },
        }),
{
    Switch {
        from,
        to,
        phase: if from == to {
            Phase::Ended
        } else {
            Phase::Start
        },
    }
}

/// The states of `owner`, `None` for one not seen.
pub open spec fn states_of(slots: Seq<Slot>, owner: u64) -> Option<Seq<Attached>>
    decreases slots.len(),
{
    if slots.len() == 0 {
        None
    } else if slots.last().owner == owner {
        Some(slots.last().states@)
    } else {
        states_of(slots.drop_last(), owner)
    }
}

/// No two slots share an owner.
pub open spec fn owners_apart(slots: Seq<Slot>) -> bool {
    forall|i: int, j: int|
        #![trigger slots[i], slots[j]]
        0 <= i < j < slots.len() ==> slots[i].owner != slots[j].owner
}

/// Only the states of `owner` changed, to `states`.
pub open spec fn set_to(
    before: Seq<Slot>,
    after: Seq<Slot>,
    owner: u64,
    states: Option<Seq<Attached>>,
) -> bool {
    forall|o: u64| #[trigger]
        states_of(after, o) == if o == owner {
            states
        } else {
            states_of(before, o)
        }
}

/// Which of the states is of `kind`, if one is.
pub open spec fn kind_at(states: Seq<Attached>, kind: u64) -> Option<int>
    decreases states.len(),
{
    if states.len() == 0 {
        None
    } else {
        match kind_at(states.drop_last(), kind) {
            Some(i) => Some(i),
            None => if states.last().kind == kind {
                Some(states.len() - 1)
            } else {
                None
            },
        }
    }
}

/// The states once `new` was attached: in the place of the first one of its
/// kind, or after the others.
pub open spec fn attached(states: Seq<Attached>, new: Attached) -> Seq<Attached> {
    match kind_at(states, new.kind) {
        Some(i) => states.update(i, new),
        None => states.push(new),
    }
}

/// The state that is replaced when one of `kind` is attached.
pub open spec fn replaced(states: Seq<Attached>, kind: u64) -> Option<u64> {
    match kind_at(states, kind) {
        Some(i) => Some(states[i].state),
        None => None,
    }
}

/// The states of an owner that may not have been seen.
pub open spec fn or_none(states: Option<Seq<Attached>>) -> Seq<Attached> {
    match states {
        Some(s) => s,
        None => Seq::empty(),
    }
}

proof fn lemma_kind_bounds(states: Seq<Attached>, kind: u64)
    ensures
        kind_at(states, kind) matches Some(i) ==> 0 <= i < states.len() && states[i].kind == kind,
    decreases states.len(),
{
    if states.len() > 0 {
        lemma_kind_bounds(states.drop_last(), kind);
    }
}

proof fn lemma_none(slots: Seq<Slot>, owner: u64)
    requires
        forall|i: int| 0 <= i < slots.len() ==> (#[trigger] slots[i]).owner != owner,
    ensures
        states_of(slots, owner) is None,
    decreases slots.len(),
{
    if slots.len() > 0 {
        let init = slots.drop_last();
        assert forall|i: int| 0 <= i < init.len() implies (#[trigger] init[i]).owner != owner by {
            assert(init[i] == slots[i]);
        }
        lemma_none(init, owner);
    }
}

proof fn lemma_init_apart(slots: Seq<Slot>)
    requires
        owners_apart(slots),
        slots.len() > 0,
    ensures
        owners_apart(slots.drop_last()),
{
    let init = slots.drop_last();
    assert forall|a: int, b: int|
        #![trigger init[a], init[b]]
        0 <= a < b < init.len() implies init[a].owner != init[b].owner by {
        assert(init[a] == slots[a] && init[b] == slots[b]);
    }
}

proof fn lemma_at(slots: Seq<Slot>, i: int)
    requires
        owners_apart(slots),
        0 <= i < slots.len(),
    ensures
        states_of(slots, slots[i].owner) == Some(slots[i].states@),
    decreases slots.len(),
{
    if i < slots.len() - 1 {
        lemma_init_apart(slots);
        assert(slots.drop_last()[i] == slots[i]);
        lemma_at(slots.drop_last(), i);
        assert(slots[i].owner != slots[slots.len() - 1].owner);
    }
}

proof fn lemma_removed(slots: Seq<Slot>, i: int, owner: u64)
    requires
        owners_apart(slots),
        0 <= i < slots.len(),
    ensures
        states_of(slots.remove(i), owner) == if owner == slots[i].owner {
            None
        } else {
            states_of(slots, owner)
        },
    decreases slots.len(),
{
    let init = slots.drop_last();
    if i == slots.len() - 1 {
        assert(slots.remove(i) =~= init);
        assert forall|k: int| 0 <= k < init.len() implies (#[trigger] init[k]).owner
            != slots[i].owner by {
            assert(init[k] == slots[k]);
        }
        lemma_none(init, slots[i].owner);
    } else {
        lemma_init_apart(slots);
        assert(slots.remove(i).drop_last() =~= init.remove(i));
        assert(init[i] == slots[i]);
        lemma_removed(init, i, owner);
        assert(slots[i].owner != slots[slots.len() - 1].owner);
    }
}

/// Attach a state: what it replaces.
fn attach(states: &mut Vec<Attached>, new: Attached) -> (was: Option<u64>)
    ensures
        final(states)@ == attached(old(states)@, new),
        was == replaced(old(states)@, new.kind),
{
    let mut i: usize = 0;
    let ghost all = states@;
    assert(all.take(0) =~= Seq::<Attached>::empty());
    while i < states.len()
        invariant
            i <= states.len(),
            states@ == all,
            all == old(states)@,
            kind_at(all.take(i as int), new.kind) is None,
        decreases states.len() - i,
    {
        assert(all.take(i + 1).drop_last() =~= all.take(i as int));
        if states[i].kind == new.kind {
            let was: u64 = states[i].state;
            proof {
                lemma_kind_stays(all, i + 1, new.kind);
            }
            states.set(i, new);
            return Some(was);
        }
        i = i + 1;
    }
    assert(all.take(i as int) =~= all);
    states.push(new);
    None
}

/// The first of a kind is found whatever follows it.
proof fn lemma_kind_stays(states: Seq<Attached>, n: int, kind: u64)
    requires
        0 <= n <= states.len(),
        kind_at(states.take(n), kind) is Some,
    ensures
        kind_at(states, kind) == kind_at(states.take(n), kind),
    decreases states.len() - n,
{
    if n == states.len() {
        assert(states.take(n) =~= states);
    } else {
        assert(states.take(n + 1).drop_last() =~= states.take(n));
        lemma_kind_stays(states, n + 1, kind);
    }
}

impl HostStates {
    pub open spec fn inv(&self) -> bool {
        owners_apart(self.slots@)
    }

    pub fn new() -> (h: HostStates)
        ensures
            h.inv(),
            h.slots@ == Seq::<Slot>::empty(),
    {
        HostStates { slots: Vec::new() }
    }

    fn position(&self, owner: u64) -> (r: Option<usize>)
        requires
            self.inv(),
        ensures
            match r {
                Some(i) => i < self.slots@.len() && self.slots@[i as int].owner == owner
                    && states_of(self.slots@, owner) == Some(self.slots@[i as int].states@),
                None => states_of(self.slots@, owner) is None && forall|k: int|
                    0 <= k < self.slots@.len() ==> (#[trigger] self.slots@[k]).owner != owner,
            },
    {
        let mut i: usize = 0;
        while i < self.slots.len()
            invariant
                self.inv(),
                i <= self.slots.len(),
                forall|k: int| 0 <= k < i ==> (#[trigger] self.slots@[k]).owner != owner,
            decreases self.slots.len() - i,
        {
            if self.slots[i].owner == owner {
                proof {
                    lemma_at(self.slots@, i as int);
                }
                return Some(i);
            }
            i = i + 1;
        }
        proof {
            lemma_none(self.slots@, owner);
        }
        None
    }

    /// Whether the owner was seen on this thread.
    pub fn has(&self, owner: u64) -> (r: bool)
        requires
            self.inv(),
        ensures
            r == (states_of(self.slots@, owner) is Some),
    {
        self.position(owner).is_some()
    }

    /// Take an owner's states out of their slot, and the slot with them.
    pub fn take(&mut self, owner: u64) -> (states: Vec<Attached>)
        requires
            old(self).inv(),
        ensures
            final(self).inv(),
            states@ == or_none(states_of(old(self).slots@, owner)),
            set_to(old(self).slots@, final(self).slots@, owner, None),
    {
        match self.position(owner) {
            Some(i) => {
                let ghost was = self.slots@;
                let slot: Slot = self.slots.remove(i);
                proof {
                    let now = self.slots@;
                    assert forall|a: int, b: int|
                        #![trigger now[a], now[b]]
                        0 <= a < b < now.len() implies now[a].owner != now[b].owner by {
                        let oa = if a < i { a } else { a + 1 };
                        let ob = if b < i { b } else { b + 1 };
                        assert(now[a] == was[oa] && now[b] == was[ob]);
                    }
                    assert forall|o: u64| #[trigger]
                        states_of(now, o) == if o == owner {
                            None
                        } else {
                            states_of(was, o)
                        } by {
                        lemma_removed(was, i as int, o);
                    }
                }
                slot.states
            },
            None => Vec::new(),
        }
    }

    /// Give an owner that has no slot its states.
    fn put(&mut self, owner: u64, states: Vec<Attached>)
        requires
            old(self).inv(),
            states_of(old(self).slots@, owner) is None,
        ensures
            final(self).inv(),
            set_to(old(self).slots@, final(self).slots@, owner, Some(states@)),
    {
        let ghost was = self.slots@;
        self.slots.push(Slot { owner, states });
        proof {
            let now = self.slots@;
            assert(now.drop_last() =~= was);
            assert forall|a: int, b: int|
                #![trigger now[a], now[b]]
                0 <= a < b < now.len() implies now[a].owner != now[b].owner by {
                assert(now[a] == was[a]);
                lemma_at(was, a);
                if b < was.len() {
                    assert(now[b] == was[b]);
                }
            }
        }
    }

    /// Give an owner an empty slot, where it has none: true when it is new, and
    /// the hooks of a first turn run.
    pub fn open(&mut self, owner: u64) -> (fresh: bool)
        requires
            old(self).inv(),
        ensures
            final(self).inv(),
            fresh == (states_of(old(self).slots@, owner) is None),
            fresh ==> set_to(
                old(self).slots@,
                final(self).slots@,
                owner,
                Some(Seq::<Attached>::empty()),
            ),
            !fresh ==> *final(self) == *old(self),
    {
        if self.has(owner) {
            return false;
        }
        self.put(owner, Vec::new());
        true
    }

    /// Attach a state to a stack's turns on this thread. One of the same kind
    /// already attached is replaced and returned.
    pub fn attach_stack_host_state(&mut self, stack: u64, new: Attached) -> (was: Option<u64>)
        requires
            old(self).inv(),
        ensures
            final(self).inv(),
            was == replaced(or_none(states_of(old(self).slots@, stack)), new.kind),
            set_to(
                old(self).slots@,
                final(self).slots@,
                stack,
                Some(attached(or_none(states_of(old(self).slots@, stack)), new)),
            ),
    {
        let mut states: Vec<Attached> = self.take(stack);
        let was: Option<u64> = attach(&mut states, new);
        let ghost mid = self.slots@;
        assert(states_of(mid, stack) is None);
        self.put(stack, states);
        assert forall|o: u64| o != stack implies #[trigger] states_of(self.slots@, o) == states_of(
            old(self).slots@,
            o,
        ) by {
            assert(states_of(mid, o) == states_of(old(self).slots@, o));
        }
        was
    }

    /// Attach a state to a task's turns; nothing where the task is gone.
    pub fn attach_host_state(&mut self, task: u64, new: Attached) -> (was: Option<u64>)
        requires
            old(self).inv(),
        ensures
            final(self).inv(),
            match states_of(old(self).slots@, task) {
                Some(states) => was == replaced(states, new.kind) && set_to(
                    old(self).slots@,
                    final(self).slots@,
                    task,
                    Some(attached(states, new)),
                ),
                None => was is None && *final(self) == *old(self),
            },
    {
        if !self.has(task) {
            return None;
        }
        self.attach_stack_host_state(task, new)
    }

    /// The state of a kind attached to an owner.
    pub fn with_stack_host_state(&self, owner: u64, kind: u64) -> (r: Option<u64>)
        requires
            self.inv(),
        ensures
            r == replaced(or_none(states_of(self.slots@, owner)), kind),
    {
        match self.position(owner) {
            Some(i) => {
                let states: &Vec<Attached> = &self.slots[i].states;
                let mut k: usize = 0;
                assert(states@.take(0) =~= Seq::<Attached>::empty());
                while k < states.len()
                    invariant
                        k <= states.len(),
                        kind_at(states@.take(k as int), kind) is None,
                        states_of(self.slots@, owner) == Some(states@),
                    decreases states.len() - k,
                {
                    assert(states@.take(k + 1).drop_last() =~= states@.take(k as int));
                    if states[k].kind == kind {
                        proof {
                            lemma_kind_stays(states@, k + 1, kind);
                        }
                        return Some(states[k].state);
                    }
                    k = k + 1;
                }
                assert(states@.take(k as int) =~= states@);
                None
            },
            None => None,
        }
    }

    /// Put a stack's states back after their swap; what was attached during it
    /// is kept behind them.
    pub fn put_back(&mut self, stack: u64, states: Vec<Attached>)
        requires
            old(self).inv(),
        ensures
            final(self).inv(),
            set_to(
                old(self).slots@,
                final(self).slots@,
                stack,
                Some(states@ + or_none(states_of(old(self).slots@, stack))),
            ),
    {
        let mut all: Vec<Attached> = states;
        let mut added: Vec<Attached> = self.take(stack);
        all.append(&mut added);
        let ghost mid = self.slots@;
        assert(states_of(mid, stack) is None);
        self.put(stack, all);
        assert forall|o: u64| o != stack implies #[trigger] states_of(self.slots@, o) == states_of(
            old(self).slots@,
            o,
        ) by {
            assert(states_of(mid, o) == states_of(old(self).slots@, o));
        }
    }

    /// Put a task's states back after their swap, unless some were attached
    /// during it or the task is gone.
    pub fn put_back_task(&mut self, task: u64, states: Vec<Attached>)
        requires
            old(self).inv(),
        ensures
            final(self).inv(),
            states_of(old(self).slots@, task) == Some(Seq::<Attached>::empty()) ==> set_to(
                old(self).slots@,
                final(self).slots@,
                task,
                Some(states@),
            ),
            states_of(old(self).slots@, task) != Some(Seq::<Attached>::empty()) ==> *final(self)
                == *old(self),
    {
        match self.position(task) {
            Some(i) => {
                if self.slots[i].states.len() == 0 {
                    assert(self.slots@[i as int].states@ =~= Seq::<Attached>::empty());
                    self.put_back(task, states);
                    assert(states@ + Seq::<Attached>::empty() =~= states@);
                }
            },
            None => {},
        }
    }

    /// The next step of a switch. `swapped` is what the last step handed out,
    /// given back once it was swapped: nothing where the last step handed out
    /// nothing. The states of the stack that is left are swapped out and put
    /// back; a stack seen for the first time gets its states from the hooks; its
    /// states are swapped in and put back.
    pub fn switch_next(&mut self, switch: &mut Switch, swapped: Vec<Attached>) -> (step: SwitchStep)
        requires
            old(self).inv(),
        ensures
            final(self).inv(),
            final(switch).from == old(switch).from,
            final(switch).to == old(switch).to,
            ({
                let from = old(switch).from;
                let to = old(switch).to;
                let before = old(self).slots@;
                let after = final(self).slots@;
                match old(switch).phase {
                    Phase::Start => {
                        &&& step matches SwitchStep::SwapOut(out) && out@ == or_none(
                            states_of(before, from),
                        )
                        &&& set_to(before, after, from, None)
                        &&& final(switch).phase == Phase::Out
                    },
                    Phase::Out => {
                        let kept = Some(swapped@ + or_none(states_of(before, from)));
                        let seen = if to == from {
                            kept
                        } else {
                            states_of(before, to)
                        };
                        match seen {
                            None => {
                                &&& step is Hooks
                                &&& states_of(after, from) == kept
                                &&& states_of(after, to) == Some(Seq::<Attached>::empty())
                                &&& final(switch).phase == Phase::Opened
                            },
                            Some(states) => {
                                &&& step matches SwitchStep::SwapIn(out) && out@ == states
                                &&& to != from ==> states_of(after, from) == kept
                                &&& states_of(after, to) is None
                                &&& final(switch).phase == Phase::In
                            },
                        }
                    },
                    Phase::Opened => {
                        &&& step matches SwitchStep::SwapIn(out) && out@ == or_none(
                            states_of(before, to),
                        )
                        &&& set_to(before, after, to, None)
                        &&& final(switch).phase == Phase::In
                    },
                    Phase::In => {
                        &&& step is Done
                        &&& set_to(
                            before,
                            after,
                            to,
                            Some(swapped@ + or_none(states_of(before, to))),
                        )
                        &&& final(switch).phase == Phase::Ended
                    },
                    Phase::Ended => {
                        &&& step is Done
                        &&& after == before
                        &&& final(switch).phase == Phase::Ended
                    },
                }
            }),
            forall|o: u64|
                o != old(switch).from && o != old(switch).to ==> #[trigger] states_of(
                    final(self).slots@,
                    o,
                ) == states_of(old(self).slots@, o),
    {
        match switch.phase {
            Phase::Start => {
                switch.phase = Phase::Out;
                SwitchStep::SwapOut(self.take(switch.from))
            },
            Phase::Out => {
                let ghost before = self.slots@;
                self.put_back(switch.from, swapped);
                let ghost mid = self.slots@;
                assert(states_of(mid, switch.from) is Some);
                assert(states_of(mid, switch.to) == if switch.to == switch.from {
                    states_of(mid, switch.from)
                } else {
                    states_of(before, switch.to)
                });
                if self.open(switch.to) {
                    switch.phase = Phase::Opened;
                    assert(states_of(self.slots@, switch.from) == states_of(mid, switch.from));
                    SwitchStep::Hooks
                } else {
                    switch.phase = Phase::In;
                    let states: Vec<Attached> = self.take(switch.to);
                    SwitchStep::SwapIn(states)
                }
            },
            Phase::Opened => {
                switch.phase = Phase::In;
                SwitchStep::SwapIn(self.take(switch.to))
            },
            Phase::In => {
                switch.phase = Phase::Ended;
                self.put_back(switch.to, swapped);
                SwitchStep::Done
            },
            Phase::Ended => SwitchStep::Done,
        }
    }

    /// The owner is gone: its states with it.
    pub fn forget_stack(&mut self, owner: u64)
        requires
            old(self).inv(),
        ensures
            final(self).inv(),
            set_to(old(self).slots@, final(self).slots@, owner, None),
    {
        let _gone: Vec<Attached> = self.take(owner);
    }
}

/// What is attached is what is found, and no state of another kind is touched.
pub proof fn law_attached_is_found(states: Seq<Attached>, new: Attached, kind: u64)
    ensures
        replaced(attached(states, new), new.kind) == Some(new.state),
        kind != new.kind ==> replaced(attached(states, new), kind) == replaced(states, kind),
    decreases states.len(),
{
    lemma_kind_bounds(states, new.kind);
    lemma_kind_bounds(states, kind);
    if kind_at(states, new.kind) is None {
        assert(states.push(new).drop_last() =~= states);
    } else {
        let i = kind_at(states, new.kind)->0;
        let init = states.drop_last();
        lemma_kind_bounds(init, kind);
        if kind_at(init, new.kind) is Some {
            lemma_kind_bounds(init, new.kind);
            assert(states.update(i, new).drop_last() =~= init.update(i, new));
            law_attached_is_found(init, new, kind);
            lemma_kind_bounds(init.update(i, new), new.kind);
            lemma_kind_bounds(init.update(i, new), kind);
        } else {
            assert(states.update(i, new).drop_last() =~= init);
        }
    }
}

/// A swap that attaches nothing leaves an owner as it was.
pub proof fn law_swap_keeps_states(
    before: Seq<Slot>,
    out: Seq<Slot>,
    after: Seq<Slot>,
    owner: u64,
    o: u64,
)
    requires
        states_of(before, owner) is Some,
        set_to(before, out, owner, None),
        set_to(
            out,
            after,
            owner,
            Some(states_of(before, owner)->0 + or_none(states_of(out, owner))),
        ),
    ensures
        states_of(after, o) == states_of(before, o),
{
    assert(states_of(out, owner) is None);
    let s = states_of(before, owner)->0;
    assert(s + Seq::<Attached>::empty() =~= s);
    assert(states_of(out, o) == if o == owner {
        None
    } else {
        states_of(before, o)
    });
}

} // verus!
