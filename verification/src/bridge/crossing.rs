//! A crossing from its start to what the caller gets. The core decides what is
//! sent, the adapters send it, and the core turns what came back into the
//! bridge's result.

use vstd::prelude::*;

use crate::bridge::pending::{
    has_slot, holds, pending_of, roots_slot, slots_ok, PendingTable,
};
use crate::bridge::plan::{
    answer_fault, call_fault_of, call_outcome, call_plan, call_plan_of, get_target, invoke_target,
    lang_at, lang_of, member_fault_of, member_outcome, member_target_of, sequence_fault,
    sequence_fault_of, sequence_outcome, set_target, typed_fault_of, typed_outcome, typed_refusal,
    typed_refusal_of, CallPlan, CallPlanView, Dispatch, Signature,
};
use crate::bridge::settle::{
    outcome_of, settle, settle_for, settled, takes_pending, Answer, Outcome, OutcomeView,
};
use crate::bridge::typed::{core_dispatch, dispatch_plan_of, Ret, Slot};
use crate::heap::handles::{Handle, HandleTable};
use crate::object::{ObjectSeq, Objects};
use crate::protocol::{Callable, CoreFn, Fault};
use crate::sched::task::TaskId;
use crate::symbol::{is_table, name_of, Symbol, SymbolTable};
use crate::value::{ErrorKind, LangId, Value, LANG_CORE};

verus! {

/// What a crossing asks of the callee's side.
#[allow(inconsistent_fields)]
#[derive(Clone, Copy, Debug, PartialEq, Eq, Structural)]
pub enum Ask {
    Call { obj: usize },
    /// Run the code by its signature.
    Typed { func: usize, signature: usize },
    /// As `Typed`, with the code the cell holds.
    FromCell { cell: usize, signature: usize },
    /// Send the arguments from `first` on.
    Invoke { obj: usize, name: Symbol, first: usize },
    Read { obj: usize, name: Symbol },
    Write { obj: usize, name: Symbol },
    Len { obj: usize },
    Index { obj: usize },
    SetIndex { obj: usize },
    Core(CoreFn),
}

/// A crossing under way.
#[derive(Clone, Copy, Debug, PartialEq, Eq, Structural)]
pub struct Crossing {
    pub ask: Ask,
    /// The value that is asked; null where code is called.
    pub on: Value,
    /// The language whose segment an error leaves.
    pub segment: LangId,
}

/// What came of a crossing.
pub enum Came {
    /// The site's direct send answered: its value, or that it raised.
    Direct(Result<Value, ()>),
    /// The core refused before anything was sent.
    Refused(ErrorKind, String),
    /// The callee's side answered.
    Answered(Answer),
}

/// A member send to `obj`.
pub open spec fn begun_invoke(
    all: ObjectSeq,
    names: Seq<Seq<char>>,
    obj: Value,
    name: Symbol,
    first: usize,
) -> Result<Crossing, (ErrorKind, Seq<char>)> {
    match member_target_of(all, obj, name_of(names, name), "invoke"@, "` on "@) {
        Ok(p) => Ok(
            Crossing { ask: Ask::Invoke { obj: p, name, first }, on: obj, segment: lang_at(all, p) },
        ),
        Err(m) => Err((ErrorKind::Type, m)),
    }
}

/// A call of `callable` with `args`: what is sent, or why nothing is.
pub open spec fn begun_call(
    all: ObjectSeq,
    names: Seq<Seq<char>>,
    callable: Callable,
    args: Seq<Value>,
) -> Result<Crossing, (ErrorKind, Seq<char>)> {
    match call_plan_of(all, names, callable, args) {
        CallPlanView::Refuse(kind, message) => Err((kind, message)),
        CallPlanView::Call { obj, segment } => Ok(
            Crossing { ask: Ask::Call { obj }, on: Value::Object(obj), segment },
        ),
        CallPlanView::Typed { func, signature, lang } => Ok(
            Crossing { ask: Ask::Typed { func, signature }, on: Value::Null, segment: lang },
        ),
        CallPlanView::FromCell { cell, signature, lang } => Ok(
            Crossing { ask: Ask::FromCell { cell, signature }, on: Value::Null, segment: lang },
        ),
        CallPlanView::Invoke { receiver, name, first } => begun_invoke(
            all,
            names,
            receiver,
            name,
            first,
        ),
        CallPlanView::Core(f) => Ok(
            Crossing { ask: Ask::Core(f), on: Value::Null, segment: LANG_CORE },
        ),
    }
}

/// A read of a member of `obj`.
pub open spec fn begun_get(
    all: ObjectSeq,
    names: Seq<Seq<char>>,
    obj: Value,
    name: Symbol,
) -> Result<Crossing, (ErrorKind, Seq<char>)> {
    match member_target_of(all, obj, name_of(names, name), "read"@, "` of "@) {
        Ok(p) => Ok(
            Crossing { ask: Ask::Read { obj: p, name }, on: obj, segment: lang_at(all, p) },
        ),
        Err(m) => Err((ErrorKind::Type, m)),
    }
}

/// A write of a member of `obj`.
pub open spec fn begun_set(
    all: ObjectSeq,
    names: Seq<Seq<char>>,
    obj: Value,
    name: Symbol,
) -> Result<Crossing, (ErrorKind, Seq<char>)> {
    match member_target_of(all, obj, name_of(names, name), "write"@, "` of "@) {
        Ok(p) => Ok(
            Crossing { ask: Ask::Write { obj: p, name }, on: obj, segment: lang_at(all, p) },
        ),
        Err(m) => Err((ErrorKind::Type, m)),
    }
}

/// The three sends to a sequence.
#[derive(Clone, Copy, Debug, PartialEq, Eq, Structural)]
pub enum Sequence {
    Len,
    Index,
    SetIndex,
}

impl Sequence {
    /// The send's name: in messages, and in the frame an error gains.
    pub open spec fn called(self) -> Seq<char> {
        match self {
            Sequence::Len => "len"@,
            Sequence::Index => "index"@,
            Sequence::SetIndex => "set_index"@,
        }
    }

    pub open spec fn asked(self, obj: usize) -> Ask {
        match self {
            Sequence::Len => Ask::Len { obj },
            Sequence::Index => Ask::Index { obj },
            Sequence::SetIndex => Ask::SetIndex { obj },
        }
    }

    /// [`Self::called`].
    pub fn name(self) -> (s: &'static str)
        ensures
            s@ == self.called(),
    {
        match self {
            Sequence::Len => "len",
            Sequence::Index => "index",
            Sequence::SetIndex => "set_index",
        }
    }
}

/// A send to the sequence `v`.
pub open spec fn begun_sequence(all: ObjectSeq, v: Value, what: Sequence) -> Result<
    Crossing,
    (ErrorKind, Seq<char>),
> {
    match v.address() {
        Some(p) => Ok(Crossing { ask: what.asked(p), on: v, segment: lang_at(all, p) }),
        None => Err(sequence_fault_of(all, v, what.called(), Fault::Unsupported)),
    }
}

/// Whether a start is the one described.
pub open spec fn starts(
    r: Result<Crossing, (ErrorKind, String)>,
    as_described: Result<Crossing, (ErrorKind, Seq<char>)>,
) -> bool {
    match as_described {
        Ok(c) => r matches Ok(rc) && rc == c,
        Err((kind, message)) => r matches Err((rk, rm)) && rk == kind && rm@ == message,
    }
}

/// Begin a member send; the arguments from `first` on go with it.
pub fn begin_invoke(
    objects: &Objects,
    table: &SymbolTable,
    obj: Value,
    name: Symbol,
    first: usize,
) -> (r: Result<Crossing, (ErrorKind, String)>)
    requires
        is_table(table@),
    ensures
        starts(r, begun_invoke(objects@, table@, obj, name, first)),
{
    match invoke_target(objects, table, obj, name) {
        Ok(p) => Ok(
            Crossing {
                ask: Ask::Invoke { obj: p, name, first },
                on: obj,
                segment: lang_of(objects, p),
            },
        ),
        Err(m) => Err((ErrorKind::Type, m)),
    }
}

/// Begin a call.
pub fn begin_call(
    objects: &Objects,
    table: &SymbolTable,
    callable: Callable,
    args: &Vec<Value>,
) -> (r: Result<Crossing, (ErrorKind, String)>)
    requires
        is_table(table@),
    ensures
        starts(r, begun_call(objects@, table@, callable, args@)),
{
    match call_plan(objects, table, callable, args) {
        CallPlan::Refuse(kind, message) => Err((kind, message)),
        CallPlan::Call { obj, segment } => Ok(
            Crossing { ask: Ask::Call { obj }, on: Value::Object(obj), segment },
        ),
        CallPlan::Typed { func, signature, lang } => Ok(
            Crossing { ask: Ask::Typed { func, signature }, on: Value::Null, segment: lang },
        ),
        CallPlan::FromCell { cell, signature, lang } => Ok(
            Crossing { ask: Ask::FromCell { cell, signature }, on: Value::Null, segment: lang },
        ),
        CallPlan::Invoke { receiver, name, first } => begin_invoke(
            objects,
            table,
            receiver,
            name,
            first,
        ),
        CallPlan::Core(f) => Ok(
            Crossing { ask: Ask::Core(f), on: Value::Null, segment: LANG_CORE },
        ),
    }
}

/// Begin a read of a member.
pub fn begin_get(objects: &Objects, table: &SymbolTable, obj: Value, name: Symbol) -> (r: Result<
    Crossing,
    (ErrorKind, String),
>)
    requires
        is_table(table@),
    ensures
        starts(r, begun_get(objects@, table@, obj, name)),
{
    match get_target(objects, table, obj, name) {
        Ok(p) => Ok(
            Crossing { ask: Ask::Read { obj: p, name }, on: obj, segment: lang_of(objects, p) },
        ),
        Err(m) => Err((ErrorKind::Type, m)),
    }
}

/// Begin a write of a member.
pub fn begin_set(objects: &Objects, table: &SymbolTable, obj: Value, name: Symbol) -> (r: Result<
    Crossing,
    (ErrorKind, String),
>)
    requires
        is_table(table@),
    ensures
        starts(r, begun_set(objects@, table@, obj, name)),
{
    match set_target(objects, table, obj, name) {
        Ok(p) => Ok(
            Crossing { ask: Ask::Write { obj: p, name }, on: obj, segment: lang_of(objects, p) },
        ),
        Err(m) => Err((ErrorKind::Type, m)),
    }
}

/// Begin a send to a sequence.
pub fn begin_sequence(objects: &Objects, v: Value, what: Sequence) -> (r: Result<
    Crossing,
    (ErrorKind, String),
>)
    ensures
        starts(r, begun_sequence(objects@, v, what)),
{
    match v.object_of() {
        Some(p) => {
            let ask: Ask = match what {
                Sequence::Len => Ask::Len { obj: p },
                Sequence::Index => Ask::Index { obj: p },
                Sequence::SetIndex => Ask::SetIndex { obj: p },
            };
            Ok(Crossing { ask, on: v, segment: lang_of(objects, p) })
        },
        None => Err(sequence_fault(objects, v, what.name(), Fault::Unsupported)),
    }
}

/// What the site's direct send is given as its target: the code of a typed
/// call, `held` being what a cell holds, or the object of a member send. A
/// dynamic call, a send to a sequence and the core's own functions have none.
pub fn direct_target(crossing: Crossing, held: usize) -> (r: Option<usize>)
    ensures
        r == match crossing.ask {
            Ask::Typed { func, signature: _ } => Some(func),
            Ask::FromCell { cell: _, signature: _ } => Some(held),
            Ask::Invoke { obj, name: _, first: _ } => Some(obj),
            Ask::Read { obj, name: _ } => Some(obj),
            Ask::Write { obj, name: _ } => Some(obj),
            _ => None,
        },
{
    match crossing.ask {
        Ask::Typed { func, signature: _ } => Some(func),
        Ask::FromCell { cell: _, signature: _ } => Some(held),
        Ask::Invoke { obj, name: _, first: _ } => Some(obj),
        Ask::Read { obj, name: _ } => Some(obj),
        Ask::Write { obj, name: _ } => Some(obj),
        _ => None,
    }
}

/// How a typed call is made.
pub enum TypedPlan {
    /// It is not dispatched.
    Refuse(ErrorKind, String),
    /// The dispatcher that was registered runs it.
    Registered(usize),
    /// The core's own dispatcher runs the code on these.
    Run(Vec<Slot>, Ret),
    /// The core's own dispatcher raises a `Type` error with this message.
    Raise(String),
}

/// A typed call of `lang`'s code with `args`, under the dispatcher its
/// language has.
pub fn typed_plan(
    objects: &Objects,
    signature: Option<&Signature>,
    lang: LangId,
    dispatch: Option<Dispatch>,
    args: &Vec<Value>,
) -> (r: TypedPlan)
    ensures
        match typed_refusal_of(
            match signature {
                Some(s) => Some(s.args@.len()),
                None => None,
            },
            args@.len(),
            lang,
            dispatch is Some,
        ) {
            Some((kind, message)) => r matches TypedPlan::Refuse(rk, rm) && rk == kind && rm@
                == message,
            None => match dispatch {
                Some(Dispatch::Registered(entry)) => r matches TypedPlan::Registered(e) && e
                    == entry,
                _ => match dispatch_plan_of(
                    objects@,
                    match signature {
                        Some(s) => Some((s.args@, s.ret)),
                        None => None,
                    },
                    args@,
                ) {
                    Ok((slots, ret)) => r matches TypedPlan::Run(s, t) && s@ == slots && t == ret,
                    Err(message) => r matches TypedPlan::Raise(m) && m@ == message,
                },
            },
        },
{
    let dispatches: bool = match dispatch {
        Some(_) => true,
        None => false,
    };
    match typed_refusal(signature, args.len(), lang, dispatches) {
        Some((kind, message)) => TypedPlan::Refuse(kind, message),
        None => match dispatch {
            Some(Dispatch::Registered(entry)) => TypedPlan::Registered(entry),
            _ => match core_dispatch(objects, signature, args) {
                Ok((slots, ret)) => TypedPlan::Run(slots, ret),
                Err(message) => TypedPlan::Raise(message),
            },
        },
    }
}

/// What came of a crossing, as the outcome that is settled: a fault is told by
/// what was asked.
pub open spec fn came_to(
    all: ObjectSeq,
    names: Seq<Seq<char>>,
    crossing: Crossing,
    came: Came,
) -> OutcomeView {
    match came {
        Came::Direct(Ok(v)) => OutcomeView::Returned(v),
        Came::Direct(Err(_)) => OutcomeView::Raised,
        Came::Refused(kind, message) => OutcomeView::Fault(kind, message@),
        Came::Answered(answer) => outcome_of(
            answer,
            ({
                let fault = answer_fault(answer);
                let on = crossing.on;
                match crossing.ask {
                    Ask::Call { obj: _ } => call_fault_of(all, on, fault),
                    Ask::Typed { func: _, signature: _ } => typed_fault_of(crossing.segment, fault),
                    Ask::FromCell { cell: _, signature: _ } => typed_fault_of(
                        crossing.segment,
                        fault,
                    ),
                    Ask::Invoke { obj: _, name, first: _ } => member_fault_of(
                        all,
                        on,
                        name_of(names, name),
                        "invoke"@,
                        fault,
                    ),
                    Ask::Read { obj: _, name } => member_fault_of(
                        all,
                        on,
                        name_of(names, name),
                        "read"@,
                        fault,
                    ),
                    Ask::Write { obj: _, name } => member_fault_of(
                        all,
                        on,
                        name_of(names, name),
                        "write"@,
                        fault,
                    ),
                    Ask::Len { obj: _ } => sequence_fault_of(all, on, "len"@, fault),
                    Ask::Index { obj: _ } => sequence_fault_of(all, on, "index"@, fault),
                    Ask::SetIndex { obj: _ } => sequence_fault_of(all, on, "set_index"@, fault),
                    Ask::Core(_) => typed_fault_of(crossing.segment, fault),
                }
            }),
        ),
    }
}

/// [`came_to`].
pub fn outcome(objects: &Objects, table: &SymbolTable, crossing: Crossing, came: Came) -> (r:
    Outcome)
    requires
        is_table(table@),
    ensures
        r@ == came_to(objects@, table@, crossing, came),
{
    match came {
        Came::Direct(Ok(v)) => Outcome::Returned(v),
        Came::Direct(Err(_)) => Outcome::Raised,
        Came::Refused(kind, message) => Outcome::Fault(kind, message),
        Came::Answered(answer) => {
            let on: Value = crossing.on;
            match crossing.ask {
                Ask::Call { obj: _ } => call_outcome(objects, on, answer),
                Ask::Typed { func: _, signature: _ } => typed_outcome(crossing.segment, answer),
                Ask::FromCell { cell: _, signature: _ } => typed_outcome(crossing.segment, answer),
                Ask::Invoke { obj: _, name, first: _ } => {
                    member_outcome(objects, table, on, name, "invoke", answer)
                },
                Ask::Read { obj: _, name } => {
                    member_outcome(objects, table, on, name, "read", answer)
                },
                Ask::Write { obj: _, name } => {
                    member_outcome(objects, table, on, name, "write", answer)
                },
                Ask::Len { obj: _ } => sequence_outcome(objects, on, "len", answer),
                Ask::Index { obj: _ } => sequence_outcome(objects, on, "index", answer),
                Ask::SetIndex { obj: _ } => sequence_outcome(objects, on, "set_index", answer),
                Ask::Core(_) => typed_outcome(crossing.segment, answer),
            }
        },
    }
}

/// Turn what came of a crossing into the bridge's result. Settled in the
/// crossing's segment, with the pending error of `task` where it raised or
/// panicked.
pub fn finish(
    objects: &mut Objects,
    table: &SymbolTable,
    slots: &mut PendingTable,
    handles: &mut HandleTable,
    task: TaskId,
    crossing: Crossing,
    came: Came,
    name: &str,
    caller: LangId,
) -> (r: Result<Value, Value>)
    requires
        is_table(table@),
        old(objects).room(9),
        slots_ok(old(slots).slots@, old(handles)),
    ensures
        slots_ok(final(slots).slots@, final(handles)),
        ({
            let what = came_to(old(objects)@, table@, crossing, came);
            &&& (final(objects)@, r) == settled(
                old(objects)@,
                if takes_pending(what) {
                    pending_of(old(slots).slots@, task)
                } else {
                    None
                },
                what,
                crossing.segment,
                name@,
                caller,
            )
            &&& takes_pending(what) ==> !has_slot(final(slots).slots@, task)
            &&& !takes_pending(what) ==> final(slots).slots@ == old(slots).slots@
        }),
        forall|t: TaskId, v: Value|
            t != task ==> (#[trigger] holds(final(slots).slots@, t, v) <==> holds(
                old(slots).slots@,
                t,
                v,
            )),
        final(handles).slots.len() == old(handles).slots.len(),
        forall|h: Handle|
            !roots_slot(old(slots).slots@, h) ==> #[trigger] final(handles).live(h) == old(
                handles,
            ).live(h),
{
    let what: Outcome = outcome(objects, table, crossing, came);
    settle_for(objects, slots, handles, task, what, crossing.segment, name, caller)
}

/// What the caller gets for a crossing that was refused at its start: an error
/// of the core's segment. Nothing that is pending is taken.
pub fn refuse(
    objects: &mut Objects,
    kind: ErrorKind,
    message: String,
    name: &str,
    caller: LangId,
) -> (r: Result<Value, Value>)
    requires
        old(objects).room(9),
    ensures
        (final(objects)@, r) == settled(
            old(objects)@,
            None,
            OutcomeView::Fault(kind, message@),
            LANG_CORE,
            name@,
            caller,
        ),
{
    settle(objects, None, Outcome::Fault(kind, message), LANG_CORE, name, caller)
}

/// A site's direct send stands for the plain one: what it answers comes to the
/// same outcome, whatever was asked.
pub proof fn law_direct_stands_for_plain(
    all: ObjectSeq,
    names: Seq<Seq<char>>,
    crossing: Crossing,
    v: Value,
)
    ensures
        came_to(all, names, crossing, Came::Direct(Ok(v))) == came_to(
            all,
            names,
            crossing,
            Came::Answered(Answer::Reply(Ok(v))),
        ),
        came_to(all, names, crossing, Came::Direct(Err(()))) == came_to(
            all,
            names,
            crossing,
            Came::Answered(Answer::Reply(Err(Fault::Raised))),
        ),
{
}

/// Whose segment an error leaves is decided by what is asked: a value
/// of no language is refused in the core's, and every other crossing settles in
/// the segment of the object it goes to.
pub proof fn law_segment_is_the_callees(
    all: ObjectSeq,
    names: Seq<Seq<char>>,
    obj: Value,
    name: Symbol,
    args: Seq<Value>,
)
    ensures
        match obj.address() {
            Some(p) => {
                &&& begun_call(all, names, Callable::Dynamic(obj), args) matches Ok(c) && c.segment
                    == lang_at(all, p)
                &&& begun_invoke(all, names, obj, name, 0) matches Ok(c) && c.segment == lang_at(
                    all,
                    p,
                )
                &&& begun_get(all, names, obj, name) matches Ok(c) && c.segment == lang_at(all, p)
                &&& begun_set(all, names, obj, name) matches Ok(c) && c.segment == lang_at(all, p)
            },
            None => {
                &&& begun_call(all, names, Callable::Dynamic(obj), args) matches Err((k, _)) && k
                    == ErrorKind::Type
                &&& begun_invoke(all, names, obj, name, 0) matches Err((k, _)) && k
                    == ErrorKind::Type
                &&& begun_get(all, names, obj, name) matches Err((k, _)) && k == ErrorKind::Type
                &&& begun_set(all, names, obj, name) matches Err((k, _)) && k == ErrorKind::Type
            },
        },
{
}

} // verus!
