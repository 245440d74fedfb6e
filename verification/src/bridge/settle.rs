//! What comes back across a boundary, and the error it becomes there.

use vstd::prelude::*;

use crate::bridge::pending::{
    has_slot, holds, pending_of, roots_slot, slots_ok, PendingTable,
};
use crate::error::{
    bare_error, error_frames, frames_named, framed, law_frame_added, with_error, with_native_error,
    Error, FrameInfo,
};
use crate::heap::handles::{Handle, HandleTable};
use crate::object::{
    error_of, next_address, object_at, text_of, with_body, BodyView, ErrorBody, ObjectSeq, Objects,
};
use crate::protocol::{Fault, Reply};
use crate::sched::task::TaskId;
use crate::value::{ErrorKind, LangId, Value, LANG_CORE};

verus! {

/// What a protected call came back with: the entry's reply, or the panic that
/// was caught in it.
pub enum Answer {
    Reply(Reply),
    Panic(String),
}

/// What came back across a boundary.
pub enum Outcome {
    Returned(Value),
    /// The callee raised; the error is pending.
    Raised,
    /// The core refuses or the callee answered with a fault; an error of this
    /// kind is built here.
    Fault(ErrorKind, String),
    Panic(String),
}

/// [`Outcome`], with its texts as sequences.
pub enum OutcomeView {
    Returned(Value),
    Raised,
    Fault(ErrorKind, Seq<char>),
    Panic(Seq<char>),
}

impl View for Outcome {
    type V = OutcomeView;

    open spec fn view(&self) -> OutcomeView {
        match self {
            Outcome::Returned(v) => OutcomeView::Returned(*v),
            Outcome::Raised => OutcomeView::Raised,
            Outcome::Fault(k, m) => OutcomeView::Fault(*k, m@),
            Outcome::Panic(m) => OutcomeView::Panic(m@),
        }
    }
}

/// What is said of a callee that reports a raise and leaves nothing.
pub open spec fn no_error_left() -> Seq<char> {
    "the callee reported a raise but left no error pending"@
}

/// The error an outcome starts as: what is pending, or one made here. Also
/// the objects then.
pub open spec fn raised_from(
    all: ObjectSeq,
    pending: Option<Value>,
    outcome: OutcomeView,
    segment: LangId,
) -> (ObjectSeq, Value) {
    let fresh = Value::Object(next_address(all));
    match outcome {
        OutcomeView::Returned(v) => (all, v),
        OutcomeView::Raised => match pending {
            Some(v) => (all, v),
            None => (with_error(all, ErrorKind::Internal, no_error_left(), segment), fresh),
        },
        OutcomeView::Fault(kind, message) => (with_error(all, kind, message, LANG_CORE), fresh),
        OutcomeView::Panic(message) => {
            let made = with_error(all, ErrorKind::Internal, message, segment);
            match pending {
                Some(v) => (
                    with_body(
                        made,
                        next_address(all),
                        BodyView::Error(ErrorBody { cause: v, ..error_of(made, fresh)->0 }),
                    ),
                    fresh,
                ),
                None => (made, fresh),
            }
        },
    }
}

/// A value that is not an error travels wrapped in one, so it can still be
/// unwrapped at home.
pub open spec fn wrapped(all: ObjectSeq, v: Value, segment: LangId) -> (ObjectSeq, Value) {
    if error_of(all, v) is Some {
        (all, v)
    } else {
        (with_native_error(all, v, segment), Value::Object(next_address(all)))
    }
}

/// What the caller gets for the error `v`: the object its own language raised,
/// or the error.
pub open spec fn handed_back(all: ObjectSeq, v: Value, caller: LangId) -> Value {
    let e = error_of(all, v)->0;
    if !(e.native is Null) && e.origin == caller {
        e.native
    } else {
        v
    }
}

/// The objects once an error has left `segment`.
pub open spec fn left(
    all: ObjectSeq,
    pending: Option<Value>,
    outcome: OutcomeView,
    segment: LangId,
    name: Seq<char>,
) -> (ObjectSeq, Value) {
    let raised = raised_from(all, pending, outcome, segment);
    let err = wrapped(raised.0, raised.1, segment);
    (framed(err.0, err.1.address()->0, segment, name, None, None), err.1)
}

/// What settling an outcome gives: the objects then, and what the caller gets.
pub open spec fn settled(
    all: ObjectSeq,
    pending: Option<Value>,
    outcome: OutcomeView,
    segment: LangId,
    name: Seq<char>,
    caller: LangId,
) -> (ObjectSeq, Result<Value, Value>) {
    match outcome {
        OutcomeView::Returned(v) => (all, Ok(v)),
        _ => {
            let out = left(all, pending, outcome, segment, name);
            (out.0, Err(handed_back(out.0, out.1, caller)))
        },
    }
}

/// Whether settling an outcome takes what is pending.
pub open spec fn takes_pending(outcome: OutcomeView) -> bool {
    outcome is Raised || outcome is Panic
}

pub(crate) proof fn lemma_new_error(all: ObjectSeq, kind: ErrorKind, message: Seq<char>, origin: LangId)
    requires
        all.len() + 2 < usize::MAX,
    ensures
        ({
            let made = with_error(all, kind, message, origin);
            let v = Value::Object(next_address(all));
            &&& all.len() < made.len() <= all.len() + 2
            &&& error_of(made, v) matches Some(e) && e.kind == kind && e.origin == origin
                && e.cause is Null && e.native is Null && e.trace is Null && (if message.len()
                == 0 {
                e.message is Null
            } else {
                text_of(made, e.message) == Some(message)
            })
            &&& forall|p: usize|
                0 < p <= all.len() ==> #[trigger] object_at(made, p) == object_at(all, p)
        }),
{
}

/// Turn what came back into the bridge's result. Every error leaving here is
/// an error with one more frame for `segment`; one whose native payload
/// belongs to `caller` is unwrapped to that payload.
pub fn settle(
    objects: &mut Objects,
    pending: Option<Value>,
    outcome: Outcome,
    segment: LangId,
    name: &str,
    caller: LangId,
) -> (r: Result<Value, Value>)
    requires
        old(objects).room(9),
    ensures
        (final(objects)@, r) == settled(
            old(objects)@,
            pending,
            outcome@,
            segment,
            name@,
            caller,
        ),
        final(objects)@.len() <= old(objects)@.len() + 7,
{
    let ghost all = objects@;
    let raised: Value = match &outcome {
        Outcome::Returned(v) => {
            return Ok(*v);
        },
        Outcome::Raised => match pending {
            Some(v) => v,
            None => {
                proof {
                    lemma_new_error(all, ErrorKind::Internal, no_error_left(), segment);
                }
                Error::new(
                    objects,
                    ErrorKind::Internal,
                    "the callee reported a raise but left no error pending",
                    segment,
                )
            },
        },
        Outcome::Fault(kind, message) => {
            proof {
                lemma_new_error(all, *kind, message@, LANG_CORE);
            }
            Error::new(objects, *kind, message.as_str(), LANG_CORE)
        },
        Outcome::Panic(message) => {
            proof {
                lemma_new_error(all, ErrorKind::Internal, message@, segment);
            }
            let e: Value = Error::new(objects, ErrorKind::Internal, message.as_str(), segment);
            match pending {
                Some(v) => {
                    Error::with_cause(objects, e, v);
                },
                None => {},
            }
            e
        },
    };
    let ghost made = objects@;
    assert((made, raised) == raised_from(all, pending, outcome@, segment));
    assert(made.len() <= all.len() + 2);
    let err: Value = match objects.error(raised) {
        Some(_) => raised,
        None => {
            proof {
                lemma_new_error(made, ErrorKind::User, Seq::empty(), segment);
            }
            Error::with_native(objects, raised, segment)
        },
    };
    let ghost carried = objects@;
    assert((carried, err) == wrapped(made, raised, segment));
    assert(error_of(carried, err) is Some);
    Error::push_segment(objects, err, segment, name);
    assert((objects@, err) == left(all, pending, outcome@, segment, name@));
    match objects.error(err) {
        Some(e) => {
            if !e.native.is_null() && e.origin == caller {
                return Err(e.native);
            }
            Err(err)
        },
        None => {
            proof {
                lemma_framed_error(carried, err, segment, name@);
                assert(false);
            }
            Err(err)
        },
    }
}

/// An error that gathers a frame stays the error it is.
pub(crate) proof fn lemma_framed_error(all: ObjectSeq, v: Value, segment: LangId, name: Seq<char>)
    requires
        error_of(all, v) is Some,
        all.len() + 4 < usize::MAX,
    ensures
        ({
            let after = framed(all, v.address()->0, segment, name, None, None);
            let before = error_of(all, v)->0;
            error_of(after, v) matches Some(e) && e == ErrorBody { trace: e.trace, ..before }
        }),
{
}

/// What a fault is called by the one who asked: a reply into an outcome.
pub open spec fn outcome_of(answer: Answer, fault: (ErrorKind, Seq<char>)) -> OutcomeView {
    match answer {
        Answer::Reply(Ok(v)) => OutcomeView::Returned(v),
        Answer::Reply(Err(Fault::Raised)) => OutcomeView::Raised,
        Answer::Reply(Err(_)) => OutcomeView::Fault(fault.0, fault.1),
        Answer::Panic(m) => OutcomeView::Panic(m@),
    }
}

/// Run through the protected boundary: a fault is described by `fault`, a
/// panic was caught.
pub fn protected(answer: Answer, fault: (ErrorKind, String)) -> (r: Outcome)
    ensures
        r@ == outcome_of(answer, (fault.0, fault.1@)),
{
    match answer {
        Answer::Reply(Ok(v)) => Outcome::Returned(v),
        Answer::Reply(Err(f)) => match f {
            Fault::Raised => Outcome::Raised,
            _ => Outcome::Fault(fault.0, fault.1),
        },
        Answer::Panic(m) => Outcome::Panic(m),
    }
}

/// [`settle`] with the pending error of `task`, which an outcome that raised or
/// panicked takes.
pub fn settle_for(
    objects: &mut Objects,
    slots: &mut PendingTable,
    handles: &mut HandleTable,
    task: TaskId,
    outcome: Outcome,
    segment: LangId,
    name: &str,
    caller: LangId,
) -> (r: Result<Value, Value>)
    requires
        old(objects).room(9),
        slots_ok(old(slots).slots@, old(handles)),
    ensures
        slots_ok(final(slots).slots@, final(handles)),
        takes_pending(outcome@) ==> !has_slot(final(slots).slots@, task),
        !takes_pending(outcome@) ==> final(slots).slots@ == old(slots).slots@,
        forall|t: TaskId, v: Value|
            t != task ==> (#[trigger] holds(final(slots).slots@, t, v) <==> holds(
                old(slots).slots@,
                t,
                v,
            )),
        (final(objects)@, r) == settled(
            old(objects)@,
            if takes_pending(outcome@) {
                pending_of(old(slots).slots@, task)
            } else {
                None
            },
            outcome@,
            segment,
            name@,
            caller,
        ),
        final(handles).slots.len() == old(handles).slots.len(),
        forall|h: Handle|
            !roots_slot(old(slots).slots@, h) ==> #[trigger] final(handles).live(h) == old(
                handles,
            ).live(h),
{
    let taken: bool = match &outcome {
        Outcome::Raised => true,
        Outcome::Panic(_) => true,
        _ => false,
    };
    let pending: Option<Value> = if taken {
        slots.take_pending(handles, task)
    } else {
        None
    };
    settle(objects, pending, outcome, segment, name, caller)
}

/// A value that comes back is not touched.
pub proof fn law_success_passes_through(
    all: ObjectSeq,
    pending: Option<Value>,
    v: Value,
    segment: LangId,
    name: Seq<char>,
    caller: LangId,
)
    ensures
        settled(all, pending, OutcomeView::Returned(v), segment, name, caller) == (all, Ok::<
            Value,
            Value,
        >(v)),
{
}

/// An error that crosses a boundary keeps its identity, and gains exactly one
/// frame, of the segment it left.
pub proof fn law_error_gains_one_frame(
    all: ObjectSeq,
    err: Value,
    segment: LangId,
    name: Seq<char>,
    caller: LangId,
)
    requires
        error_of(all, err) is Some,
        frames_named(all, err),
        all.len() + 4 < usize::MAX,
    ensures
        ({
            let out = settled(all, Some(err), OutcomeView::Raised, segment, name, caller);
            let before = error_of(all, err)->0;
            &&& out.1 == Err::<Value, Value>(
                if !(before.native is Null) && before.origin == caller {
                    before.native
                } else {
                    err
                },
            )
            &&& error_frames(out.0, err) == error_frames(all, err).push(
                FrameInfo {
                    lang: segment,
                    name: if name.len() == 0 {
                        None
                    } else {
                        Some(name)
                    },
                    source: None,
                    span: None,
                },
            )
        }),
{
    law_frame_added(all, err, segment, name, None, None);
    lemma_framed_error(all, err, segment, name);
}

/// A language's bare error object travels wrapped, and is itself again when it
/// comes back to a caller of the language that raised it.
pub proof fn law_identity_survives(
    all: ObjectSeq,
    bare: Value,
    segment: LangId,
    name: Seq<char>,
    caller: LangId,
)
    requires
        error_of(all, bare) is None,
        !(bare is Null),
        all.len() + 8 < usize::MAX,
    ensures
        ({
            let out = settled(all, Some(bare), OutcomeView::Raised, segment, name, caller);
            &&& caller == segment ==> out.1 == Err::<Value, Value>(bare)
            &&& caller != segment ==> (out.1 matches Err(v) && (error_of(out.0, v) matches Some(e)
                && e.native == bare && e.origin == segment && e.kind == ErrorKind::User))
        }),
{
    lemma_new_error(all, ErrorKind::User, Seq::empty(), segment);
    let carried = with_native_error(all, bare, segment);
    let v = Value::Object(next_address(all));
    assert(error_of(carried, v) == Some(
        ErrorBody { native: bare, ..bare_error(ErrorKind::User, segment) },
    ));
    lemma_framed_error(carried, v, segment, name);
}

/// A fault is an error of the core, of the kind and with the message it was
/// described by.
pub proof fn law_fault_is_described(
    all: ObjectSeq,
    pending: Option<Value>,
    kind: ErrorKind,
    message: Seq<char>,
    segment: LangId,
    name: Seq<char>,
    caller: LangId,
)
    requires
        all.len() + 8 < usize::MAX,
        message.len() > 0,
    ensures
        ({
            let out = settled(
                all,
                pending,
                OutcomeView::Fault(kind, message),
                segment,
                name,
                caller,
            );
            out.1 matches Err(v) && (error_of(out.0, v) matches Some(e) && e.kind == kind
                && e.origin == LANG_CORE && text_of(out.0, e.message) == Some(message))
        }),
{
    lemma_new_error(all, kind, message, LANG_CORE);
    let made = with_error(all, kind, message, LANG_CORE);
    let v = Value::Object(next_address(all));
    lemma_framed_error(made, v, segment, name);
    law_frame_added(made, v, segment, name, None, None);
}

} // verus!
