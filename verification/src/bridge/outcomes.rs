//! What holds of errors that are left behind, and of what a caller is told.

use vstd::prelude::*;
use vstd::string::*;

use crate::bridge::pending::{exists_task, holds, left_pending, pending_of, Pending};
use crate::bridge::plan::{description, typed_refusal_of};
use crate::bridge::runs::{entry_of, CallSite, Entry};
use crate::bridge::settle::{
    handed_back, lemma_framed_error, lemma_new_error, outcome_of, raised_from, settled,
    takes_pending, wrapped, Answer, OutcomeView,
};
use crate::bridge::typed::{marshalled, slot_of};
use crate::cell::unwrapped;
use crate::data::buffer_value;
use crate::data::enums::{
    enum_value, is_field_type, is_variant, FieldTag, VariantDecl,
};
use crate::describe::VariantDesc;
use crate::error::{law_frame_added, with_error};
use crate::future::future_value;
use crate::native::{dispatch_of, type_of_kind, word, words_of};
use crate::object::{error_of, next_address, text_of, ErrorBody, ObjectSeq};
use crate::protocol::{Fault, Reply};
use crate::registry::TypeRef;
use crate::sched::task::TaskId;
use crate::text::decimal;
use crate::value::{ErrorKind, LangId, Value};

verus! {

// Outcomes.

/// A raise that left no error is an internal error of the callee's language that says
/// so.
pub proof fn law_a_raise_without_an_error(
    all: ObjectSeq,
    segment: LangId,
    name: Seq<char>,
    caller: LangId,
)
    requires
        all.len() + 8 < usize::MAX,
    ensures
        ({
            let out = settled(all, None, OutcomeView::Raised, segment, name, caller);
            out.1 matches Err(v) && error_of(out.0, v) matches Some(e) && e.kind is Internal
                && e.origin == segment && text_of(out.0, e.message) == Some(
                "the callee reported a raise but left no error pending"@,
            )
        }),
{
    let m = "the callee reported a raise but left no error pending"@;
    reveal_strlit("the callee reported a raise but left no error pending");
    lemma_new_error(all, ErrorKind::Internal, m, segment);
    let made = with_error(all, ErrorKind::Internal, m, segment);
    let v = Value::Object(next_address(all));
    lemma_framed_error(made, v, segment, name);
    law_frame_added(made, v, segment, name, None, None);
}

/// A panic is an internal error of the callee's language with its message, caused by
/// what was pending.
pub proof fn law_a_panic_is_an_error(
    all: ObjectSeq,
    pending: Option<Value>,
    message: Seq<char>,
    segment: LangId,
    name: Seq<char>,
    caller: LangId,
)
    requires
        all.len() + 8 < usize::MAX,
        message.len() > 0,
    ensures
        ({
            let out = settled(all, pending, OutcomeView::Panic(message), segment, name, caller);
            out.1 matches Err(v) && error_of(out.0, v) matches Some(e) && e.kind is Internal
                && e.origin == segment && text_of(out.0, e.message) == Some(message) && e.cause
                == match pending {
                Some(p) => p,
                None => Value::Null,
            }
        }),
{
    lemma_new_error(all, ErrorKind::Internal, message, segment);
    let v = Value::Object(next_address(all));
    let (made, at) = raised_from(all, pending, OutcomeView::Panic(message), segment);
    assert(at == v);
    assert(error_of(made, v) is Some);
    let bare = with_error(all, ErrorKind::Internal, message, segment);
    let e = error_of(bare, v)->0;
    assert(text_of(made, e.message) == Some(message));
    lemma_framed_error(made, v, segment, name);
    law_frame_added(made, v, segment, name, None, None);
}

/// What is pending is taken by a raise or a panic alone.
pub proof fn law_who_takes_what_is_pending(outcome: OutcomeView)
    ensures
        takes_pending(outcome) <==> !(outcome is Returned) && !(outcome is Fault),
{
}

/// An error that holds a value of the caller's own language is handed back as that
/// value, and to any other caller as itself.
pub proof fn law_a_value_comes_home(all: ObjectSeq, v: Value, e: ErrorBody, caller: LangId)
    requires
        error_of(all, v) == Some(e),
    ensures
        !(e.native is Null) && e.origin == caller ==> handed_back(all, v, caller) == e.native,
        e.native is Null || e.origin != caller ==> handed_back(all, v, caller) == v,
        wrapped(all, v, caller) == (all, v),
{
}

/// A reply is a value, a raise, or a fault that is told as it was described; a panic is
/// told by its message.
pub proof fn law_replies_are_outcomes(v: Value, kind: ErrorKind, m: Seq<char>, p: String)
    ensures
        outcome_of(Answer::Reply(Ok(v)), (kind, m)) == OutcomeView::Returned(v),
        outcome_of(Answer::Reply(Err(Fault::Raised)), (kind, m)) == OutcomeView::Raised,
        outcome_of(Answer::Reply(Err(Fault::Missing)), (kind, m)) == OutcomeView::Fault(kind, m),
        outcome_of(Answer::Reply(Err(Fault::Unsupported)), (kind, m)) == OutcomeView::Fault(kind, m),
        outcome_of(Answer::Panic(p), (kind, m)) == OutcomeView::Panic(p@),
{
}

/// An error that is left pending is its task's only one; those of other tasks stay,
/// unless there are many and the task is gone.
pub proof fn law_errors_wait_by_task(
    before: Seq<Pending>,
    after: Seq<Pending>,
    task: TaskId,
    err: Value,
    alive: Seq<TaskId>,
    other: TaskId,
    v: Value,
)
    requires
        left_pending(before, after, task, err, alive),
    ensures
        pending_of(after, task) == Some(err),
        holds(after, task, v) <==> v == err,
        other != task && (other.0 == 0 || alive.contains(other)) ==> (holds(after, other, v)
            <==> holds(before, other, v)),
        other != task && before.len() < 16 ==> (holds(after, other, v) <==> holds(
            before,
            other,
            v,
        )),
        other != task && before.len() >= 16 && other.0 != 0 && !alive.contains(other) ==> !holds(
            after,
            other,
            v,
        ),
{
    let _ = exists_task(alive, other);
}

/// A run goes without the guard from a site that never called back, outside any guard;
/// else under the guard, where there is one. A send that took the plain path is
/// counted.
pub proof fn law_how_a_run_is_entered(
    s: usize,
    reentrant: bool,
    guarded: u32,
    has_guard: bool,
    site: CallSite,
)
    ensures
        entry_of(Some((s, false)), 0, has_guard) == Entry::Marked(s),
        reentrant || guarded > 0 ==> entry_of(Some((s, reentrant)), guarded, has_guard)
            == if has_guard {
            Entry::Guarded
        } else {
            Entry::Plain
        },
        entry_of(None, guarded, true) is Guarded,
        entry_of(None, guarded, false) is Plain,
        site.plain < usize::MAX ==> site.noted().plain == site.plain + 1,
        site.plain == usize::MAX ==> site.noted().plain == usize::MAX,
        site.noted().direct == site.direct,
        site.noted().reentrant == site.reentrant,
{
}

// What is told.

/// A typed call that cannot be made is told why.
pub proof fn law_typed_refusals_are_told(takes: nat, given: nat, lang: LangId, dispatches: bool)
    ensures
        typed_refusal_of(None, given, lang, dispatches) == Some(
            (ErrorKind::Type, "typed callable has no function signature"@),
        ),
        takes != given ==> typed_refusal_of(Some(takes), given, lang, dispatches) == Some(
            (ErrorKind::Type, "expected "@ + decimal(takes) + " arguments, got "@ + decimal(given)),
        ),
        typed_refusal_of(Some(given), given, lang, false) == Some(
            (
                ErrorKind::Internal,
                "no typed dispatcher is registered for language "@ + decimal(lang as nat),
            ),
        ),
{
}

/// An argument that the core does not take is told by its place, counted from nought,
/// and its kind.
pub proof fn law_arguments_that_are_not_taken(
    all: ObjectSeq,
    kinds: Seq<u32>,
    args: Seq<Value>,
    n: nat,
)
    requires
        n < kinds.len(),
        n < args.len(),
        marshalled(all, kinds, args, n) is Ok,
    ensures
        !(kinds[n as int] == 3 || kinds[n as int] == 6 || kinds[n as int] == 7 || kinds[n as int]
            == 9) ==> marshalled(all, kinds, args, n + 1) == Err::<
            Seq<crate::bridge::typed::Slot>,
            Seq<char>,
        >(
            "argument "@ + decimal(n) + " has kind "@ + decimal(kinds[n as int] as nat)
                + ", which the core dispatcher does not marshal"@,
        ),
        (kinds[n as int] == 3 || kinds[n as int] == 6 || kinds[n as int] == 7) && slot_of(
            kinds[n as int],
            args[n as int],
        ) is None ==> marshalled(all, kinds, args, n + 1) == Err::<
            Seq<crate::bridge::typed::Slot>,
            Seq<char>,
        >(
            "argument "@ + decimal(n) + " expects kind "@ + decimal(kinds[n as int] as nat)
                + ", got "@ + description(all, args[n as int]),
        ),
{
}

/// A native function's arguments are counted from one, and one that does not fit is told
/// by its place and what it is.
pub proof fn law_native_refusals_are_told(
    all: ObjectSeq,
    kinds: Seq<u32>,
    args: Seq<Value>,
    kind: u32,
    v: Value,
)
    ensures
        kinds.len() != args.len() ==> dispatch_of(all, kinds, args) == Err::<
            Seq<crate::native::Word>,
            Seq<char>,
        >(
            "the function takes "@ + decimal(kinds.len()) + " arguments, not "@ + decimal(
                args.len(),
            ),
        ),
        kinds.len() == args.len() && words_of(all, kinds, args) is Ok && word(all, v, kind) is None
            ==> dispatch_of(all, kinds.push(kind), args.push(v)) == Err::<
            Seq<crate::native::Word>,
            Seq<char>,
        >(
            "argument "@ + decimal(kinds.len() + 1) + " of the function cannot be "@ + description(
                all,
                v,
            ),
        ),
{
    assert(kinds.push(kind).drop_last() =~= kinds);
    assert(args.push(v).drop_last() =~= args);
}

// Values of the library's own.

/// A cell stands for its object wherever a buffer, an enum or a future is wanted.
pub proof fn law_cells_stand_for_their_objects(all: ObjectSeq, v: Value)
    requires
        crate::cell::cell_of(all, unwrapped(all, v)) is None,
    ensures
        buffer_value(all, v) == buffer_value(all, unwrapped(all, v)),
        enum_value(all, v) == enum_value(all, unwrapped(all, v)),
        future_value(all, v) == future_value(all, unwrapped(all, v)),
        buffer_value(all, v) is Some ==> enum_value(all, v) is None && future_value(all, v) is None,
        enum_value(all, v) is Some ==> future_value(all, v) is None,
        buffer_value(all, Value::Null) is None && enum_value(all, Value::Null) is None
            && future_value(all, Value::Null) is None,
{
}

/// A declared field has the type its tag says, and a declared variant its fields in
/// order.
pub proof fn law_declarations_are_described(
    ty: TypeRef,
    tag: FieldTag,
    v: VariantDesc,
    d: VariantDecl,
    i: int,
)
    ensures
        is_field_type(ty, tag) ==> match tag {
            FieldTag::Int64 => ty is Int64,
            FieldTag::Buffer => ty is Buffer,
            FieldTag::Enum(name) => ty matches TypeRef::Enum(n) && n@ == name@,
            FieldTag::Kind(kind) => ty == type_of_kind(kind),
        },
        is_variant(v, d) ==> {
            &&& v.name@ == d.name@
            &&& v.fields@.len() == d.fields@.len()
            &&& 0 <= i < d.fields@.len() ==> v.fields@[i].name@ == d.fields@[i].name@
                && is_field_type(v.fields@[i].ty, d.fields@[i].tag)
        },
{
    if is_variant(v, d) && 0 <= i < d.fields@.len() {
        let _ = v.fields@[i];
    }
}

/// What is pending for a task is what a slot holds for it, and nothing where none does.
pub proof fn law_what_is_pending(list: Seq<Pending>, task: TaskId, i: int)
    ensures
        pending_of(list, task) matches Some(v) ==> holds(list, task, v),
        pending_of(list, task) is None <==> forall|k: int|
            0 <= k < list.len() ==> (#[trigger] list[k]).task != task,
        0 <= i < list.len() && list[i].task == task && (forall|k: int|
            0 <= k < list.len() && (#[trigger] list[k]).task == task ==> k == i) ==> pending_of(
            list,
            task,
        ) == Some(list[i].value),
{
}

} // verus!
