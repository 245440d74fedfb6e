//! What holds of every crossing: who is asked, with which arguments, and what a
//! refusal or a fault is told as.

use vstd::prelude::*;

use crate::bridge::crossing::{
    begun_call, begun_get, begun_invoke, begun_sequence, begun_set, came_to, Ask, Came, Crossing,
    Sequence,
};
use crate::bridge::plan::{
    call_plan_of, description, lang_at, typed_refusal_of, CallPlanView,
};
use crate::bridge::settle::{Answer, OutcomeView};
use crate::bridge::typed::{
    dispatch_plan_of, marshalled, ret_of, shaped, slot_of, Raw, Ret, Slot, HBOOL, HDYN, HF64, HI32,
    HVOID,
};
use crate::object::{object_at, ObjectSeq};
use crate::protocol::{replied, Callable, CoreFn, Fault};
use crate::symbol::{name_of, Symbol};
use crate::value::{ErrorKind, LangId, Value, LANG_CORE};

verus! {

/// The name by which an instance member is sent to its receiver: a member of the
/// core's own classes, or one sent by its signature that is not static.
pub open spec fn instance_member(callable: Callable) -> Option<Symbol> {
    match callable {
        Callable::ProtocolMethod { name } => Some(name),
        Callable::WrenMethod { class: _, signature, is_static } => if is_static {
            None
        } else {
            Some(signature)
        },
        _ => None,
    }
}

/// An instance member goes to the first argument, and the others go with it, no
/// more and no less: called with the receiver and as many arguments as the member
/// declares, the receiver's side gets just those.
pub proof fn law_the_receiver_is_split_off(
    all: ObjectSeq,
    names: Seq<Seq<char>>,
    callable: Callable,
    receiver: Value,
    rest: Seq<Value>,
)
    requires
        instance_member(callable) is Some,
    ensures
        ({
            let args = seq![receiver] + rest;
            &&& call_plan_of(all, names, callable, args) matches CallPlanView::Invoke {
                receiver: r,
                name,
                first,
            } && r == receiver && Some(name) == instance_member(callable) && args.skip(first as int)
                == rest
            &&& receiver.address() matches Some(p) ==> begun_call(all, names, callable, args)
                matches Ok(c) && c.on == receiver && c.segment == lang_at(all, p) && (
            c.ask matches Ask::Invoke { obj, name, first } && obj == p && Some(name)
                == instance_member(callable) && args.skip(first as int) == rest)
            &&& receiver.address() is None ==> begun_call(all, names, callable, args) is Err
        }),
{
    let args = seq![receiver] + rest;
    assert(args[0] == receiver);
    assert(args.skip(1) =~= rest);
}

/// The same, of the callables themselves: a method every object of a class answers
/// by name, and a member that is sent by its signature and is not static.
pub proof fn law_a_method_gets_its_parameters(
    all: ObjectSeq,
    names: Seq<Seq<char>>,
    class: Value,
    name: Symbol,
    args: Seq<Value>,
)
    requires
        args.len() > 0,
    ensures
        call_plan_of(all, names, Callable::ProtocolMethod { name }, args) matches
            CallPlanView::Invoke { receiver, name: n, first } && receiver == args[0] && n == name
            && args.skip(first as int) == args.drop_first(),
        call_plan_of(
            all,
            names,
            Callable::WrenMethod { class, signature: name, is_static: false },
            args,
        ) matches CallPlanView::Invoke { receiver, name: n, first } && receiver == args[0] && n
            == name && args.skip(first as int) == args.drop_first(),
{
    assert(args.skip(1) =~= args.drop_first());
}

/// A static member goes to its class, with every argument.
pub proof fn law_a_static_goes_to_its_class(
    all: ObjectSeq,
    names: Seq<Seq<char>>,
    class: Value,
    signature: Symbol,
    args: Seq<Value>,
)
    ensures
        ({
            let callable = Callable::WrenMethod { class, signature, is_static: true };
            &&& call_plan_of(all, names, callable, args) matches CallPlanView::Invoke {
                receiver,
                name,
                first,
            } && receiver == class && name == signature && args.skip(first as int) == args
            &&& class.address() matches Some(p) ==> begun_call(all, names, callable, args)
                matches Ok(c) && c.on == class && (c.ask matches Ask::Invoke { obj, name, first }
                && obj == p && name == signature && args.skip(first as int) == args)
        }),
{
    assert(args.skip(0) =~= args);
}

/// An instance member with no arguments has no receiver, and is refused as a
/// `Type` error that names it.
pub proof fn law_a_member_needs_a_receiver(
    all: ObjectSeq,
    names: Seq<Seq<char>>,
    callable: Callable,
    args: Seq<Value>,
)
    requires
        instance_member(callable) is Some,
        args.len() == 0,
    ensures
        begun_call(all, names, callable, args) matches Err((kind, message)) && kind
            == ErrorKind::Type && message == "`"@ + name_of(names, instance_member(callable)->0)
            + "` takes a receiver"@,
{
}

/// A callable is run as what it is: an object is sent `call`, typed code is run by
/// its own signature in its own language, the code of a cell likewise, and the
/// core's functions are run by the core.
pub proof fn law_a_callable_is_run_as_it_is(
    all: ObjectSeq,
    names: Seq<Seq<char>>,
    func: usize,
    signature: usize,
    lang: LangId,
    v: Value,
    f: CoreFn,
    args: Seq<Value>,
)
    ensures
        begun_call(all, names, Callable::Typed { func, signature, lang }, args) matches Ok(c)
            && c.ask == (Ask::Typed { func, signature }) && c.segment == lang,
        begun_call(all, names, Callable::Cell { cell: func, signature, lang }, args) matches Ok(c)
            && c.ask == (Ask::FromCell { cell: func, signature }) && c.segment == lang,
        begun_call(all, names, Callable::Core(f), args) matches Ok(c) && c.ask == Ask::Core(f)
            && c.segment == LANG_CORE,
        v matches Value::Object(p) ==> (p != 0 ==> (begun_call(
            all,
            names,
            Callable::Dynamic(v),
            args,
        ) matches Ok(c) && c.ask == (Ask::Call { obj: p }) && c.on == v && c.segment == lang_at(
            all,
            p,
        ))),
        !(v is Object) ==> (begun_call(all, names, Callable::Dynamic(v), args) matches Err(
            (kind, message),
        ) && kind == ErrorKind::Type && message == description(all, v) + " is not callable"@),
{
}

/// A member send, a read and a write go to the object they are of and ask for the
/// member they name, each for what it is; so does each send to a sequence. What
/// is no object is refused with a `Type` error.
pub proof fn law_a_send_goes_to_its_object(
    all: ObjectSeq,
    names: Seq<Seq<char>>,
    p: usize,
    name: Symbol,
    first: usize,
)
    requires
        p != 0,
    ensures
        begun_invoke(all, names, Value::Object(p), name, first) matches Ok(c) && c.ask == (
        Ask::Invoke { obj: p, name, first }) && c.on == Value::Object(p),
        begun_get(all, names, Value::Object(p), name) matches Ok(c) && c.ask == (Ask::Read {
            obj: p,
            name,
        }) && c.on == Value::Object(p),
        begun_set(all, names, Value::Object(p), name) matches Ok(c) && c.ask == (Ask::Write {
            obj: p,
            name,
        }) && c.on == Value::Object(p),
        begun_sequence(all, Value::Object(p), Sequence::Len) matches Ok(c) && c.ask == (Ask::Len {
            obj: p,
        }) && c.on == Value::Object(p) && c.segment == lang_at(all, p),
        begun_sequence(all, Value::Object(p), Sequence::Index) matches Ok(c) && c.ask == (
        Ask::Index { obj: p }) && c.on == Value::Object(p) && c.segment == lang_at(all, p),
        begun_sequence(all, Value::Object(p), Sequence::SetIndex) matches Ok(c) && c.ask == (
        Ask::SetIndex { obj: p }) && c.on == Value::Object(p) && c.segment == lang_at(all, p),
        object_at(all, p) matches Some(o) ==> lang_at(all, p) == o.lang,
        object_at(all, p) is None ==> lang_at(all, p) == LANG_CORE,
{
}

/// What is no object answers no send.
pub proof fn law_no_object_no_send(
    all: ObjectSeq,
    names: Seq<Seq<char>>,
    v: Value,
    name: Symbol,
    first: usize,
    what: Sequence,
)
    requires
        !(v is Object) || v == Value::Object(0),
    ensures
        begun_invoke(all, names, v, name, first) matches Err((kind, message)) && kind
            == ErrorKind::Type && message == "cannot "@ + "invoke"@ + " `"@ + name_of(names, name)
            + "` on "@ + description(all, v),
        begun_get(all, names, v, name) matches Err((kind, message)) && kind == ErrorKind::Type
            && message == "cannot "@ + "read"@ + " `"@ + name_of(names, name) + "` of "@
            + description(all, v),
        begun_set(all, names, v, name) matches Err((kind, message)) && kind == ErrorKind::Type
            && message == "cannot "@ + "write"@ + " `"@ + name_of(names, name) + "` of "@
            + description(all, v),
        begun_sequence(all, v, what) matches Err((kind, message)) && kind == ErrorKind::Type
            && message == description(all, v) + " does not answer "@ + match what {
            Sequence::Len => "len"@,
            Sequence::Index => "index"@,
            Sequence::SetIndex => "set_index"@,
        },
{
}

/// What is said of a value in a message: what it is, and an object by the name of
/// its type where that has one.
pub proof fn law_a_value_is_described(all: ObjectSeq, v: Value)
    ensures
        v is Null ==> description(all, v) == "null"@,
        v is Int ==> description(all, v) == "an int"@,
        v is Number ==> description(all, v) == "a number"@,
        v is Bool ==> description(all, v) == "a bool"@,
        v is Undefined ==> description(all, v) == "an undefined value"@,
        v matches Value::Object(p) ==> (p != 0 ==> (object_at(all, p) matches Some(o) ==> (
        o.ty_name.len() > 0 ==> description(all, v) == "a "@ + o.ty_name))),
        v matches Value::Object(p) ==> (p != 0 ==> (object_at(all, p) is None ==> description(
            all,
            v,
        ) == "an object"@)),
        v == Value::Object(0) ==> description(all, v) == "an undefined value"@,
{
}

/// A value that a callee answers is the outcome, whatever was asked; a raise is a
/// raise, and a panic carries its message.
pub proof fn law_an_answer_is_the_outcome(
    all: ObjectSeq,
    names: Seq<Seq<char>>,
    crossing: Crossing,
    v: Value,
    m: String,
)
    ensures
        came_to(all, names, crossing, Came::Answered(Answer::Reply(Ok(v))))
            == OutcomeView::Returned(v),
        came_to(all, names, crossing, Came::Answered(Answer::Reply(Err(Fault::Raised))))
            is Raised,
        came_to(all, names, crossing, Came::Answered(Answer::Panic(m))) == OutcomeView::Panic(m@),
{
}

/// A member that is missing is a `Runtime` error that names it, and one whose
/// receiver does not answer is a `Type` error that says what was asked; an element
/// that is missing is an `Index` error.
pub proof fn law_a_fault_is_told_by_what_was_asked(
    all: ObjectSeq,
    names: Seq<Seq<char>>,
    crossing: Crossing,
)
    ensures
        ({
            let missing = came_to(
                all,
                names,
                crossing,
                Came::Answered(Answer::Reply(Err(Fault::Missing))),
            );
            let unsupported = came_to(
                all,
                names,
                crossing,
                Came::Answered(Answer::Reply(Err(Fault::Unsupported))),
            );
            let who = description(all, crossing.on);
            match crossing.ask {
                Ask::Call { obj: _ } => {
                    &&& missing == OutcomeView::Fault(
                        ErrorKind::Runtime,
                        who + " has nothing to call"@,
                    )
                    &&& unsupported == OutcomeView::Fault(
                        ErrorKind::Type,
                        who + " is not callable"@,
                    )
                },
                Ask::Invoke { obj: _, name, first: _ } => {
                    &&& missing == OutcomeView::Fault(
                        ErrorKind::Runtime,
                        who + " has no member `"@ + name_of(names, name) + "`"@,
                    )
                    &&& unsupported == OutcomeView::Fault(
                        ErrorKind::Type,
                        who + " does not answer "@ + "invoke"@ + " for `"@ + name_of(names, name)
                            + "`"@,
                    )
                },
                Ask::Read { obj: _, name } => {
                    &&& missing == OutcomeView::Fault(
                        ErrorKind::Runtime,
                        who + " has no member `"@ + name_of(names, name) + "`"@,
                    )
                    &&& unsupported == OutcomeView::Fault(
                        ErrorKind::Type,
                        who + " does not answer "@ + "read"@ + " for `"@ + name_of(names, name)
                            + "`"@,
                    )
                },
                Ask::Write { obj: _, name } => {
                    &&& missing == OutcomeView::Fault(
                        ErrorKind::Runtime,
                        who + " has no member `"@ + name_of(names, name) + "`"@,
                    )
                    &&& unsupported == OutcomeView::Fault(
                        ErrorKind::Type,
                        who + " does not answer "@ + "write"@ + " for `"@ + name_of(names, name)
                            + "`"@,
                    )
                },
                Ask::Len { obj: _ } => missing == OutcomeView::Fault(
                    ErrorKind::Index,
                    who + " has no element there"@,
                ) && unsupported == OutcomeView::Fault(
                    ErrorKind::Type,
                    who + " does not answer "@ + "len"@,
                ),
                Ask::Index { obj: _ } => missing == OutcomeView::Fault(
                    ErrorKind::Index,
                    who + " has no element there"@,
                ) && unsupported == OutcomeView::Fault(
                    ErrorKind::Type,
                    who + " does not answer "@ + "index"@,
                ),
                Ask::SetIndex { obj: _ } => missing == OutcomeView::Fault(
                    ErrorKind::Index,
                    who + " has no element there"@,
                ) && unsupported == OutcomeView::Fault(
                    ErrorKind::Type,
                    who + " does not answer "@ + "set_index"@,
                ),
                _ => missing == OutcomeView::Fault(
                    ErrorKind::Runtime,
                    "typed callable not found"@,
                ) && (unsupported matches OutcomeView::Fault(kind, _) && kind == ErrorKind::Type),
            }
        }),
{
}

/// A refusal before anything is sent is the fault it says.
pub proof fn law_a_refusal_is_told(
    all: ObjectSeq,
    names: Seq<Seq<char>>,
    crossing: Crossing,
    kind: ErrorKind,
    m: String,
)
    ensures
        came_to(all, names, crossing, Came::Refused(kind, m)) == OutcomeView::Fault(kind, m@),
{
}

/// A typed call is dispatched exactly where it has a signature, is given as many
/// arguments as that takes, and its language has a dispatcher.
pub proof fn law_a_typed_call_is_dispatched(
    arity: Option<nat>,
    given: nat,
    lang: LangId,
    dispatches: bool,
)
    ensures
        typed_refusal_of(arity, given, lang, dispatches) is None <==> arity == Some(given)
            && dispatches,
        arity is None || arity != Some(given) ==> (typed_refusal_of(arity, given, lang, dispatches)
            matches Some((kind, _)) && kind == ErrorKind::Type),
        arity == Some(given) && !dispatches ==> (typed_refusal_of(arity, given, lang, dispatches)
            matches Some((kind, _)) && kind == ErrorKind::Internal),
{
}

/// Arguments travel in order, each by its own kind: an integer as the integer it
/// is, a bool as one or zero, a number as its bits, and a dynamic argument as the
/// value itself. A number where an integer is wanted is to be cut, and an integer
/// where a number is wanted is to be widened.
pub proof fn law_arguments_travel_by_kind(
    all: ObjectSeq,
    kinds: Seq<u32>,
    args: Seq<Value>,
    n: nat,
)
    requires
        kinds.len() == args.len(),
        n <= args.len(),
        marshalled(all, kinds, args, n) is Ok,
    ensures
        ({
            let slots = marshalled(all, kinds, args, n)->Ok_0;
            &&& slots.len() == n
            &&& forall|i: int|
                0 <= i < n ==> {
                    let s = #[trigger] slots[i];
                    match args[i] {
                        Value::Int(k) => {
                            ||| kinds[i] == HI32 && s == Slot::Int(k as i64)
                            ||| kinds[i] == HF64 && s == Slot::Widened(k)
                            ||| kinds[i] == HDYN && s == Slot::Dyn(args[i])
                        },
                        Value::Number(b) => {
                            ||| kinds[i] == HF64 && s == Slot::Float(b)
                            ||| kinds[i] == HI32 && s == Slot::Cut(b)
                            ||| kinds[i] == HDYN && s == Slot::Dyn(args[i])
                        },
                        Value::Bool(b) => {
                            ||| kinds[i] == HBOOL && (s matches Slot::Int(k) && k == if b {
                                1int
                            } else {
                                0int
                            })
                            ||| kinds[i] == HDYN && s == Slot::Dyn(args[i])
                        },
                        _ => kinds[i] == HDYN && s == Slot::Dyn(args[i]),
                    }
                }
        }),
    decreases n,
{
    if n > 0 {
        let m = (n - 1) as nat;
        law_arguments_travel_by_kind(all, kinds, args, m);
        let before = marshalled(all, kinds, args, m)->Ok_0;
        let slots = marshalled(all, kinds, args, n)->Ok_0;
        assert forall|i: int| 0 <= i < m implies slots[i] == before[i] by {}
    }
}

/// A call is refused by the core's dispatcher only for more than four arguments,
/// a wrong number of them, a kind that does not travel, or a value its kind
/// cannot take.
pub proof fn law_the_core_takes_what_it_can(
    all: ObjectSeq,
    kinds: Seq<u32>,
    ret: u32,
    args: Seq<Value>,
)
    requires
        kinds.len() == args.len() <= 4,
        ret == HVOID || ret == HI32 || ret == HBOOL || ret == HF64 || ret == HDYN,
        forall|i: int|
            0 <= i < args.len() ==> (match #[trigger] kinds[i] {
                3u32 => args[i] is Int || args[i] is Number,
                7u32 => args[i] is Bool,
                6u32 => args[i] is Number || args[i] is Int,
                9u32 => true,
                _ => false,
            }),
    ensures
        dispatch_plan_of(all, Some((kinds, ret)), args) matches Ok((slots, r)) && slots.len()
            == args.len() && (r is Void <==> ret == HVOID) && (r is Float <==> ret == HF64),
{
    lemma_all_travel(all, kinds, args, args.len());
}

proof fn lemma_all_travel(all: ObjectSeq, kinds: Seq<u32>, args: Seq<Value>, n: nat)
    requires
        kinds.len() == args.len(),
        n <= args.len(),
        forall|i: int|
            0 <= i < args.len() ==> (match #[trigger] kinds[i] {
                3u32 => args[i] is Int || args[i] is Number,
                7u32 => args[i] is Bool,
                6u32 => args[i] is Number || args[i] is Int,
                9u32 => true,
                _ => false,
            }),
    ensures
        marshalled(all, kinds, args, n) matches Ok(slots) && slots.len() == n,
    decreases n,
{
    if n > 0 {
        lemma_all_travel(all, kinds, args, (n - 1) as nat);
        let _ = kinds[n - 1];
    }
}

/// A result comes back as the argument it would be: what an argument of a kind
/// travels as, a result of that kind is shaped from.
pub proof fn law_a_result_is_the_argument_it_would_be(v: Value, bits: u64)
    ensures
        slot_of(HF64, Value::Number(bits)) == Some(Slot::Float(bits)),
        shaped(Raw::Float(bits), HF64) == Value::Number(bits),
        slot_of(HDYN, v) == Some(Slot::Dyn(v)),
        shaped(Raw::Dyn(v), HDYN) == v,
        shaped(Raw::Void, HVOID) == Value::Null,
        ret_of(HF64) == Some(Ret::Float),
        ret_of(HI32) == Some(Ret::Int),
        ret_of(HBOOL) == Some(Ret::Int),
        ret_of(HVOID) == Some(Ret::Void),
{
}

/// A reply code says one thing, and only the code of success gives a value.
pub proof fn law_a_code_says_one_thing(code: u8, out: Value)
    ensures
        replied(code, out) == Ok::<Value, Fault>(out) <==> code == 0,
        replied(code, out) == Err::<Value, Fault>(Fault::Missing) <==> code == 2,
        replied(code, out) == Err::<Value, Fault>(Fault::Raised) <==> code == 3,
        replied(code, out) == Err::<Value, Fault>(Fault::Unsupported) <==> code == 1 || code > 3,
{
}

} // verus!
