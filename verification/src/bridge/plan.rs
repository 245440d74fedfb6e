//! What a crossing sends and to whom, and what its faults are called.

use vstd::prelude::*;

use crate::bridge::settle::{outcome_of, protected, Answer, Outcome};
use crate::object::{object_at, ObjectSeq, Objects};
use crate::protocol::{Callable, CoreFn, Fault};
use crate::symbol::{is_table, name_of, Symbol, SymbolTable};
use crate::text::{cat, decimal, decimal_text};
use crate::value::{ErrorKind, LangId, Value, LANG_CORE};

verus! {

/// A description of `v` for a message: its type's name when it has one.
pub open spec fn description(all: ObjectSeq, v: Value) -> Seq<char> {
    match v {
        Value::Null => "null"@,
        Value::Int(_) => "an int"@,
        Value::Number(_) => "a number"@,
        Value::Bool(_) => "a bool"@,
        Value::Undefined => "an undefined value"@,
        Value::Object(p) => if p == 0 {
            "an undefined value"@
        } else {
            match object_at(all, p) {
                Some(o) => if o.ty_name.len() == 0 {
                    "an object"@
                } else {
                    "a "@ + o.ty_name
                },
                None => "an object"@,
            }
        },
    }
}

/// [`description`].
pub fn describe(objects: &Objects, v: Value) -> (s: String)
    ensures
        s@ == description(objects@, v),
{
    match v {
        Value::Null => "null".to_owned(),
        Value::Int(_) => "an int".to_owned(),
        Value::Number(_) => "a number".to_owned(),
        Value::Bool(_) => "a bool".to_owned(),
        Value::Undefined => "an undefined value".to_owned(),
        Value::Object(p) => {
            if p == 0 {
                "an undefined value".to_owned()
            } else if !objects.has(p) || objects.get(p).ty_name.as_str().is_empty() {
                "an object".to_owned()
            } else {
                cat("a ", objects.get(p).ty_name.as_str())
            }
        },
    }
}

/// The language that defines the type of the object at `p`: the core's for an
/// object that names none.
pub open spec fn lang_at(all: ObjectSeq, p: usize) -> LangId {
    match object_at(all, p) {
        Some(o) => o.lang,
        None => LANG_CORE,
    }
}

/// [`lang_at`].
pub fn lang_of(objects: &Objects, p: usize) -> (r: LangId)
    ensures
        r == lang_at(objects@, p),
{
    if objects.has(p) {
        objects.get(p).lang
    } else {
        LANG_CORE
    }
}

fn cat3(a: &str, b: &str, c: &str) -> (s: String)
    ensures
        s@ == a@ + b@ + c@,
{
    let head = cat(a, b);
    cat(head.as_str(), c)
}

// Calls.

/// Why a dynamic callable did not produce a value.
pub open spec fn call_fault_of(all: ObjectSeq, v: Value, fault: Fault) -> (ErrorKind, Seq<char>) {
    match fault {
        Fault::Missing => (ErrorKind::Runtime, description(all, v) + " has nothing to call"@),
        _ => (ErrorKind::Type, description(all, v) + " is not callable"@),
    }
}

/// [`call_fault_of`].
pub fn call_fault(objects: &Objects, v: Value, fault: Fault) -> (r: (ErrorKind, String))
    ensures
        (r.0, r.1@) == call_fault_of(objects@, v, fault),
{
    let what = describe(objects, v);
    match fault {
        Fault::Missing => (ErrorKind::Runtime, cat(what.as_str(), " has nothing to call")),
        _ => (ErrorKind::Type, cat(what.as_str(), " is not callable")),
    }
}

/// Why a typed callable did not produce a value.
pub open spec fn typed_fault_of(lang: LangId, fault: Fault) -> (ErrorKind, Seq<char>) {
    match fault {
        Fault::Missing => (ErrorKind::Runtime, "typed callable not found"@),
        _ => (
            ErrorKind::Type,
            "signature not supported by the typed dispatcher for language "@ + decimal(
                lang as nat,
            ),
        ),
    }
}

/// [`typed_fault_of`].
pub fn typed_fault(lang: LangId, fault: Fault) -> (r: (ErrorKind, String))
    ensures
        (r.0, r.1@) == typed_fault_of(lang, fault),
{
    match fault {
        Fault::Missing => (ErrorKind::Runtime, "typed callable not found".to_owned()),
        _ => (
            ErrorKind::Type,
            cat(
                "signature not supported by the typed dispatcher for language ",
                decimal_text(lang as u64).as_str(),
            ),
        ),
    }
}

/// Why a member send did not produce a value.
pub open spec fn member_fault_of(
    all: ObjectSeq,
    obj: Value,
    name: Seq<char>,
    verb: Seq<char>,
    fault: Fault,
) -> (ErrorKind, Seq<char>) {
    match fault {
        Fault::Missing => (
            ErrorKind::Runtime,
            description(all, obj) + " has no member `"@ + name + "`"@,
        ),
        _ => (
            ErrorKind::Type,
            description(all, obj) + " does not answer "@ + verb + " for `"@ + name + "`"@,
        ),
    }
}

/// [`member_fault_of`].
pub fn member_fault(
    objects: &Objects,
    obj: Value,
    name: &str,
    verb: &str,
    fault: Fault,
) -> (r: (ErrorKind, String))
    ensures
        (r.0, r.1@) == member_fault_of(objects@, obj, name@, verb@, fault),
{
    let what = describe(objects, obj);
    match fault {
        Fault::Missing => {
            let head = cat(what.as_str(), " has no member `");
            (ErrorKind::Runtime, cat3(head.as_str(), name, "`"))
        },
        _ => {
            let head = cat3(what.as_str(), " does not answer ", verb);
            let with = cat(head.as_str(), " for `");
            (ErrorKind::Type, cat3(with.as_str(), name, "`"))
        },
    }
}

/// Why a sequence send did not produce a value.
pub open spec fn sequence_fault_of(
    all: ObjectSeq,
    v: Value,
    what: Seq<char>,
    fault: Fault,
) -> (ErrorKind, Seq<char>) {
    match fault {
        Fault::Missing => (ErrorKind::Index, description(all, v) + " has no element there"@),
        _ => (ErrorKind::Type, description(all, v) + " does not answer "@ + what),
    }
}

/// [`sequence_fault_of`].
pub fn sequence_fault(objects: &Objects, v: Value, what: &str, fault: Fault) -> (r: (
    ErrorKind,
    String,
))
    ensures
        (r.0, r.1@) == sequence_fault_of(objects@, v, what@, fault),
{
    let who = describe(objects, v);
    match fault {
        Fault::Missing => (ErrorKind::Index, cat(who.as_str(), " has no element there")),
        _ => (ErrorKind::Type, cat3(who.as_str(), " does not answer ", what)),
    }
}

/// The fault of an answer, for the message: a reply without one is told as
/// `Unsupported`, and nothing reads it.
fn fault_of(answer: &Answer) -> (f: Fault)
    ensures
        match *answer {
            Answer::Reply(Err(e)) => f == e,
            _ => f == Fault::Unsupported,
        },
{
    match answer {
        Answer::Reply(Err(e)) => *e,
        _ => Fault::Unsupported,
    }
}

/// The fault an answer is described by.
pub open spec fn answer_fault(answer: Answer) -> Fault {
    match answer {
        Answer::Reply(Err(e)) => e,
        _ => Fault::Unsupported,
    }
}

/// What a dynamic callable's answer comes to.
pub fn call_outcome(objects: &Objects, v: Value, answer: Answer) -> (r: Outcome)
    ensures
        r@ == outcome_of(answer, call_fault_of(objects@, v, answer_fault(answer))),
{
    let f: Fault = fault_of(&answer);
    protected(answer, call_fault(objects, v, f))
}

/// What a typed callable's answer comes to.
pub fn typed_outcome(lang: LangId, answer: Answer) -> (r: Outcome)
    ensures
        r@ == outcome_of(answer, typed_fault_of(lang, answer_fault(answer))),
{
    let f: Fault = fault_of(&answer);
    protected(answer, typed_fault(lang, f))
}

/// What a member send's answer comes to: `verb` is `invoke`, `read` or
/// `write`.
pub fn member_outcome(
    objects: &Objects,
    table: &SymbolTable,
    obj: Value,
    name: Symbol,
    verb: &str,
    answer: Answer,
) -> (r: Outcome)
    requires
        is_table(table@),
    ensures
        r@ == outcome_of(
            answer,
            member_fault_of(objects@, obj, name_of(table@, name), verb@, answer_fault(answer)),
        ),
{
    let f: Fault = fault_of(&answer);
    protected(answer, member_fault(objects, obj, table.name(name), verb, f))
}

/// What a sequence send's answer comes to: `what` is `len`, `index` or
/// `set_index`.
pub fn sequence_outcome(objects: &Objects, v: Value, what: &str, answer: Answer) -> (r: Outcome)
    ensures
        r@ == outcome_of(answer, sequence_fault_of(objects@, v, what@, answer_fault(answer))),
{
    let f: Fault = fault_of(&answer);
    protected(answer, sequence_fault(objects, v, what, f))
}

/// What a question that raises nothing is answered: an entry that raises, and
/// one that answers with a fault or panics, says nothing. Also whether a
/// pending error is to be dropped.
pub fn quiet(answer: Answer) -> (r: (Option<i32>, bool))
    ensures
        r.0 == match answer {
            Answer::Reply(Ok(Value::Int(n))) => Some(n),
            _ => None,
        },
        r.1 == match answer {
            Answer::Reply(Err(Fault::Raised)) => true,
            _ => false,
        },
{
    match answer {
        Answer::Reply(Ok(v)) => (v.as_int(), false),
        Answer::Reply(Err(f)) => match f {
            Fault::Raised => (None, true),
            _ => (None, false),
        },
        Answer::Panic(_) => (None, false),
    }
}

/// The length a sequence's answer gives.
pub fn length_of(r: Result<Value, Value>) -> (n: Result<usize, Value>)
    ensures
        n == match r {
            Ok(Value::Int(k)) => Ok::<usize, Value>(
                if k > 0 {
                    k as usize
                } else {
                    0
                },
            ),
            Ok(_) => Ok::<usize, Value>(0),
            Err(e) => Err::<usize, Value>(e),
        },
{
    match r {
        Ok(v) => match v.as_int() {
            Some(k) => if k > 0 {
                Ok(k as usize)
            } else {
                Ok(0)
            },
            None => Ok(0),
        },
        Err(e) => Err(e),
    }
}

// What a call does first.

/// The signature of typed code: the kinds it takes and the one it gives.
pub struct Signature {
    pub args: Vec<u32>,
    pub ret: u32,
}

/// What a call comes to before anything is sent.
pub enum CallPlan {
    /// Refused here; settle it in the core's segment.
    Refuse(ErrorKind, String),
    /// Send `call` to the object at `obj`, and settle in `segment`.
    Call { obj: usize, segment: LangId },
    /// Dispatch the code in `lang`; a site may hold a direct send for it.
    Typed { func: usize, signature: usize, lang: LangId },
    /// As `Typed`, with the code read from the cell.
    FromCell { cell: usize, signature: usize, lang: LangId },
    /// Invoke `name` on `receiver` with the arguments from `first` on.
    Invoke { receiver: Value, name: Symbol, first: usize },
    /// Run the core's own function.
    Core(CoreFn),
}

/// [`CallPlan`], with its text as a sequence.
pub enum CallPlanView {
    Refuse(ErrorKind, Seq<char>),
    Call { obj: usize, segment: LangId },
    Typed { func: usize, signature: usize, lang: LangId },
    FromCell { cell: usize, signature: usize, lang: LangId },
    Invoke { receiver: Value, name: Symbol, first: usize },
    Core(CoreFn),
}

impl View for CallPlan {
    type V = CallPlanView;

    open spec fn view(&self) -> CallPlanView {
        match self {
            CallPlan::Refuse(k, m) => CallPlanView::Refuse(*k, m@),
            CallPlan::Call { obj, segment } => CallPlanView::Call { obj: *obj, segment: *segment },
            CallPlan::Typed { func, signature, lang } => CallPlanView::Typed {
                func: *func,
                signature: *signature,
                lang: *lang,
            },
            CallPlan::FromCell { cell, signature, lang } => CallPlanView::FromCell {
                cell: *cell,
                signature: *signature,
                lang: *lang,
            },
            CallPlan::Invoke { receiver, name, first } => CallPlanView::Invoke {
                receiver: *receiver,
                name: *name,
                first: *first,
            },
            CallPlan::Core(f) => CallPlanView::Core(*f),
        }
    }
}

/// An instance member with no arguments has no receiver.
pub open spec fn no_receiver(name: Seq<char>) -> Seq<char> {
    "`"@ + name + "` takes a receiver"@
}

/// How `callable` is called with `args`.
pub open spec fn call_plan_of(
    all: ObjectSeq,
    names: Seq<Seq<char>>,
    callable: Callable,
    args: Seq<Value>,
) -> CallPlanView {
    match callable {
        Callable::Dynamic(v) => match v.address() {
            Some(obj) => CallPlanView::Call { obj, segment: lang_at(all, obj) },
            None => CallPlanView::Refuse(
                ErrorKind::Type,
                description(all, v) + " is not callable"@,
            ),
        },
        Callable::Typed { func, signature, lang } => CallPlanView::Typed { func, signature, lang },
        Callable::Cell { cell, signature, lang } => CallPlanView::FromCell {
            cell,
            signature,
            lang,
        },
        Callable::WrenMethod { class, signature, is_static } => if is_static {
            CallPlanView::Invoke { receiver: class, name: signature, first: 0 }
        } else if args.len() == 0 {
            CallPlanView::Refuse(ErrorKind::Type, no_receiver(name_of(names, signature)))
        } else {
            CallPlanView::Invoke { receiver: args[0], name: signature, first: 1 }
        },
        Callable::ProtocolMethod { name } => if args.len() == 0 {
            CallPlanView::Refuse(ErrorKind::Type, no_receiver(name_of(names, name)))
        } else {
            CallPlanView::Invoke { receiver: args[0], name, first: 1 }
        },
        Callable::Core(f) => CallPlanView::Core(f),
    }
}

/// [`call_plan_of`].
pub fn call_plan(
    objects: &Objects,
    table: &SymbolTable,
    callable: Callable,
    args: &Vec<Value>,
) -> (r: CallPlan)
    requires
        is_table(table@),
    ensures
        r@ == call_plan_of(objects@, table@, callable, args@),
{
    match callable {
        Callable::Dynamic(v) => match v.object_of() {
            Some(obj) => CallPlan::Call { obj, segment: lang_of(objects, obj) },
            None => {
                let what = describe(objects, v);
                CallPlan::Refuse(ErrorKind::Type, cat(what.as_str(), " is not callable"))
            },
        },
        Callable::Typed { func, signature, lang } => CallPlan::Typed { func, signature, lang },
        Callable::Cell { cell, signature, lang } => CallPlan::FromCell { cell, signature, lang },
        Callable::WrenMethod { class, signature, is_static } => {
            if is_static {
                CallPlan::Invoke { receiver: class, name: signature, first: 0 }
            } else if args.len() == 0 {
                CallPlan::Refuse(
                    ErrorKind::Type,
                    cat3("`", table.name(signature), "` takes a receiver"),
                )
            } else {
                CallPlan::Invoke { receiver: args[0], name: signature, first: 1 }
            }
        },
        Callable::ProtocolMethod { name } => {
            if args.len() == 0 {
                CallPlan::Refuse(
                    ErrorKind::Type,
                    cat3("`", table.name(name), "` takes a receiver"),
                )
            } else {
                CallPlan::Invoke { receiver: args[0], name, first: 1 }
            }
        },
        Callable::Core(f) => CallPlan::Core(f),
    }
}

/// Why a typed callable is not even dispatched.
pub open spec fn typed_refusal_of(
    arity: Option<nat>,
    given: nat,
    lang: LangId,
    dispatches: bool,
) -> Option<(ErrorKind, Seq<char>)> {
    match arity {
        None => Some((ErrorKind::Type, "typed callable has no function signature"@)),
        Some(n) => if n != given {
            Some(
                (
                    ErrorKind::Type,
                    "expected "@ + decimal(n) + " arguments, got "@ + decimal(given),
                ),
            )
        } else if !dispatches {
            Some(
                (
                    ErrorKind::Internal,
                    "no typed dispatcher is registered for language "@ + decimal(lang as nat),
                ),
            )
        } else {
            None
        },
    }
}

/// Whether a typed callable of this signature can be dispatched with `given`
/// arguments; why not, if it cannot.
pub fn typed_refusal(
    signature: Option<&Signature>,
    given: usize,
    lang: LangId,
    dispatches: bool,
) -> (r: Option<(ErrorKind, String)>)
    ensures
        match typed_refusal_of(
            match signature {
                Some(s) => Some(s.args@.len()),
                None => None,
            },
            given as nat,
            lang,
            dispatches,
        ) {
            Some((k, m)) => r matches Some((rk, rm)) && rk == k && rm@ == m,
            None => r is None,
        },
{
    match signature {
        None => Some((ErrorKind::Type, "typed callable has no function signature".to_owned())),
        Some(s) => {
            let arity: usize = s.args.len();
            if arity != given {
                let head = cat3("expected ", decimal_text(arity as u64).as_str(), " arguments, got ");
                Some((ErrorKind::Type, cat(head.as_str(), decimal_text(given as u64).as_str())))
            } else if !dispatches {
                Some(
                    (
                        ErrorKind::Internal,
                        cat(
                            "no typed dispatcher is registered for language ",
                            decimal_text(lang as u64).as_str(),
                        ),
                    ),
                )
            } else {
                None
            }
        },
    }
}

/// What a member send comes to before anything is sent: the object to send to,
/// or what is wrong with the receiver. `verb` is `invoke`, `read` or `write`.
pub open spec fn member_target_of(
    all: ObjectSeq,
    obj: Value,
    name: Seq<char>,
    verb: Seq<char>,
    of: Seq<char>,
) -> Result<usize, Seq<char>> {
    match obj.address() {
        Some(p) => Ok(p),
        None => Err("cannot "@ + verb + " `"@ + name + of + description(all, obj)),
    }
}

/// [`member_target_of`]: `of` is what stands between the member and the
/// receiver.
fn member_target(objects: &Objects, obj: Value, name: &str, verb: &str, of: &str) -> (r: Result<
    usize,
    String,
>)
    ensures
        match member_target_of(objects@, obj, name@, verb@, of@) {
            Ok(p) => r matches Ok(q) && q == p,
            Err(m) => r matches Err(s) && s@ == m,
        },
{
    match obj.object_of() {
        Some(p) => Ok(p),
        None => {
            let head = cat3("cannot ", verb, " `");
            let with = cat3(head.as_str(), name, of);
            Err(cat(with.as_str(), describe(objects, obj).as_str()))
        },
    }
}

/// The object an `invoke` goes to.
pub fn invoke_target(objects: &Objects, table: &SymbolTable, obj: Value, name: Symbol) -> (r:
    Result<usize, String>)
    requires
        is_table(table@),
    ensures
        match member_target_of(objects@, obj, name_of(table@, name), "invoke"@, "` on "@) {
            Ok(p) => r matches Ok(q) && q == p,
            Err(m) => r matches Err(s) && s@ == m,
        },
{
    member_target(objects, obj, table.name(name), "invoke", "` on ")
}

/// The object a `get` goes to.
pub fn get_target(objects: &Objects, table: &SymbolTable, obj: Value, name: Symbol) -> (r: Result<
    usize,
    String,
>)
    requires
        is_table(table@),
    ensures
        match member_target_of(objects@, obj, name_of(table@, name), "read"@, "` of "@) {
            Ok(p) => r matches Ok(q) && q == p,
            Err(m) => r matches Err(s) && s@ == m,
        },
{
    member_target(objects, obj, table.name(name), "read", "` of ")
}

/// The object a `set` goes to.
pub fn set_target(objects: &Objects, table: &SymbolTable, obj: Value, name: Symbol) -> (r: Result<
    usize,
    String,
>)
    requires
        is_table(table@),
    ensures
        match member_target_of(objects@, obj, name_of(table@, name), "write"@, "` of "@) {
            Ok(p) => r matches Ok(q) && q == p,
            Err(m) => r matches Err(s) && s@ == m,
        },
{
    member_target(objects, obj, table.name(name), "write", "` of ")
}

// Typed dispatchers, one per language.

/// A registered dispatcher, by the number its language knows it by.
#[derive(Clone, Copy)]
pub struct Dispatcher {
    pub lang: LangId,
    pub entry: usize,
}

/// The dispatchers by language. The core's own language has a default.
pub struct Dispatchers {
    pub table: Vec<Dispatcher>,
}

/// How typed callables of a language are dispatched.
#[derive(Clone, Copy, PartialEq, Eq, Structural)]
pub enum Dispatch {
    /// The entry that was registered.
    Registered(usize),
    /// The core's own.
    Core,
}

/// One dispatcher per language.
pub open spec fn dispatchers_ok(table: Seq<Dispatcher>) -> bool {
    forall|i: int, j: int|
        #![trigger table[i], table[j]]
        0 <= i < j < table.len() ==> table[i].lang != table[j].lang
}

/// Whether `entry` is registered for `lang`.
pub open spec fn dispatches(table: Seq<Dispatcher>, lang: LangId, entry: usize) -> bool {
    exists|i: int| 0 <= i < table.len() && (#[trigger] table[i]).lang == lang && table[i].entry
        == entry
}

impl Dispatchers {
    /// Register the dispatcher for typed callables of `lang`, replacing any
    /// earlier one.
    pub fn set_typed_dispatch(&mut self, lang: LangId, entry: usize)
        requires
            dispatchers_ok(old(self).table@),
        ensures
            dispatchers_ok(final(self).table@),
            forall|l: LangId, e: usize| #[trigger]
                dispatches(final(self).table@, l, e) <==> if l == lang {
                    e == entry
                } else {
                    dispatches(old(self).table@, l, e)
                },
    {
        let ghost was = self.table@;
        let mut i: usize = 0;
        while i < self.table.len()
            invariant
                i <= self.table.len(),
                self.table@ == was,
                was == old(self).table@,
                dispatchers_ok(was),
                forall|k: int| 0 <= k < i ==> (#[trigger] was[k]).lang != lang,
            decreases self.table.len() - i,
        {
            if self.table[i].lang == lang {
                self.table.set(i, Dispatcher { lang, entry });
                proof {
                    let now = self.table@;
                    assert(now[i as int] == Dispatcher { lang, entry });
                    assert forall|l: LangId, e: usize| #[trigger]
                        dispatches(now, l, e) <==> if l == lang {
                            e == entry
                        } else {
                            dispatches(was, l, e)
                        } by {
                        if dispatches(now, l, e) {
                            let k = choose|k: int|
                                0 <= k < now.len() && (#[trigger] now[k]).lang == l && now[k].entry
                                    == e;
                            if k != i {
                                assert(was[k] == now[k]);
                                assert(was[i as int].lang == lang);
                            }
                        }
                        if l != lang && dispatches(was, l, e) {
                            let k = choose|k: int|
                                0 <= k < was.len() && (#[trigger] was[k]).lang == l && was[k].entry
                                    == e;
                            assert(now[k] == was[k]);
                        }
                    }
                    assert forall|a: int, b: int|
                        #![trigger now[a], now[b]]
                        0 <= a < b < now.len() implies now[a].lang != now[b].lang by {
                        let _ = was[a];
                        let _ = was[b];
                    }
                }
                return ;
            }
            i = i + 1;
        }
        self.table.push(Dispatcher { lang, entry });
        proof {
            let now = self.table@;
            assert(now[was.len() as int] == Dispatcher { lang, entry });
            assert forall|l: LangId, e: usize| #[trigger]
                dispatches(now, l, e) <==> if l == lang {
                    e == entry
                } else {
                    dispatches(was, l, e)
                } by {
                if dispatches(now, l, e) {
                    let k = choose|k: int|
                        0 <= k < now.len() && (#[trigger] now[k]).lang == l && now[k].entry == e;
                    if k < was.len() {
                        assert(was[k] == now[k]);
                    }
                }
                if dispatches(was, l, e) {
                    let k = choose|k: int|
                        0 <= k < was.len() && (#[trigger] was[k]).lang == l && was[k].entry == e;
                    assert(now[k] == was[k]);
                }
            }
        }
    }

    /// The dispatcher for `lang`, if it has one.
    pub fn typed_dispatch(&self, lang: LangId) -> (r: Option<Dispatch>)
        requires
            dispatchers_ok(self.table@),
        ensures
            match r {
                Some(Dispatch::Registered(e)) => dispatches(self.table@, lang, e),
                Some(Dispatch::Core) => lang == LANG_CORE && forall|e: usize|
                    !#[trigger] dispatches(self.table@, lang, e),
                None => lang != LANG_CORE && forall|e: usize|
                    !#[trigger] dispatches(self.table@, lang, e),
            },
    {
        let mut i: usize = 0;
        while i < self.table.len()
            invariant
                i <= self.table.len(),
                forall|k: int| 0 <= k < i ==> (#[trigger] self.table@[k]).lang != lang,
            decreases self.table.len() - i,
        {
            if self.table[i].lang == lang {
                assert(self.table@[i as int].lang == lang);
                return Some(Dispatch::Registered(self.table[i].entry));
            }
            i = i + 1;
        }
        if lang == LANG_CORE {
            Some(Dispatch::Core)
        } else {
            None
        }
    }
}

} // verus!
