//! Language-neutral eventual values backed by the shared scheduler.
//!
//! A future's settled value stays in its object; waiters are scheduler tokens,
//! so waiting parks one task without blocking its world.

use vstd::prelude::*;

use crate::bridge::plan::{describe, description};
use crate::cell::{unwrap, unwrapped};
use crate::error::{with_error, with_native_error, Error};
use crate::object::{
    core_object, error_of, next_address, object_at, referent, text_of, with_body, Body, BodyView,
    Object, ObjectSeq, Objects, Settlement,
};
use crate::protocol::{Callable, CoreFn, Fault, Reply};
use crate::registry::{ClassIface, Interface, MethodIface, TypeRef};
use crate::symbol::{
    id_of, interned, is_table, law_symbols_stay, name_of, Symbol, SymbolTable, CAPACITY,
};
use crate::text::same_text;
use crate::value::{ErrorKind, Value, LANG_CORE};

verus! {

/// A future: how it ended, and the tokens waiting for that.
pub ghost struct FutureView {
    pub settlement: Option<Settlement>,
    pub waiters: Seq<u64>,
}

/// The future at `p`.
pub open spec fn future_at(all: ObjectSeq, p: usize) -> Option<FutureView> {
    match object_at(all, p) {
        Some(o) => match o.body {
            BodyView::Future { settlement, waiters } => Some(FutureView { settlement, waiters }),
            _ => None,
        },
        None => None,
    }
}

/// A future, not settled.
pub fn new(objects: &mut Objects) -> (p: usize)
    requires
        old(objects).room(1),
    ensures
        p == next_address(old(objects)@),
        final(objects)@ == old(objects)@.push(
            core_object(
                "caribou.Future"@,
                BodyView::Future { settlement: None, waiters: Seq::empty() },
            ),
        ),
{
    let waiters: Vec<u64> = Vec::new();
    assert(waiters@ =~= Seq::<u64>::empty());
    objects.add_object(
        Object {
            lang: LANG_CORE,
            ty_name: "caribou.Future".to_owned(),
            body: Body::Future { settlement: None, waiters },
        },
    )
}

/// The address of the future `v` is, through a cell or not.
pub open spec fn future_value(all: ObjectSeq, v: Value) -> Option<usize> {
    match unwrapped(all, v).address() {
        Some(p) => if future_at(all, p) is Some {
            Some(p)
        } else {
            None
        },
        None => None,
    }
}

/// [`future_value`].
pub fn of(objects: &Objects, v: Value) -> (r: Option<usize>)
    ensures
        r == future_value(objects@, v),
{
    match unwrap(objects, v).object_of() {
        Some(p) => {
            if !objects.has(p) {
                return None;
            }
            match &objects.get(p).body {
                Body::Future { settlement, waiters } => Some(p),
                _ => None,
            }
        },
        None => None,
    }
}

/// How the future at `p` ended, if it has.
pub fn settlement(objects: &Objects, p: usize) -> (r: Option<Settlement>)
    ensures
        r == match future_at(objects@, p) {
            Some(f) => f.settlement,
            None => None,
        },
{
    if !objects.has(p) {
        return None;
    }
    match &objects.get(p).body {
        Body::Future { settlement, waiters } => *settlement,
        _ => None,
    }
}

/// Whether the future has settled.
pub fn ready(objects: &Objects, p: usize) -> (r: bool)
    ensures
        r == (future_at(objects@, p) matches Some(f) && f.settlement is Some),
{
    settlement(objects, p).is_some()
}

/// A rejection reason as the error it becomes, once, at settlement. A core
/// string becomes the message; a language's own object stays as its native
/// payload, unwrapped when it is awaited back in that language.
pub open spec fn rejection(all: ObjectSeq, v: Value) -> (ObjectSeq, Value) {
    if error_of(all, v) is Some {
        (all, v)
    } else {
        let e = Value::Object(next_address(all));
        match text_of(all, v) {
            Some(text) => (with_error(all, ErrorKind::User, text, LANG_CORE), e),
            None => match referent(all, v) {
                Some(o) => (with_native_error(all, v, o.lang), e),
                None => (with_error(all, ErrorKind::User, description(all, v), LANG_CORE), e),
            },
        }
    }
}

/// [`rejection`].
pub fn reject_with(objects: &mut Objects, v: Value) -> (e: Value)
    requires
        old(objects).room(2),
    ensures
        (final(objects)@, e) == rejection(old(objects)@, v),
{
    if objects.error(v).is_some() {
        return v;
    }
    let text: Option<String> = match objects.text(v) {
        Some(t) => Some(t.to_owned()),
        None => None,
    };
    match text {
        Some(t) => Error::new(objects, ErrorKind::User, t.as_str(), LANG_CORE),
        None => match objects.language_of(v) {
            Some(origin) => Error::with_native(objects, v, origin),
            None => {
                let what: String = describe(objects, v);
                Error::new(objects, ErrorKind::User, what.as_str(), LANG_CORE)
            },
        },
    }
}

/// The objects with the future at `p` settled, and nobody waiting.
pub open spec fn settled_as(all: ObjectSeq, p: usize, s: Settlement) -> ObjectSeq {
    with_body(all, p, BodyView::Future { settlement: Some(s), waiters: Seq::empty() })
}

/// What a settlement comes to: the objects, whether it was the first, and the
/// tokens to wake.
pub open spec fn after_settle(
    all: ObjectSeq,
    p: usize,
    v: Value,
    rejected: bool,
) -> (ObjectSeq, bool, Seq<u64>) {
    match future_at(all, p) {
        None => (all, false, Seq::empty()),
        Some(f) => {
            let (now, value) = if rejected {
                rejection(all, v)
            } else {
                (all, v)
            };
            if f.settlement is Some {
                (now, false, Seq::empty())
            } else {
                let s = if rejected {
                    Settlement::Rejected(value)
                } else {
                    Settlement::Resolved(value)
                };
                (settled_as(now, p, s), true, f.waiters)
            }
        },
    }
}

/// More objects, or another's change, leave a future where it is.
proof fn lemma_rejection_keeps(all: ObjectSeq, v: Value, p: usize)
    requires
        object_at(all, p) is Some,
        all.len() + 2 < usize::MAX,
    ensures
        object_at(rejection(all, v).0, p) == object_at(all, p),
{
}

/// Complete once: whether this was the first settlement, and the tokens of all
/// the tasks that observed the pending state, which are to be woken.
pub fn settle(objects: &mut Objects, p: usize, v: Value, rejected: bool) -> (r: (bool, Vec<u64>))
    requires
        old(objects).room(2),
    ensures
        (final(objects)@, r.0, r.1@) == after_settle(old(objects)@, p, v, rejected),
{
    let none: Vec<u64> = Vec::new();
    assert(none@ =~= Seq::<u64>::empty());
    if !is_future(objects, p) {
        return (false, none);
    }
    let ghost all = objects@;
    let value: Value = if rejected {
        reject_with(objects, v)
    } else {
        v
    };
    proof {
        if rejected {
            lemma_rejection_keeps(all, v, p);
        }
    }
    let waiters: Vec<u64> = match &objects.get(p).body {
        Body::Future { settlement, waiters } => {
            if settlement.is_some() {
                return (false, none);
            }
            waiters.clone()
        },
        _ => {
            return (false, none);
        },
    };
    assert(waiters@ =~= future_at(all, p)->0.waiters);
    let s: Settlement = if rejected {
        Settlement::Rejected(value)
    } else {
        Settlement::Resolved(value)
    };
    objects.set_body(p, Body::Future { settlement: Some(s), waiters: none });
    (true, waiters)
}

/// Whether the object at `p` is a future.
pub fn is_future(objects: &Objects, p: usize) -> (r: bool)
    ensures
        r == (future_at(objects@, p) is Some),
{
    if !objects.has(p) {
        return false;
    }
    match &objects.get(p).body {
        Body::Future { settlement, waiters } => true,
        _ => false,
    }
}

/// One look of a task that awaits a future: how it ended; or `None`, and the
/// task's token is now among those a settlement wakes, and it parks.
pub fn await_settlement(objects: &mut Objects, p: usize, token: u64) -> (r: Option<Settlement>)
    requires
        future_at(old(objects)@, p) is Some,
    ensures
        r == future_at(old(objects)@, p)->0.settlement,
        r is Some ==> final(objects)@ == old(objects)@,
        r is None ==> final(objects)@ == with_body(
            old(objects)@,
            p,
            BodyView::Future {
                settlement: None,
                waiters: future_at(old(objects)@, p)->0.waiters.push(token),
            },
        ),
{
    let mut waiting: Vec<u64> = match &objects.get(p).body {
        Body::Future { settlement, waiters } => {
            if settlement.is_some() {
                return *settlement;
            }
            waiters.clone()
        },
        _ => {
            return None;
        },
    };
    assert(waiting@ =~= future_at(objects@, p)->0.waiters);
    waiting.push(token);
    objects.set_body(p, Body::Future { settlement: None, waiters: waiting });
    None
}

/// What sending a future one of its messages comes to.
#[derive(Debug)]
pub enum Invoked {
    Reply(Reply),
    /// Await it: park until it settles.
    Await,
    /// It was settled, or was already; these tokens are to be woken.
    Settled(bool, Vec<u64>),
}

/// [`Invoked`], with its tokens as a sequence.
pub ghost enum InvokedView {
    Reply(Reply),
    Await,
    Settled(bool, Seq<u64>),
}

impl View for Invoked {
    type V = InvokedView;

    open spec fn view(&self) -> InvokedView {
        match self {
            Invoked::Reply(r) => InvokedView::Reply(*r),
            Invoked::Await => InvokedView::Await,
            Invoked::Settled(b, w) => InvokedView::Settled(*b, w@),
        }
    }
}

/// What a future answers to a message: `ready` and `await` take nothing,
/// `resolve` and `reject` one value.
pub open spec fn invoked(
    all: ObjectSeq,
    p: usize,
    name: Seq<char>,
    args: Seq<Value>,
) -> (ObjectSeq, InvokedView) {
    if name == "ready"@ && args.len() == 0 {
        (all, InvokedView::Reply(Ok(Value::Bool(future_at(all, p)->0.settlement is Some))))
    } else if name == "await"@ && args.len() == 0 {
        (all, InvokedView::Await)
    } else if name == "resolve"@ && args.len() == 1 {
        let (now, first, waiters) = after_settle(all, p, args[0], false);
        (now, InvokedView::Settled(first, waiters))
    } else if name == "reject"@ && args.len() == 1 {
        let (now, first, waiters) = after_settle(all, p, args[0], true);
        (now, InvokedView::Settled(first, waiters))
    } else {
        (all, InvokedView::Reply(Err(Fault::Missing)))
    }
}

pub fn invoke(
    objects: &mut Objects,
    table: &SymbolTable,
    p: usize,
    name: Symbol,
    args: &Vec<Value>,
) -> (r: Invoked)
    requires
        old(objects).room(2),
        future_at(old(objects)@, p) is Some,
        is_table(table@),
    ensures
        (final(objects)@, r@) == invoked(old(objects)@, p, name_of(table@, name), args@),
{
    let name: &str = table.name(name);
    proof {
        reveal_strlit("ready");
        reveal_strlit("await");
        reveal_strlit("resolve");
        reveal_strlit("reject");
        assert("ready"@[0] != "await"@[0]);
        assert("resolve"@.len() != "reject"@.len());
    }
    if same_text(name, "ready") && args.len() == 0 {
        return Invoked::Reply(Ok(Value::Bool(ready(objects, p))));
    }
    if same_text(name, "await") && args.len() == 0 {
        return Invoked::Await;
    }
    if same_text(name, "resolve") && args.len() == 1 {
        let (first, waiters): (bool, Vec<u64>) = settle(objects, p, args[0], false);
        return Invoked::Settled(first, waiters);
    }
    if same_text(name, "reject") && args.len() == 1 {
        let (first, waiters): (bool, Vec<u64>) = settle(objects, p, args[0], true);
        return Invoked::Settled(first, waiters);
    }
    Invoked::Reply(Err(Fault::Missing))
}

/// What an await that is over answers: the value, or the error that is then
/// pending.
pub fn awaited(s: Settlement) -> (r: Result<Value, Value>)
    ensures
        r == match s {
            Settlement::Resolved(v) => Ok::<Value, Value>(v),
            Settlement::Rejected(e) => Err(e),
        },
{
    match s {
        Settlement::Resolved(v) => Ok(v),
        Settlement::Rejected(e) => Err(e),
    }
}

/// A future settles once: a later settlement is refused and wakes nobody, and
/// the future keeps the value of the first.
pub proof fn law_settles_once(
    all: ObjectSeq,
    p: usize,
    v: Value,
    rejected: bool,
    again: Value,
    rejected_again: bool,
)
    requires
        all.len() + 4 < usize::MAX,
        future_at(all, p) is Some,
        future_at(all, p)->0.settlement is None,
    ensures
        ({
            let (one, first, woken) = after_settle(all, p, v, rejected);
            let (two, second, late) = after_settle(one, p, again, rejected_again);
            &&& first
            &&& woken == future_at(all, p)->0.waiters
            &&& !second
            &&& late.len() == 0
            &&& future_at(one, p)->0.settlement is Some
            &&& !rejected ==> future_at(one, p)->0.settlement == Some(Settlement::Resolved(v))
            &&& future_at(two, p) == future_at(one, p)
        }),
{
    let (one, first, woken) = after_settle(all, p, v, rejected);
    if rejected {
        lemma_rejection_keeps(all, v, p);
    }
    if rejected_again {
        lemma_rejection_keeps(one, again, p);
    }
}

/// No waiter is forgotten: a token that found the future pending is among those
/// the settlement wakes.
pub proof fn law_waiters_are_woken(all: ObjectSeq, p: usize, token: u64, v: Value, rejected: bool)
    requires
        all.len() + 2 < usize::MAX,
        future_at(all, p) is Some,
        future_at(all, p)->0.settlement is None,
    ensures
        ({
            let waiting = with_body(
                all,
                p,
                BodyView::Future {
                    settlement: None,
                    waiters: future_at(all, p)->0.waiters.push(token),
                },
            );
            after_settle(waiting, p, v, rejected).2.contains(token)
        }),
{
    let waiters = future_at(all, p)->0.waiters.push(token);
    assert(waiters[waiters.len() - 1] == token);
}

// The class other languages see.

fn method(table: &mut SymbolTable, name: &str, takes: usize, ret: TypeRef) -> (m: MethodIface)
    requires
        is_table(old(table)@),
        takes <= 1,
        old(table)@.contains(name@) || old(table)@.len() < CAPACITY,
    ensures
        is_table(final(table)@),
        final(table)@ == interned(old(table)@, name@),
        id_of(final(table)@, name@) is Some,
        m.name@ == name@,
        !m.is_static,
        m.params@ == Seq::new(takes as nat, |i: int| TypeRef::Dyn),
        m.ret == ret,
        m.target == (Callable::ProtocolMethod { name: id_of(final(table)@, name@)->0 }),
{
    let mut params: Vec<TypeRef> = Vec::new();
    if takes == 1 {
        params.push(TypeRef::Dyn);
    }
    assert(params@ =~= Seq::new(takes as nat, |i: int| TypeRef::Dyn));
    let target = Callable::ProtocolMethod { name: table.intern(name) };
    MethodIface { name: name.to_owned(), is_static: false, params, ret, target }
}

/// Whether `m` is the future's member of that name, in a table of these names.
pub open spec fn is_member(
    m: MethodIface,
    names: Seq<Seq<char>>,
    name: Seq<char>,
    takes: nat,
    ret: TypeRef,
) -> bool {
    &&& m.name@ == name
    &&& !m.is_static
    &&& m.params@ == Seq::new(takes, |i: int| TypeRef::Dyn)
    &&& m.ret == ret
    &&& id_of(names, name) matches Some(sym) && m.target == (Callable::ProtocolMethod { name: sym })
}

/// The names once those of the future's members are interned.
pub open spec fn member_names(names: Seq<Seq<char>>) -> Seq<Seq<char>> {
    interned(interned(interned(interned(names, "ready"@), "await"@), "resolve"@), "reject"@)
}

/// Interning another name keeps a name's symbol.
proof fn lemma_still_named(names: Seq<Seq<char>>, name: Seq<char>, other: Seq<char>)
    requires
        is_table(names),
        id_of(names, name) is Some,
    ensures
        id_of(interned(names, other), name) == id_of(names, name),
{
    law_symbols_stay(names, name, other, id_of(names, name)->0);
}

/// The interface of the shared class: what proxy-based frontends install.
pub fn interface(table: &mut SymbolTable) -> (iface: Interface)
    requires
        is_table(old(table)@),
        old(table)@.len() + 4 <= CAPACITY,
    ensures
        is_table(final(table)@),
        final(table)@ == member_names(old(table)@),
        iface.lang == LANG_CORE,
        iface.module@ == "Future"@,
        iface.classes@.len() == 1,
        ({
            let c = iface.classes@[0];
            &&& c.name@ == "Future"@
            &&& c.ty_name@ == "caribou.Future"@
            &&& c.superclass is None
            &&& c.fields@.len() == 0
            &&& c.statics@.len() == 0
            &&& c.class_object == Value::Null
            &&& c.methods@.len() == 4
            &&& is_member(c.methods@[0], final(table)@, "ready"@, 0, TypeRef::Bool)
            &&& is_member(c.methods@[1], final(table)@, "await"@, 0, TypeRef::Dyn)
            &&& is_member(c.methods@[2], final(table)@, "resolve"@, 1, TypeRef::Bool)
            &&& is_member(c.methods@[3], final(table)@, "reject"@, 1, TypeRef::Bool)
            &&& c.ctor matches Some(new) && new.name@ == "new"@ && new.is_static
                && new.params@.len() == 0 && (new.ret matches TypeRef::Object(t) && t@
                == "caribou.Future"@) && new.target == Callable::Core(CoreFn::NewFuture)
        }),
{
    let mut methods: Vec<MethodIface> = Vec::new();
    methods.push(method(table, "ready", 0, TypeRef::Bool));
    let ghost one = table@;
    methods.push(method(table, "await", 0, TypeRef::Dyn));
    let ghost two = table@;
    methods.push(method(table, "resolve", 1, TypeRef::Bool));
    let ghost three = table@;
    methods.push(method(table, "reject", 1, TypeRef::Bool));
    proof {
        lemma_still_named(one, "ready"@, "await"@);
        lemma_still_named(two, "ready"@, "resolve"@);
        lemma_still_named(three, "ready"@, "reject"@);
        lemma_still_named(two, "await"@, "resolve"@);
        lemma_still_named(three, "await"@, "reject"@);
        lemma_still_named(three, "resolve"@, "reject"@);
    }
    let ctor = MethodIface {
        name: "new".to_owned(),
        is_static: true,
        params: Vec::new(),
        ret: TypeRef::Object("caribou.Future".to_owned()),
        target: Callable::Core(CoreFn::NewFuture),
    };
    let class = ClassIface {
        name: "Future".to_owned(),
        ty_name: "caribou.Future".to_owned(),
        superclass: None,
        fields: Vec::new(),
        statics: Vec::new(),
        methods,
        ctor: Some(ctor),
        class_object: Value::Null,
    };
    let mut classes: Vec<ClassIface> = Vec::new();
    classes.push(class);
    Interface { lang: LANG_CORE, module: "Future".to_owned(), classes }
}

} // verus!
