//! A function of any language as a core value: a small object that holds a
//! `Callable` and answers `call` and `arity`.

use vstd::prelude::*;

use crate::error::Str;
use crate::object::{
    core_object, next_address, object_at, str_object, Body, BodyView, Object, ObjectSeq, Objects,
};
use crate::protocol::{Callable, Fault};
use crate::symbol::{id_of, is_table, name_of, Symbol, SymbolTable, CAPACITY};
use crate::text::cat;
use crate::value::{Value, LANG_CORE};

verus! {

/// A function: what it calls, the name a trace shows for a call, and how many
/// arguments it takes, when the callable says.
#[derive(Clone, Copy, Debug, PartialEq, Eq, Structural)]
pub struct Function {
    pub callable: Callable,
    pub name: Symbol,
    pub arity: Option<usize>,
}

/// The function at `p`.
pub open spec fn function_at(all: ObjectSeq, p: usize) -> Option<Function> {
    match object_at(all, p) {
        Some(o) => match o.body {
            BodyView::Function { callable, name, arity } => Some(
                Function { callable, name, arity },
            ),
            _ => None,
        },
        None => None,
    }
}

/// A callable as a value. `arity` is the parameter count its publisher
/// declared, which a typed signature carries and a dynamic callable may not.
pub fn new(
    objects: &mut Objects,
    table: &mut SymbolTable,
    callable: Callable,
    name: &str,
    arity: Option<usize>,
) -> (v: Value)
    requires
        old(objects).room(1),
        is_table(old(table)@),
        old(table)@.contains(name@) || old(table)@.len() < CAPACITY,
    ensures
        is_table(final(table)@),
        final(table)@ == if old(table)@.contains(name@) {
            old(table)@
        } else {
            old(table)@.push(name@)
        },
        id_of(final(table)@, name@) is Some,
        v == Value::Object(next_address(old(objects)@)),
        final(objects)@ == old(objects)@.push(
            core_object(
                "caribou.Function"@,
                BodyView::Function { callable, name: id_of(final(table)@, name@)->0, arity },
            ),
        ),
{
    let name: Symbol = table.intern(name);
    Value::Object(
        objects.add_object(
            Object {
                lang: LANG_CORE,
                ty_name: "caribou.Function".to_owned(),
                body: Body::Function { callable, name, arity },
            },
        ),
    )
}

/// The function at `p`.
pub fn function_of(objects: &Objects, p: usize) -> (r: Option<Function>)
    ensures
        r == function_at(objects@, p),
{
    if !objects.has(p) {
        return None;
    }
    match &objects.get(p).body {
        Body::Function { callable, name, arity } => Some(
            Function { callable: *callable, name: *name, arity: *arity },
        ),
        _ => None,
    }
}

/// The callable behind `v`, when `v` is a function object.
pub fn callable_of(objects: &Objects, v: Value) -> (r: Option<Callable>)
    ensures
        r == match v.address() {
            Some(p) => match function_at(objects@, p) {
                Some(f) => Some(f.callable),
                None => None,
            },
            None => None,
        },
{
    match v.object_of() {
        Some(p) => match function_of(objects, p) {
            Some(f) => Some(f.callable),
            None => None,
        },
        None => None,
    }
}

impl Function {
    /// The value a callable holds: a dynamic callable's object, a Wren
    /// method's class.
    pub open spec fn held_value(self) -> Option<Value> {
        match self.callable {
            Callable::Dynamic(v) => Some(v),
            Callable::WrenMethod { class, signature: _, is_static: _ } => Some(class),
            _ => None,
        }
    }

    /// [`Self::held_value`].
    pub fn held(&self) -> (r: Option<Value>)
        ensures
            r == self.held_value(),
    {
        match self.callable {
            Callable::Dynamic(v) => Some(v),
            Callable::WrenMethod { class, .. } => Some(class),
            _ => None,
        }
    }

    /// How many arguments a call takes.
    pub fn arity(&self) -> (r: Result<usize, Fault>)
        ensures
            r == match self.arity {
                Some(n) => Ok::<usize, Fault>(n),
                None => Err(Fault::Unsupported),
            },
    {
        match self.arity {
            Some(n) => Ok(n),
            None => Err(Fault::Unsupported),
        }
    }

    /// The function as text.
    pub fn to_text(&self, objects: &mut Objects, table: &SymbolTable) -> (v: Value)
        requires
            old(objects).room(1),
            is_table(table@),
        ensures
            v == Value::Object(next_address(old(objects)@)),
            final(objects)@ == old(objects)@.push(
                str_object("<function "@ + name_of(table@, self.name) + ">"@),
            ),
    {
        let mut text: String = cat("<function ", table.name(self.name));
        text.append(">");
        Str::new(objects, text.as_str())
    }
}

/// A function is equal to itself alone.
pub fn equals(p: usize, other: Value) -> (r: bool)
    ensures
        r == (other == Value::Object(p)),
{
    match other {
        Value::Object(q) => p == q,
        _ => false,
    }
}

/// A function's hash is its address.
pub fn hash(p: usize) -> (h: u64)
    ensures
        h == p,
{
    p as u64
}

} // verus!
