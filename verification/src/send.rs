//! Sending a message to an object: one of the core's own answers here, one of
//! another language through its adapter, and a cell forwards every message to
//! the object it stands for.

use vstd::prelude::*;
use vstd::utf8::encode_utf8;

use crate::cell::{cell_body, cell_of, unwrap, unwrapped};
use crate::data::enums::{
    class_member, ctor_arity, ctor_call, enum_at, enum_data, enum_index, enum_member, field_at,
    is_enum, made, member_of_enum, plain_variant, EnumType, EnumTypes, Made,
};
use crate::data::{
    buffer_at, buffer_data, buffer_index, buffer_set, byte_at, is_buffer, store_of, stored,
};
use crate::error::{described, fnv, member_of, rendered, Error, Str, Trace};
use crate::function::{self, function_of, Function};
use crate::object::{
    error_of, next_address, object_at, str_object, text_of, Body, BodyView, ErrorBody, ObjectSeq,
    Objects,
};
use crate::protocol::{Callable, Fault, Reply};
use crate::symbol::{is_table, name_of, Symbol, SymbolTable};
use crate::value::{ErrorKind, Value};
use crate::world::Languages;

verus! {

/// Where a message goes.
#[derive(Debug, PartialEq, Eq)]
pub enum Sent<T> {
    /// The object answers here.
    Answer(Result<T, Fault>),
    /// The object at this address is another language's, and its adapter
    /// answers.
    Adapter(usize),
}

/// Dispatch: find who answers, and send.
pub struct Send;

/// The object a message to `p` reaches, through the cells in front of it; zero
/// for none.
pub open spec fn behind(all: ObjectSeq, p: usize) -> usize
    decreases p,
{
    match cell_of(all, Value::Object(p)) {
        Some(c) => match c.object.address() {
            Some(q) => if q < p {
                behind(all, q)
            } else {
                q
            },
            None => 0,
        },
        None => p,
    }
}

/// Whether the object at `p` is another language's.
pub open spec fn is_foreign(all: ObjectSeq, p: usize) -> bool {
    object_at(all, p) matches Some(o) && o.body is Foreign
}

/// What a message comes to when the core's answer would be `own`.
pub open spec fn sent<T>(all: ObjectSeq, p: usize, own: Result<T, Fault>) -> Sent<T> {
    let q = behind(all, p);
    if is_foreign(all, q) {
        Sent::Adapter(q)
    } else {
        Sent::Answer(own)
    }
}

pub open spec fn own_len(all: ObjectSeq, q: usize) -> Result<usize, Fault> {
    match object_at(all, q) {
        Some(o) => match o.body {
            BodyView::Str(s) => Ok(encode_utf8(s).len() as usize),
            BodyView::Trace(frames, _) => Ok(frames.len() as usize),
            BodyView::Buffer { storage: _, len } => Ok(len),
            BodyView::Enum { ty: _, index: _, fields } => Ok(fields.len() as usize),
            _ => Err(Fault::Unsupported),
        },
        None => Err(Fault::Unsupported),
    }
}

pub open spec fn own_hash(all: ObjectSeq, q: usize) -> Result<u64, Fault> {
    match object_at(all, q) {
        Some(o) => match o.body {
            BodyView::Str(s) => Ok(fnv(encode_utf8(s))),
            BodyView::Function { callable: _, name: _, arity: _ } => Ok(q as u64),
            _ => Err(Fault::Unsupported),
        },
        None => Err(Fault::Unsupported),
    }
}

pub open spec fn own_equals(all: ObjectSeq, q: usize, other: Value) -> Result<bool, Fault> {
    match object_at(all, q) {
        Some(o) => match o.body {
            BodyView::Str(s) => Ok(text_of(all, other) == Some(s)),
            BodyView::Function { callable: _, name: _, arity: _ } => Ok(other == Value::Object(q)),
            _ => Err(Fault::Unsupported),
        },
        None => Err(Fault::Unsupported),
    }
}

pub open spec fn own_arity(
    all: ObjectSeq,
    types: Seq<EnumType>,
    q: usize,
) -> Result<usize, Fault> {
    match object_at(all, q) {
        Some(o) => match o.body {
            BodyView::Function { callable: _, name: _, arity } => match arity {
                Some(n) => Ok(n),
                None => Err(Fault::Unsupported),
            },
            BodyView::EnumCtor { ty, index } => if ty < types.len() && index
                < types[ty as int].schema.variants@.len() {
                Ok(types[ty as int].schema.variants@[index as int].fields@.len() as usize)
            } else {
                Err(Fault::Unsupported)
            },
            _ => Err(Fault::Unsupported),
        },
        None => Err(Fault::Unsupported),
    }
}

/// The objects and the text a core object is described by.
pub open spec fn own_text(
    all: ObjectSeq,
    langs: Seq<Seq<char>>,
    names: Seq<Seq<char>>,
    q: usize,
) -> (ObjectSeq, Reply) {
    let made = Value::Object(next_address(all));
    match object_at(all, q) {
        Some(o) => match o.body {
            BodyView::Str(_) => (all, Ok(Value::Object(q))),
            BodyView::Trace(frames, _) => (
                all.push(str_object(rendered(all, langs, frames))),
                Ok(made),
            ),
            BodyView::Error(e) => (all.push(str_object(described(all, langs, e))), Ok(made)),
            BodyView::Function { callable: _, name, arity: _ } => (
                all.push(str_object("<function "@ + name_of(names, name) + ">"@)),
                Ok(made),
            ),
            _ => (all, Err(Fault::Unsupported)),
        },
        None => (all, Err(Fault::Unsupported)),
    }
}

pub open spec fn own_index(all: ObjectSeq, q: usize, key: Value) -> Reply {
    match object_at(all, q) {
        Some(o) => match o.body {
            BodyView::Buffer { storage: _, len: _ } => byte_at(all, q, key),
            BodyView::Enum { ty: _, index: _, fields } => field_at(fields, key),
            _ => Err(Fault::Unsupported),
        },
        None => Err(Fault::Unsupported),
    }
}

impl Send {
    /// The object a message to `p` reaches.
    fn target(objects: &Objects, p: usize) -> (q: usize)
        ensures
            q == behind(objects@, p),
        decreases p,
    {
        match cell_body(objects, Value::Object(p)) {
            Some(c) => match c.object.object_of() {
                Some(q) => if q < p {
                    Send::target(objects, q)
                } else {
                    q
                },
                None => 0,
            },
            None => p,
        }
    }

    /// Where a message to `p` goes: the core object, or the adapter.
    pub fn reach(objects: &Objects, p: usize) -> (r: Result<usize, usize>)
        ensures
            r == if is_foreign(objects@, behind(objects@, p)) {
                Err::<usize, usize>(behind(objects@, p))
            } else {
                Ok(behind(objects@, p))
            },
    {
        let q: usize = Send::target(objects, p);
        if objects.has(q) {
            match &objects.get(q).body {
                Body::Foreign => {
                    return Err(q);
                },
                _ => {},
            }
        }
        Ok(q)
    }

    pub fn len(objects: &Objects, p: usize) -> (r: Sent<usize>)
        ensures
            r == sent(objects@, p, own_len(objects@, behind(objects@, p))),
    {
        match Send::reach(objects, p) {
            Err(q) => Sent::Adapter(q),
            Ok(q) => {
                if !objects.has(q) {
                    return Sent::Answer(Err(Fault::Unsupported));
                }
                match &objects.get(q).body {
                    Body::Str(s) => Sent::Answer(Ok(s.as_str().as_bytes().len())),
                    Body::Trace(frames, _) => Sent::Answer(Ok(frames.len())),
                    Body::Buffer { storage: _, len } => Sent::Answer(Ok(*len)),
                    Body::Enum { ty: _, index: _, fields } => Sent::Answer(Ok(fields.len())),
                    _ => Sent::Answer(Err(Fault::Unsupported)),
                }
            },
        }
    }

    pub fn hash(objects: &Objects, p: usize) -> (r: Sent<u64>)
        ensures
            r == sent(objects@, p, own_hash(objects@, behind(objects@, p))),
    {
        match Send::reach(objects, p) {
            Err(q) => Sent::Adapter(q),
            Ok(q) => {
                if let Some(h) = Str::hash(objects, Value::Object(q)) {
                    return Sent::Answer(Ok(h));
                }
                match function_of(objects, q) {
                    Some(_) => Sent::Answer(Ok(function::hash(q))),
                    None => Sent::Answer(Err(Fault::Unsupported)),
                }
            },
        }
    }

    /// The object's own equality; a cell's is its object's, against the object
    /// behind `other` when that is a cell too.
    pub fn equals(objects: &Objects, p: usize, other: Value) -> (r: Sent<bool>)
        ensures
            r == sent(
                objects@,
                p,
                own_equals(
                    objects@,
                    behind(objects@, p),
                    if cell_of(objects@, Value::Object(p)) is Some {
                        unwrapped(objects@, other)
                    } else {
                        other
                    },
                ),
            ),
    {
        let other: Value = if cell_body(objects, Value::Object(p)).is_some() {
            unwrap(objects, other)
        } else {
            other
        };
        match Send::reach(objects, p) {
            Err(q) => Sent::Adapter(q),
            Ok(q) => {
                if objects.text(Value::Object(q)).is_some() {
                    return Sent::Answer(Ok(Str::equals(objects, Value::Object(q), other)));
                }
                match function_of(objects, q) {
                    Some(_) => Sent::Answer(Ok(function::equals(q, other))),
                    None => Sent::Answer(Err(Fault::Unsupported)),
                }
            },
        }
    }

    pub fn arity(objects: &Objects, types: &EnumTypes, p: usize) -> (r: Sent<usize>)
        ensures
            r == sent(objects@, p, own_arity(objects@, types.types@, behind(objects@, p))),
    {
        match Send::reach(objects, p) {
            Err(q) => Sent::Adapter(q),
            Ok(q) => {
                if !objects.has(q) {
                    return Sent::Answer(Err(Fault::Unsupported));
                }
                match &objects.get(q).body {
                    Body::Function { callable, name, arity } => Sent::Answer(
                        (Function { callable: *callable, name: *name, arity: *arity }).arity(),
                    ),
                    Body::EnumCtor { ty, index } => if *ty < types.types.len() && (*index as usize)
                        < types.types[*ty].schema.variants.len() {
                        Sent::Answer(Ok(ctor_arity(types, *ty, *index)))
                    } else {
                        Sent::Answer(Err(Fault::Unsupported))
                    },
                    _ => Sent::Answer(Err(Fault::Unsupported)),
                }
            },
        }
    }

    /// The object as text: a string is itself, the others make one.
    pub fn to_text(
        objects: &mut Objects,
        langs: &Languages,
        table: &SymbolTable,
        p: usize,
    ) -> (r: Sent<Value>)
        requires
            old(objects).room(1),
            is_table(table@),
        ensures
            ({
                let own = own_text(old(objects)@, langs@, table@, behind(old(objects)@, p));
                &&& r == sent(old(objects)@, p, own.1)
                &&& final(objects)@ == if r is Answer {
                    own.0
                } else {
                    old(objects)@
                }
            }),
    {
        match Send::reach(objects, p) {
            Err(q) => Sent::Adapter(q),
            Ok(q) => {
                let v = Value::Object(q);
                if objects.text(v).is_some() {
                    return Sent::Answer(Ok(v));
                }
                if objects.trace(v).is_some() {
                    let text: String = Trace::render(objects, langs, v);
                    return Sent::Answer(Ok(Str::new(objects, text.as_str())));
                }
                if let Some(e) = objects.error(v) {
                    let text: String = Error::describe(objects, langs, &e);
                    return Sent::Answer(Ok(Str::new(objects, text.as_str())));
                }
                if let Some(f) = function_of(objects, q) {
                    return Sent::Answer(Ok(f.to_text(objects, table)));
                }
                Sent::Answer(Err(Fault::Unsupported))
            },
        }
    }

    /// The error an object is, if it is one of the core's.
    pub open spec fn own_error(all: ObjectSeq, p: usize) -> Option<ErrorBody> {
        error_of(all, Value::Object(behind(all, p)))
    }

    pub fn is_error(objects: &Objects, p: usize) -> (r: bool)
        ensures
            r == (Send::own_error(objects@, p) is Some),
    {
        objects.error(Value::Object(Send::target(objects, p))).is_some()
    }

    /// The kind of an error; a cell answers `Runtime` for an object that is
    /// none.
    pub fn error_kind(objects: &Objects, p: usize) -> (r: Option<ErrorKind>)
        ensures
            r == match Send::own_error(objects@, p) {
                Some(e) => Some(e.kind),
                None => if cell_of(objects@, Value::Object(p)) is Some {
                    Some(ErrorKind::Runtime)
                } else {
                    None
                },
            },
    {
        match objects.error(Value::Object(Send::target(objects, p))) {
            Some(e) => Some(e.kind),
            None => if cell_body(objects, Value::Object(p)).is_some() {
                Some(ErrorKind::Runtime)
            } else {
                None
            },
        }
    }

    fn of_error(objects: &Objects, p: usize) -> (r: Sent<ErrorBody>)
        ensures
            r == sent(
                objects@,
                p,
                match Send::own_error(objects@, p) {
                    Some(e) => Ok::<ErrorBody, Fault>(e),
                    None => Err(Fault::Unsupported),
                },
            ),
    {
        match Send::reach(objects, p) {
            Err(q) => Sent::Adapter(q),
            Ok(q) => match objects.error(Value::Object(q)) {
                Some(e) => Sent::Answer(Ok(e)),
                None => Sent::Answer(Err(Fault::Unsupported)),
            },
        }
    }

    /// What one field of an error is answered.
    pub open spec fn own_field(
        all: ObjectSeq,
        p: usize,
        field: spec_fn(ErrorBody) -> Value,
    ) -> Reply {
        match Send::own_error(all, p) {
            Some(e) => Ok(field(e)),
            None => Err(Fault::Unsupported),
        }
    }

    pub fn error_message(objects: &Objects, p: usize) -> (r: Sent<Value>)
        ensures
            r == sent(objects@, p, Send::own_field(objects@, p, |e: ErrorBody| e.message)),
    {
        match Send::of_error(objects, p) {
            Sent::Adapter(q) => Sent::Adapter(q),
            Sent::Answer(Ok(e)) => Sent::Answer(Ok(e.message)),
            Sent::Answer(Err(f)) => Sent::Answer(Err(f)),
        }
    }

    pub fn error_cause(objects: &Objects, p: usize) -> (r: Sent<Value>)
        ensures
            r == sent(objects@, p, Send::own_field(objects@, p, |e: ErrorBody| e.cause)),
    {
        match Send::of_error(objects, p) {
            Sent::Adapter(q) => Sent::Adapter(q),
            Sent::Answer(Ok(e)) => Sent::Answer(Ok(e.cause)),
            Sent::Answer(Err(f)) => Sent::Answer(Err(f)),
        }
    }

    pub fn error_trace(objects: &Objects, p: usize) -> (r: Sent<Value>)
        ensures
            r == sent(objects@, p, Send::own_field(objects@, p, |e: ErrorBody| e.trace)),
    {
        match Send::of_error(objects, p) {
            Sent::Adapter(q) => Sent::Adapter(q),
            Sent::Answer(Ok(e)) => Sent::Answer(Ok(e.trace)),
            Sent::Answer(Err(f)) => Sent::Answer(Err(f)),
        }
    }

    /// The object a cell stands for; no other object of the core answers this.
    pub fn unwrap_native(objects: &Objects, p: usize) -> (r: Sent<usize>)
        ensures
            r == match cell_of(objects@, Value::Object(p)) {
                Some(c) => Sent::Answer(
                    Ok::<usize, Fault>(
                        match c.object.address() {
                            Some(q) => q,
                            None => 0,
                        },
                    ),
                ),
                None => if is_foreign(objects@, p) {
                    Sent::Adapter(p)
                } else {
                    Sent::Answer(Err(Fault::Unsupported))
                },
            },
    {
        match cell_body(objects, Value::Object(p)) {
            Some(c) => match c.object.object_of() {
                Some(q) => Sent::Answer(Ok(q)),
                None => Sent::Answer(Ok(0)),
            },
            None => match Send::reach(objects, p) {
                Err(q) => Sent::Adapter(q),
                Ok(_) => Sent::Answer(Err(Fault::Unsupported)),
            },
        }
    }

    /// The element of an object at a key.
    pub fn index(objects: &Objects, p: usize, key: Value) -> (r: Sent<Value>)
        requires
            buffer_at(objects@, behind(objects@, p)) is Some ==> is_buffer(
                objects@,
                behind(objects@, p),
            ),
        ensures
            r == sent(objects@, p, own_index(objects@, behind(objects@, p), key)),
    {
        match Send::reach(objects, p) {
            Err(q) => Sent::Adapter(q),
            Ok(q) => {
                if !objects.has(q) {
                    return Sent::Answer(Err(Fault::Unsupported));
                }
                match &objects.get(q).body {
                    Body::Buffer { storage: _, len: _ } => Sent::Answer(
                        buffer_index(objects, q, key),
                    ),
                    Body::Enum { ty: _, index: _, fields: _ } => Sent::Answer(
                        enum_index(objects, q, key),
                    ),
                    _ => Sent::Answer(Err(Fault::Unsupported)),
                }
            },
        }
    }

    /// Set the element of an object at a key: a buffer's byte.
    pub fn set_index(objects: &mut Objects, p: usize, key: Value, v: Value) -> (r: Sent<()>)
        requires
            buffer_at(old(objects)@, behind(old(objects)@, p)) is Some ==> is_buffer(
                old(objects)@,
                behind(old(objects)@, p),
            ),
        ensures
            ({
                let all = old(objects)@;
                let q = behind(all, p);
                &&& r == sent(
                    all,
                    p,
                    if buffer_at(all, q) is Some {
                        if store_of(all, q, key, v) is Some {
                            Ok::<(), Fault>(())
                        } else {
                            Err(Fault::Missing)
                        }
                    } else {
                        Err(Fault::Unsupported)
                    },
                )
                &&& final(objects)@ == if r matches Sent::Answer(Ok(_)) {
                    match store_of(all, q, key, v) {
                        Some((i, n)) => stored(all, q, i, n),
                        None => all,
                    }
                } else {
                    all
                }
            }),
    {
        match Send::reach(objects, p) {
            Err(q) => Sent::Adapter(q),
            Ok(q) => match buffer_data(objects, q) {
                Some(_) => match buffer_set(objects, q, key, v) {
                    Ok(()) => Sent::Answer(Ok(())),
                    Err(f) => Sent::Answer(Err(f)),
                },
                None => Sent::Answer(Err(Fault::Unsupported)),
            },
        }
    }

    /// Call an object: an enum's constructor makes a value, and a function is
    /// the bridge's to call for the core.
    pub fn call(objects: &mut Objects, types: &EnumTypes, p: usize, args: &Vec<Value>) -> (r: Sent<
        Called,
    >)
        requires
            old(objects).room(2),
        ensures
            ({
                let own = own_call(
                    old(objects)@,
                    types.types@,
                    behind(old(objects)@, p),
                    args@,
                );
                &&& r == sent(old(objects)@, p, own.1)
                &&& final(objects)@ == if r is Answer {
                    own.0
                } else {
                    old(objects)@
                }
            }),
    {
        match Send::reach(objects, p) {
            Err(q) => Sent::Adapter(q),
            Ok(q) => {
                if let Some(f) = function_of(objects, q) {
                    return Sent::Answer(Ok(Called::Through(f.callable, f.name)));
                }
                if !objects.has(q) {
                    return Sent::Answer(Err(Fault::Unsupported));
                }
                let (ty, index): (usize, u32) = match &objects.get(q).body {
                    Body::EnumCtor { ty, index } => (*ty, *index),
                    _ => {
                        return Sent::Answer(Err(Fault::Unsupported));
                    },
                };
                if ty >= types.types.len() {
                    return Sent::Answer(Err(Fault::Unsupported));
                }
                Sent::Answer(Ok(Called::Made(ctor_call(objects, types, ty, index, args))))
            },
        }
    }

    /// A member of an object. An enum's class makes a value of the variant of
    /// that name, and may raise.
    pub fn get_member(
        objects: &mut Objects,
        types: &EnumTypes,
        table: &SymbolTable,
        p: usize,
        name: Symbol,
    ) -> (r: Sent<Made>)
        requires
            old(objects).room(2),
            is_table(table@),
            enum_at(old(objects)@, behind(old(objects)@, p)) is Some ==> is_enum(
                old(objects)@,
                types.types@,
                behind(old(objects)@, p),
            ),
        ensures
            ({
                let own = own_member(
                    old(objects)@,
                    types.types@,
                    behind(old(objects)@, p),
                    name_of(table@, name),
                );
                &&& r == sent(old(objects)@, p, own.1)
                &&& final(objects)@ == if r is Answer {
                    own.0
                } else {
                    old(objects)@
                }
            }),
    {
        match Send::reach(objects, p) {
            Err(q) => Sent::Adapter(q),
            Ok(q) => {
                if let Some(e) = objects.error(Value::Object(q)) {
                    return Sent::Answer(given(Error::get_member(&e, table, name)));
                }
                if enum_data(objects, q).is_some() {
                    return Sent::Answer(given(enum_member(objects, types, table, q, name)));
                }
                let ty: usize = match class_of(objects, q) {
                    Some(ty) => ty,
                    None => {
                        return Sent::Answer(Err(Fault::Unsupported));
                    },
                };
                if ty >= types.types.len() || types.types[ty].schema.variants.len()
                    > u32::MAX as usize {
                    return Sent::Answer(Err(Fault::Unsupported));
                }
                match class_member(objects, types, table, ty, name) {
                    Made::Missing => Sent::Answer(Err(Fault::Missing)),
                    m => Sent::Answer(Ok(m)),
                }
            },
        }
    }
}

/// What a call of a core object comes to.
#[derive(Clone, Copy, Debug, PartialEq, Eq, Structural)]
pub enum Called {
    Made(Made),
    /// Call this for the core, under this name.
    Through(Callable, Symbol),
}

/// The objects and what a call of a core object comes to.
pub open spec fn own_call(
    all: ObjectSeq,
    types: Seq<EnumType>,
    q: usize,
    args: Seq<Value>,
) -> (ObjectSeq, Result<Called, Fault>) {
    match object_at(all, q) {
        Some(o) => match o.body {
            BodyView::Function { callable, name, arity: _ } => (
                all,
                Ok(Called::Through(callable, name)),
            ),
            BodyView::EnumCtor { ty, index } => if ty < types.len() {
                let m = made(all, types, ty, index, args);
                (m.0, Ok(Called::Made(m.1)))
            } else {
                (all, Err(Fault::Unsupported))
            },
            _ => (all, Err(Fault::Unsupported)),
        },
        None => (all, Err(Fault::Unsupported)),
    }
}

/// The type an enum's class at `q` is of.
pub open spec fn class_at(all: ObjectSeq, q: usize) -> Option<usize> {
    match object_at(all, q) {
        Some(o) => match o.body {
            BodyView::EnumClass { ty } => Some(ty),
            _ => None,
        },
        None => None,
    }
}

fn class_of(objects: &Objects, q: usize) -> (r: Option<usize>)
    ensures
        r == class_at(objects@, q),
{
    if !objects.has(q) {
        return None;
    }
    match &objects.get(q).body {
        Body::EnumClass { ty } => Some(*ty),
        _ => None,
    }
}

/// A reply as something made.
pub open spec fn given_of(r: Reply) -> Result<Made, Fault> {
    match r {
        Ok(v) => Ok(Made::Value(v)),
        Err(f) => Err(f),
    }
}

fn given(r: Reply) -> (m: Result<Made, Fault>)
    ensures
        m == given_of(r),
{
    match r {
        Ok(v) => Ok(Made::Value(v)),
        Err(f) => Err(f),
    }
}

/// The objects and what a core object answers of a member.
pub open spec fn own_member(
    all: ObjectSeq,
    types: Seq<EnumType>,
    q: usize,
    name: Seq<char>,
) -> (ObjectSeq, Result<Made, Fault>) {
    match error_of(all, Value::Object(q)) {
        Some(e) => (all, given_of(member_of(e, name))),
        None => if enum_at(all, q) is Some {
            let m = member_of_enum(all, types, q, name);
            (m.0, given_of(m.1))
        } else {
            match class_at(all, q) {
                Some(ty) => if ty >= types.len() || types[ty as int].schema.variants@.len()
                    > u32::MAX {
                    (all, Err(Fault::Unsupported))
                } else {
                    match plain_variant(types[ty as int].schema.variants@, name) {
                        Some(i) => {
                            let m = made(all, types, ty, i as u32, Seq::empty());
                            (m.0, Ok(m.1))
                        },
                        None => (all, Err(Fault::Missing)),
                    }
                },
                None => (all, Err(Fault::Unsupported)),
            }
        },
    }
}

/// A message to a cell reaches the object it stands for, and is answered as
/// that object answers it.
pub proof fn law_cells_are_transparent(all: ObjectSeq, p: usize, q: usize)
    requires
        cell_of(all, Value::Object(p)) matches Some(c) && c.object == Value::Object(q),
        0 < q < p,
    ensures
        behind(all, p) == behind(all, q),
        sent(all, p, own_len(all, behind(all, p))) == sent(all, q, own_len(all, behind(all, q))),
        sent(all, p, own_hash(all, behind(all, p))) == sent(all, q, own_hash(all, behind(all, q))),
        Send::own_error(all, p) == Send::own_error(all, q),
{
}

} // verus!
