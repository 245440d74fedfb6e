//! The core's own objects, all of the core's language: a string, the segments
//! an error crossed, the value every error becomes at a language boundary,
//! shared bytes, enum values, functions, futures and cells. An object is known
//! by its address, one more than its place in the table.

use vstd::prelude::*;

use crate::protocol::Callable;
use crate::symbol::Symbol;
use crate::value::{ErrorKind, LangId, Value, LANG_CORE};

verus! {

/// One segment of an error's path: the language it crossed, the callable it
/// was in, and where in that callable's source. `name` and `source` are core
/// strings or null; `start..end` is a byte span into the source, valid only
/// when `spanned`.
#[derive(Clone, Copy, Debug, PartialEq, Eq, Structural)]
pub struct TraceFrame {
    pub lang: LangId,
    pub spanned: bool,
    pub name: Value,
    pub source: Value,
    pub start: usize,
    pub end: usize,
}

impl TraceFrame {
    /// Where in the source, when that is known.
    pub open spec fn place(self) -> Option<(usize, usize)> {
        if self.spanned {
            Some((self.start, self.end))
        } else {
            None
        }
    }

    pub fn span(&self) -> (r: Option<(usize, usize)>)
        ensures
            r == self.place(),
    {
        if self.spanned {
            Some((self.start, self.end))
        } else {
            None
        }
    }
}

/// The value an error is at a boundary. `native` is the originating language's
/// own error object, kept so a round trip unwraps to it; `trace` gains one
/// frame per boundary crossed. `message` is a core string or null, `cause`
/// another error or null, `trace` null before the first frame.
#[derive(Clone, Copy, Debug, PartialEq, Eq, Structural)]
pub struct ErrorBody {
    pub kind: ErrorKind,
    pub origin: LangId,
    pub message: Value,
    pub cause: Value,
    pub native: Value,
    pub trace: Value,
}

/// How a future ended.
#[derive(Clone, Copy, Debug, PartialEq, Eq, Structural)]
pub enum Settlement {
    Resolved(Value),
    Rejected(Value),
}

/// The descriptor a cell is read under: the holder's language, and which of
/// its views.
#[derive(Clone, Copy, Debug, PartialEq, Eq, Structural)]
pub struct CellView {
    pub lang: LangId,
    pub view: u32,
}

/// What a cell keeps: the object it stands for, the holder's own object in
/// front of it or zero, and whether the map names it.
#[derive(Clone, Copy, Debug, PartialEq, Eq, Structural)]
pub struct CellBody {
    pub view: CellView,
    pub object: Value,
    pub front: usize,
    pub mapped: bool,
}

/// What an object is.
pub enum Body {
    Str(String),
    /// Frames, oldest first, and how many fit before a larger trace is made.
    Trace(Vec<TraceFrame>, usize),
    Error(ErrorBody),
    /// Bytes that buffers share.
    Bytes(Vec<u8>),
    /// The first `len` bytes of the storage at an address.
    Buffer { storage: usize, len: usize },
    /// A value of the enum type numbered `ty`.
    Enum { ty: usize, index: u32, fields: Vec<Value> },
    EnumClass { ty: usize },
    EnumCtor { ty: usize, index: u32 },
    Function { callable: Callable, name: Symbol, arity: Option<usize> },
    /// How it ended, and the tokens of the tasks waiting for that.
    Future { settlement: Option<Settlement>, waiters: Vec<u64> },
    Cell(CellBody),
    /// An object of another language.
    Foreign,
}

/// [`Body`], with its contents as sequences.
#[verifier::ext_equal]
pub enum BodyView {
    Str(Seq<char>),
    Trace(Seq<TraceFrame>, nat),
    Error(ErrorBody),
    Bytes(Seq<u8>),
    Buffer { storage: usize, len: usize },
    Enum { ty: usize, index: u32, fields: Seq<Value> },
    EnumClass { ty: usize },
    EnumCtor { ty: usize, index: u32 },
    Function { callable: Callable, name: Symbol, arity: Option<usize> },
    Future { settlement: Option<Settlement>, waiters: Seq<u64> },
    Cell(CellBody),
    Foreign,
}

impl View for Body {
    type V = BodyView;

    open spec fn view(&self) -> BodyView {
        match self {
            Body::Str(s) => BodyView::Str(s@),
            Body::Trace(frames, cap) => BodyView::Trace(frames@, *cap as nat),
            Body::Error(e) => BodyView::Error(*e),
            Body::Bytes(b) => BodyView::Bytes(b@),
            Body::Buffer { storage, len } => BodyView::Buffer { storage: *storage, len: *len },
            Body::Enum { ty, index, fields } => BodyView::Enum {
                ty: *ty,
                index: *index,
                fields: fields@,
            },
            Body::EnumClass { ty } => BodyView::EnumClass { ty: *ty },
            Body::EnumCtor { ty, index } => BodyView::EnumCtor { ty: *ty, index: *index },
            Body::Function { callable, name, arity } => BodyView::Function {
                callable: *callable,
                name: *name,
                arity: *arity,
            },
            Body::Future { settlement, waiters } => BodyView::Future {
                settlement: *settlement,
                waiters: waiters@,
            },
            Body::Cell(c) => BodyView::Cell(*c),
            Body::Foreign => BodyView::Foreign,
        }
    }
}

/// An object: the language that defines its type, the type's name, and what it
/// is.
pub struct Object {
    pub lang: LangId,
    pub ty_name: String,
    pub body: Body,
}

/// [`Object`], with its contents as sequences.
#[verifier::ext_equal]
pub struct ObjectView {
    pub lang: LangId,
    pub ty_name: Seq<char>,
    pub body: BodyView,
}

impl View for Object {
    type V = ObjectView;

    open spec fn view(&self) -> ObjectView {
        ObjectView { lang: self.lang, ty_name: self.ty_name@, body: self.body@ }
    }
}

/// A heap of objects, in the order of their addresses.
pub type ObjectSeq = Seq<ObjectView>;

/// The object at `p`.
pub open spec fn object_at(all: ObjectSeq, p: usize) -> Option<ObjectView> {
    if 0 < p <= all.len() {
        Some(all[p - 1])
    } else {
        None
    }
}

/// What `v` refers to: nothing for a scalar, the null object, or an address no
/// object has.
pub open spec fn referent(all: ObjectSeq, v: Value) -> Option<ObjectView> {
    match v.address() {
        Some(p) => object_at(all, p),
        None => None,
    }
}

/// The text of `v` if it is a core string.
pub open spec fn text_of(all: ObjectSeq, v: Value) -> Option<Seq<char>> {
    match referent(all, v) {
        Some(o) => match o.body {
            BodyView::Str(s) => Some(s),
            _ => None,
        },
        None => None,
    }
}

/// The error `v` is, if it is one.
pub open spec fn error_of(all: ObjectSeq, v: Value) -> Option<ErrorBody> {
    match referent(all, v) {
        Some(o) => match o.body {
            BodyView::Error(e) => Some(e),
            _ => None,
        },
        None => None,
    }
}

/// The frames of `v` and its capacity, if it is a trace.
pub open spec fn trace_of(all: ObjectSeq, v: Value) -> Option<(Seq<TraceFrame>, nat)> {
    match referent(all, v) {
        Some(o) => match o.body {
            BodyView::Trace(frames, cap) => Some((frames, cap)),
            _ => None,
        },
        None => None,
    }
}

/// A core object.
pub open spec fn core_object(name: Seq<char>, body: BodyView) -> ObjectView {
    ObjectView { lang: LANG_CORE, ty_name: name, body }
}

pub open spec fn str_object(s: Seq<char>) -> ObjectView {
    core_object("caribou.Str"@, BodyView::Str(s))
}

pub open spec fn trace_object(frames: Seq<TraceFrame>, cap: nat) -> ObjectView {
    core_object("caribou.Trace"@, BodyView::Trace(frames, cap))
}

pub open spec fn error_object(e: ErrorBody) -> ObjectView {
    core_object("caribou.Error"@, BodyView::Error(e))
}

/// The object at `p` with another body.
pub open spec fn with_body(all: ObjectSeq, p: usize, body: BodyView) -> ObjectSeq {
    all.update(p - 1, ObjectView { body, ..all[p - 1] })
}

/// The address the next object gets.
pub open spec fn next_address(all: ObjectSeq) -> usize {
    (all.len() + 1) as usize
}

/// The objects the bridge knows.
pub struct Objects {
    pub slots: Vec<Object>,
}

impl View for Objects {
    type V = ObjectSeq;

    open spec fn view(&self) -> ObjectSeq {
        self.slots@.map_values(|o: Object| o@)
    }
}

impl Objects {
    /// `n` more objects still have addresses.
    pub open spec fn room(&self, n: int) -> bool {
        self@.len() + n < usize::MAX
    }

    pub fn new() -> (o: Objects)
        ensures
            o@ == Seq::<ObjectView>::empty(),
    {
        let o = Objects { slots: Vec::new() };
        assert(o@ =~= Seq::<ObjectView>::empty());
        o
    }

    /// A new object; its address.
    pub fn add_object(&mut self, object: Object) -> (p: usize)
        requires
            old(self).room(1),
        ensures
            final(self)@ == old(self)@.push(object@),
            p == next_address(old(self)@),
    {
        let ghost view = object@;
        self.slots.push(object);
        assert(self@ =~= old(self)@.push(view));
        self.slots.len()
    }

    /// Whether an object has the address `p`.
    pub fn has(&self, p: usize) -> (r: bool)
        ensures
            r == (object_at(self@, p) is Some),
    {
        0 < p && p <= self.slots.len()
    }

    /// The object at `p`.
    pub fn get(&self, p: usize) -> (o: &Object)
        requires
            object_at(self@, p) is Some,
        ensures
            o@ == self@[p - 1],
    {
        &self.slots[p - 1]
    }

    /// Replace the body of the object at `p`.
    pub fn set_body(&mut self, p: usize, body: Body)
        requires
            object_at(old(self)@, p) is Some,
        ensures
            final(self)@ == with_body(old(self)@, p, body@),
    {
        let ghost view = body@;
        self.slots[p - 1].body = body;
        assert(self@ =~= with_body(old(self)@, p, view));
    }

    /// Replace the object at `p`.
    pub fn set(&mut self, p: usize, object: Object)
        requires
            object_at(old(self)@, p) is Some,
        ensures
            final(self)@ == old(self)@.update(p - 1, object@),
    {
        let ghost view = object@;
        self.slots.set(p - 1, object);
        assert(self@ =~= old(self)@.update(p - 1, view));
    }

    /// An object of another language, whose type has the name `ty_name`
    /// there.
    pub fn foreign(&mut self, lang: LangId, ty_name: &str) -> (v: Value)
        requires
            old(self).room(1),
        ensures
            v == Value::Object(next_address(old(self)@)),
            final(self)@ == old(self)@.push(
                ObjectView { lang, ty_name: ty_name@, body: BodyView::Foreign },
            ),
    {
        Value::Object(
            self.add_object(Object { lang, ty_name: ty_name.to_owned(), body: Body::Foreign }),
        )
    }

    /// The language of `v`'s type, for an object.
    pub fn language_of(&self, v: Value) -> (r: Option<LangId>)
        ensures
            r == match referent(self@, v) {
                Some(o) => Some(o.lang),
                None => None,
            },
    {
        match v.object_of() {
            Some(p) => if self.has(p) {
                Some(self.get(p).lang)
            } else {
                None
            },
            None => None,
        }
    }

    /// The text of `v` if it is a core string.
    pub fn text(&self, v: Value) -> (r: Option<&str>)
        ensures
            match text_of(self@, v) {
                Some(t) => r matches Some(s) && s@ == t,
                None => r is None,
            },
    {
        match v.object_of() {
            Some(p) => if self.has(p) {
                match &self.get(p).body {
                    Body::Str(s) => Some(s.as_str()),
                    _ => None,
                }
            } else {
                None
            },
            None => None,
        }
    }

    /// The error `v` is, if it is one.
    pub fn error(&self, v: Value) -> (r: Option<ErrorBody>)
        ensures
            r == error_of(self@, v),
    {
        match v.object_of() {
            Some(p) => if self.has(p) {
                match &self.get(p).body {
                    Body::Error(e) => Some(*e),
                    _ => None,
                }
            } else {
                None
            },
            None => None,
        }
    }

    /// The frames of the trace `v` is, if it is one.
    pub fn trace(&self, v: Value) -> (r: Option<&Vec<TraceFrame>>)
        ensures
            match trace_of(self@, v) {
                Some((frames, _)) => r matches Some(f) && f@ == frames,
                None => r is None,
            },
    {
        match v.object_of() {
            Some(p) => if self.has(p) {
                match &self.get(p).body {
                    Body::Trace(frames, _) => Some(frames),
                    _ => None,
                }
            } else {
                None
            },
            None => None,
        }
    }
}

} // verus!
