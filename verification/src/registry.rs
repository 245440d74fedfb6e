//! The module registry: the interfaces of loaded modules, published by the
//! adapter that loaded them and read by the adapter answering another
//! language's import.
//!
//! Imports address a module through a namespace, not a language name:
//! `import "game:Player"` names the namespace `game` and the module `Player`
//! in it. A namespace covers one or more languages and, when configured with a
//! module list, only those modules; a module of a namespace's language is
//! addressable there by its own name and, when the name begins with the
//! namespace's name and a dot or a slash, by the remainder. Every registered
//! language is also a namespace under its own name.

use vstd::prelude::*;

use crate::protocol::Callable;
use crate::symbol::{is_table, name_of, SymbolTable};
use crate::text::{chars_of, same_text};
use crate::value::{LangId, Value};

pub mod files;
pub mod laws;
pub mod publish;
pub mod resolve;

verus! {

/// A type at a module's boundary, in terms every language can map to.
#[derive(Debug, PartialEq, Eq)]
pub enum TypeRef {
    Void,
    Bool,
    Int,
    Int64,
    Float,
    Str,
    Buffer,
    /// An object of the named type, in the owning language's own terms.
    Object(String),
    /// A value of the enum of that name.
    Enum(String),
    Array(Box<TypeRef>),
    Future(Box<TypeRef>),
    /// Anything; the value's own type decides at the crossing.
    Dyn,
    /// A function of any shape, called with whatever it is given.
    Fun,
    /// A function of this shape, which a language may call as it calls its own
    /// of that type.
    Function { params: Vec<TypeRef>, ret: Box<TypeRef> },
}

/// Whether two types are one: the same shape, naming the same things.
pub open spec fn same_type(a: TypeRef, b: TypeRef) -> bool
    decreases a,
{
    match (a, b) {
        (TypeRef::Void, TypeRef::Void) => true,
        (TypeRef::Bool, TypeRef::Bool) => true,
        (TypeRef::Int, TypeRef::Int) => true,
        (TypeRef::Int64, TypeRef::Int64) => true,
        (TypeRef::Float, TypeRef::Float) => true,
        (TypeRef::Str, TypeRef::Str) => true,
        (TypeRef::Buffer, TypeRef::Buffer) => true,
        (TypeRef::Dyn, TypeRef::Dyn) => true,
        (TypeRef::Fun, TypeRef::Fun) => true,
        (TypeRef::Object(x), TypeRef::Object(y)) => x@ == y@,
        (TypeRef::Enum(x), TypeRef::Enum(y)) => x@ == y@,
        (TypeRef::Array(x), TypeRef::Array(y)) => same_type(*x, *y),
        (TypeRef::Future(x), TypeRef::Future(y)) => same_type(*x, *y),
        (TypeRef::Function { params: p, ret: r }, TypeRef::Function { params: q, ret: s }) => {
            &&& p@.len() == q@.len()
            &&& forall|i: int| 0 <= i < p@.len() ==> same_type(#[trigger] p@[i], q@[i])
            &&& same_type(*r, *s)
        },
        _ => false,
    }
}

impl TypeRef {
    /// The default for an undeclared type.
    pub fn dyn_() -> (t: TypeRef)
        ensures
            t == TypeRef::Dyn,
    {
        TypeRef::Dyn
    }

    /// Whether it is the same type as `other`.
    pub fn same(&self, other: &TypeRef) -> (r: bool)
        ensures
            r == same_type(*self, *other),
        decreases self,
    {
        match (self, other) {
            (TypeRef::Void, TypeRef::Void) => true,
            (TypeRef::Bool, TypeRef::Bool) => true,
            (TypeRef::Int, TypeRef::Int) => true,
            (TypeRef::Int64, TypeRef::Int64) => true,
            (TypeRef::Float, TypeRef::Float) => true,
            (TypeRef::Str, TypeRef::Str) => true,
            (TypeRef::Buffer, TypeRef::Buffer) => true,
            (TypeRef::Dyn, TypeRef::Dyn) => true,
            (TypeRef::Fun, TypeRef::Fun) => true,
            (TypeRef::Object(x), TypeRef::Object(y)) => same_text(x.as_str(), y.as_str()),
            (TypeRef::Enum(x), TypeRef::Enum(y)) => same_text(x.as_str(), y.as_str()),
            (TypeRef::Array(x), TypeRef::Array(y)) => x.same(y),
            (TypeRef::Future(x), TypeRef::Future(y)) => x.same(y),
            (
                TypeRef::Function { params: p, ret: r },
                TypeRef::Function { params: q, ret: s },
            ) => {
                if p.len() != q.len() {
                    return false;
                }
                let mut i: usize = 0;
                while i < p.len()
                    invariant
                        i <= p.len(),
                        p.len() == q.len(),
                        *self == (TypeRef::Function { params: *p, ret: *r }),
                        *other == (TypeRef::Function { params: *q, ret: *s }),
                        forall|k: int| 0 <= k < i ==> same_type(#[trigger] p@[k], q@[k]),
                        decreases_to!(self => p),
                    decreases p.len() - i,
                {
                    assert(decreases_to!(p => p@[i as int]));
                    if !p[i].same(&q[i]) {
                        assert(!same_type(p@[i as int], q@[i as int]));
                        return false;
                    }
                    i = i + 1;
                }
                r.same(s)
            },
            _ => false,
        }
    }

    /// The same type.
    pub fn copied(&self) -> (t: TypeRef)
        ensures
            same_type(t, *self),
        decreases self,
    {
        match self {
            TypeRef::Void => TypeRef::Void,
            TypeRef::Bool => TypeRef::Bool,
            TypeRef::Int => TypeRef::Int,
            TypeRef::Int64 => TypeRef::Int64,
            TypeRef::Float => TypeRef::Float,
            TypeRef::Str => TypeRef::Str,
            TypeRef::Buffer => TypeRef::Buffer,
            TypeRef::Dyn => TypeRef::Dyn,
            TypeRef::Fun => TypeRef::Fun,
            TypeRef::Object(s) => TypeRef::Object(s.clone()),
            TypeRef::Enum(s) => TypeRef::Enum(s.clone()),
            TypeRef::Array(t) => TypeRef::Array(Box::new(t.copied())),
            TypeRef::Future(t) => TypeRef::Future(Box::new(t.copied())),
            TypeRef::Function { params, ret } => {
                let mut list: Vec<TypeRef> = Vec::new();
                let mut i: usize = 0;
                while i < params.len()
                    invariant
                        i <= params.len(),
                        list.len() == i,
                        forall|k: int| 0 <= k < i ==> same_type(#[trigger] list@[k], params@[k]),
                        decreases_to!(self => params),
                    decreases params.len() - i,
                {
                    assert(decreases_to!(params => params@[i as int]));
                    list.push(params[i].copied());
                    i = i + 1;
                }
                let r = TypeRef::Function { params: list, ret: Box::new(ret.copied()) };
                assert(same_type(r, *self));
                r
            },
        }
    }
}

#[derive(Debug)]
pub struct FieldIface {
    pub name: String,
    pub ty: TypeRef,
}

/// A method and how to call it. An instance method's `target` takes the
/// receiver first; a static's takes only its parameters. A constructor's
/// `target` takes the constructor's parameters and returns the new object.
#[derive(Debug)]
pub struct MethodIface {
    pub name: String,
    pub is_static: bool,
    pub params: Vec<TypeRef>,
    pub ret: TypeRef,
    pub target: Callable,
}

/// What a member of [`ClassIface::methods`] is to its class. A getter or
/// setter stands where another language has a field. A constructor is
/// [`ClassIface::ctor`], never here.
#[derive(Clone, Copy, Debug, PartialEq, Eq, Structural)]
pub enum MethodKind {
    Method,
    Getter,
    Setter,
}

/// What a signature says: `name=(_)` is a setter, `name(..)` a method, a bare
/// name a getter.
pub open spec fn kind_of_signature(sig: Seq<char>) -> MethodKind {
    if "=(_)"@.is_suffix_of(sig) {
        MethodKind::Setter
    } else if sig.contains('(') {
        MethodKind::Method
    } else {
        MethodKind::Getter
    }
}

/// [`kind_of_signature`].
pub fn signature_kind(sig: &str) -> (k: MethodKind)
    ensures
        k == kind_of_signature(sig@),
{
    let chars: Vec<char> = chars_of(sig);
    let n: usize = chars.len();
    proof {
        reveal_strlit("=(_)");
    }
    if n >= 4 && chars[n - 4] == '=' && chars[n - 3] == '(' && chars[n - 2] == '_' && chars[n - 1]
        == ')' {
        assert("=(_)"@ =~= sig@.subrange(n - 4, n as int));
        return MethodKind::Setter;
    }
    assert(!"=(_)"@.is_suffix_of(sig@)) by {
        if "=(_)"@.is_suffix_of(sig@) {
            let tail = sig@.subrange(n - 4, n as int);
            assert(tail[0] == '=' && tail[1] == '(' && tail[2] == '_' && tail[3] == ')');
        }
    }
    let mut i: usize = 0;
    while i < n
        invariant
            i <= n,
            n == chars.len(),
            chars@ == sig@,
            !"=(_)"@.is_suffix_of(sig@),
            forall|k: int| 0 <= k < i ==> sig@[k] != '(',
        decreases n - i,
    {
        if chars[i] == '(' {
            assert(sig@[i as int] == '(');
            return MethodKind::Method;
        }
        i = i + 1;
    }
    MethodKind::Getter
}

impl MethodIface {
    /// Read from the signature a `WrenMethod` target carries; every other
    /// target is a method.
    pub fn kind(&self, table: &SymbolTable) -> (k: MethodKind)
        requires
            is_table(table@),
        ensures
            k == kind_of_target(self.target, table@),
    {
        match self.target {
            Callable::WrenMethod { signature, .. } => signature_kind(table.name(signature)),
            _ => MethodKind::Method,
        }
    }
}

/// What a target says its member is.
pub open spec fn kind_of_target(target: Callable, names: Seq<Seq<char>>) -> MethodKind {
    match target {
        Callable::WrenMethod { class: _, signature, is_static: _ } => kind_of_signature(
            name_of(names, signature),
        ),
        _ => MethodKind::Method,
    }
}

#[derive(Debug)]
pub struct ClassIface {
    /// The class's simple name: what an importer binds.
    pub name: String,
    /// The type's name in its own language: what an instance reports, so an
    /// object coming back across the bridge finds its class.
    pub ty_name: String,
    pub superclass: Option<String>,
    pub fields: Vec<FieldIface>,
    /// Fields of the class itself, read and written on
    /// [`Self::class_object`].
    pub statics: Vec<FieldIface>,
    pub methods: Vec<MethodIface>,
    pub ctor: Option<MethodIface>,
    /// The class as a value of its language, the receiver of its static
    /// fields; null when the language has no such object.
    pub class_object: Value,
}

/// One module's boundary.
#[derive(Debug)]
pub struct Interface {
    pub lang: LangId,
    pub module: String,
    pub classes: Vec<ClassIface>,
}

/// The first class of `classes` called `name`.
pub open spec fn class_index(classes: Seq<ClassIface>, name: Seq<char>) -> Option<int>
    decreases classes.len(),
{
    if classes.len() == 0 {
        None
    } else {
        match class_index(classes.drop_last(), name) {
            Some(i) => Some(i),
            None => if classes.last().name@ == name {
                Some(classes.len() - 1)
            } else {
                None
            },
        }
    }
}

impl Interface {
    /// Where the class `name` is.
    pub fn position(&self, name: &str) -> (r: Option<usize>)
        ensures
            match class_index(self.classes@, name@) {
                Some(i) => r matches Some(k) && k == i && k < self.classes.len(),
                None => r is None,
            },
    {
        let mut i: usize = 0;
        assert(self.classes@.take(0) =~= Seq::<ClassIface>::empty());
        while i < self.classes.len()
            invariant
                i <= self.classes.len(),
                class_index(self.classes@.take(i as int), name@) is None,
            decreases self.classes.len() - i,
        {
            assert(self.classes@.take(i + 1).drop_last() =~= self.classes@.take(i as int));
            if same_text(self.classes[i].name.as_str(), name) {
                proof {
                    lemma_first_class(self.classes@, name@, i + 1);
                }
                return Some(i);
            }
            i = i + 1;
        }
        assert(self.classes@.take(i as int) =~= self.classes@);
        None
    }

    pub fn class(&self, name: &str) -> (r: Option<&ClassIface>)
        ensures
            match class_index(self.classes@, name@) {
                Some(i) => r == Some(&self.classes@[i]),
                None => r is None,
            },
    {
        match self.position(name) {
            Some(i) => Some(&self.classes[i]),
            None => None,
        }
    }
}

proof fn lemma_first_class(classes: Seq<ClassIface>, name: Seq<char>, n: int)
    requires
        0 <= n <= classes.len(),
        class_index(classes.take(n), name) is Some,
    ensures
        class_index(classes, name) == class_index(classes.take(n), name),
    decreases classes.len(),
{
    if n < classes.len() {
        assert(classes.drop_last().take(n) =~= classes.take(n));
        lemma_first_class(classes.drop_last(), name, n);
    } else {
        assert(classes.take(n) =~= classes);
    }
}

} // verus!
