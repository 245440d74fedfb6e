//! A module's interface as data: what a build step reads to declare another
//! language's classes before anything runs.
//!
//! [`ModuleDesc`] is the interface without its callables: the same classes,
//! members, kinds and types, plus the parameter names a source has and a
//! running program does not.

use vstd::prelude::*;

use crate::protocol::Callable;
use crate::registry::{
    kind_of_target, same_type, ClassIface, FieldIface, Interface, MethodIface, MethodKind, TypeRef,
};
use crate::symbol::{is_table, name_of, SymbolTable};
use crate::text::{cat, decimal, decimal_text, same_text};

verus! {

#[derive(Debug, PartialEq, Eq)]
pub struct ModuleDesc {
    /// The language's name, as registered.
    pub lang: String,
    pub module: String,
    pub classes: Vec<ClassDesc>,
}

#[derive(Debug, PartialEq, Eq)]
pub struct ClassDesc {
    pub name: String,
    /// The type's name in its own language: what an instance reports.
    pub ty_name: String,
    pub superclass: Option<String>,
    pub fields: Vec<FieldDesc>,
    /// Fields of the class itself.
    pub statics: Vec<FieldDesc>,
    pub members: Vec<MemberDesc>,
}

#[derive(Debug, PartialEq, Eq)]
pub struct FieldDesc {
    pub name: String,
    pub ty: TypeRef,
}

/// What a member is to its class. A `Constructor` is the one `new`; a
/// `Factory` is any other constructor, a static returning the class.
#[derive(Clone, Copy, Debug, PartialEq, Eq, Structural)]
pub enum MemberKind {
    Method,
    Static,
    Getter,
    Setter,
    Constructor,
    Factory,
}

#[derive(Debug, PartialEq, Eq)]
pub struct MemberDesc {
    pub name: String,
    pub kind: MemberKind,
    /// The member in its language's own spelling: what the bridge is asked
    /// for.
    pub signature: String,
    pub params: Vec<ParamDesc>,
    pub ret: TypeRef,
}

#[derive(Debug, PartialEq, Eq)]
pub struct ParamDesc {
    pub name: String,
    pub ty: TypeRef,
}

/// A declared enum: its variants, each with its fields.
#[derive(Debug, PartialEq, Eq)]
pub struct EnumDesc {
    pub name: String,
    pub variants: Vec<VariantDesc>,
}

#[derive(Debug, PartialEq, Eq)]
pub struct VariantDesc {
    pub name: String,
    pub fields: Vec<ParamDesc>,
}

impl MethodKind {
    /// The member kind a method kind is, for a non-static member.
    pub open spec fn as_member(self) -> MemberKind {
        match self {
            MethodKind::Method => MemberKind::Method,
            MethodKind::Getter => MemberKind::Getter,
            MethodKind::Setter => MemberKind::Setter,
        }
    }

    /// [`Self::as_member`].
    pub fn member(self) -> (k: MemberKind)
        ensures
            k == self.as_member(),
    {
        match self {
            MethodKind::Method => MemberKind::Method,
            MethodKind::Getter => MemberKind::Getter,
            MethodKind::Setter => MemberKind::Setter,
        }
    }
}

/// `n` underscores with commas between.
pub open spec fn blanks(n: nat) -> Seq<char>
    decreases n,
{
    if n == 0 {
        Seq::empty()
    } else if n == 1 {
        "_"@
    } else {
        blanks((n - 1) as nat) + ","@ + "_"@
    }
}

/// A member's spelling: the signature its callable carries when it has one,
/// else its name with its arity in the same spelling, `dot(_,_)`.
pub open spec fn spelled(m: MethodIface, names: Seq<Seq<char>>) -> Seq<char> {
    match m.target {
        Callable::WrenMethod { class: _, signature, is_static: _ } => name_of(names, signature),
        _ => m.name@ + "("@ + blanks(m.params@.len()) + ")"@,
    }
}

/// What a method of a class is: a static that returns the class is a factory.
pub open spec fn kind_in(m: MethodIface, class: Seq<char>, names: Seq<Seq<char>>) -> MemberKind {
    if m.is_static {
        match m.ret {
            TypeRef::Object(s) => if s@ == class {
                MemberKind::Factory
            } else {
                MemberKind::Static
            },
            _ => MemberKind::Static,
        }
    } else {
        kind_of_target(m.target, names).as_member()
    }
}

/// The parameter's description: a program has no parameter names, so they are
/// `a0`, `a1`, and so on.
pub open spec fn describes_param(d: ParamDesc, ty: TypeRef, i: int) -> bool {
    d.name@ == "a"@ + decimal(i as nat) && same_type(d.ty, ty)
}

pub open spec fn describes_member(
    d: MemberDesc,
    m: MethodIface,
    kind: MemberKind,
    names: Seq<Seq<char>>,
) -> bool {
    &&& d.name@ == m.name@
    &&& d.kind == kind
    &&& d.signature@ == spelled(m, names)
    &&& d.params@.len() == m.params@.len()
    &&& forall|i: int|
        0 <= i < d.params@.len() ==> describes_param(#[trigger] d.params@[i], m.params@[i], i)
    &&& same_type(d.ret, m.ret)
}

pub open spec fn describes_fields(d: Seq<FieldDesc>, f: Seq<FieldIface>) -> bool {
    &&& d.len() == f.len()
    &&& forall|i: int|
        0 <= i < d.len() ==> (#[trigger] d[i]).name@ == f[i].name@ && same_type(d[i].ty, f[i].ty)
}

/// Whether the class has a constructor: it is described first.
pub open spec fn leading(c: ClassIface) -> int {
    if c.ctor is Some {
        1
    } else {
        0
    }
}

pub open spec fn describes_class(d: ClassDesc, c: ClassIface, names: Seq<Seq<char>>) -> bool {
    &&& d.name@ == c.name@
    &&& d.ty_name@ == c.ty_name@
    &&& match (d.superclass, c.superclass) {
        (Some(a), Some(b)) => a@ == b@,
        (None, None) => true,
        _ => false,
    }
    &&& describes_fields(d.fields@, c.fields@)
    &&& describes_fields(d.statics@, c.statics@)
    &&& d.members@.len() == leading(c) + c.methods@.len()
    &&& c.ctor matches Some(m) ==> describes_member(
        d.members@[0],
        m,
        MemberKind::Constructor,
        names,
    )
    &&& forall|i: int|
        leading(c) <= i < d.members@.len() ==> describes_member(
            #[trigger] d.members@[i],
            c.methods@[i - leading(c)],
            kind_in(c.methods@[i - leading(c)], c.ty_name@, names),
            names,
        )
}

pub open spec fn describes_module(
    d: ModuleDesc,
    i: Interface,
    lang: Seq<char>,
    names: Seq<Seq<char>>,
) -> bool {
    &&& d.lang@ == lang
    &&& d.module@ == i.module@
    &&& d.classes@.len() == i.classes@.len()
    &&& forall|k: int|
        0 <= k < d.classes@.len() ==> describes_class(#[trigger] d.classes@[k], i.classes@[k], names)
}

fn blank_list(n: usize) -> (s: String)
    ensures
        s@ == blanks(n as nat),
{
    let mut s = String::new();
    let mut i: usize = 0;
    assert(s@ =~= Seq::<char>::empty());
    while i < n
        invariant
            i <= n,
            s@ == blanks(i as nat),
        decreases n - i,
    {
        let ghost before = s@;
        if i > 0 {
            s.append(",");
            s.append("_");
        } else {
            s.append("_");
            assert(s@ =~= "_"@);
        }
        i = i + 1;
    }
    s
}

fn signature_of(m: &MethodIface, table: &SymbolTable) -> (s: String)
    requires
        is_table(table@),
    ensures
        s@ == spelled(*m, table@),
{
    match m.target {
        Callable::WrenMethod { signature, .. } => table.name(signature).to_owned(),
        _ => {
            let head = cat(m.name.as_str(), "(");
            let with = cat(head.as_str(), blank_list(m.params.len()).as_str());
            cat(with.as_str(), ")")
        },
    }
}

fn member(m: &MethodIface, kind: MemberKind, table: &SymbolTable) -> (d: MemberDesc)
    requires
        is_table(table@),
    ensures
        describes_member(d, *m, kind, table@),
{
    let mut params: Vec<ParamDesc> = Vec::new();
    let mut i: usize = 0;
    while i < m.params.len()
        invariant
            i <= m.params.len(),
            params@.len() == i,
            forall|k: int|
                0 <= k < i ==> describes_param(#[trigger] params@[k], m.params@[k], k),
        decreases m.params.len() - i,
    {
        params.push(
            ParamDesc {
                name: cat("a", decimal_text(i as u64).as_str()),
                ty: m.params[i].copied(),
            },
        );
        i = i + 1;
    }
    MemberDesc {
        name: m.name.clone(),
        kind,
        signature: signature_of(m, table),
        params,
        ret: m.ret.copied(),
    }
}

fn fields(list: &Vec<FieldIface>) -> (d: Vec<FieldDesc>)
    ensures
        describes_fields(d@, list@),
{
    let mut out: Vec<FieldDesc> = Vec::new();
    let mut i: usize = 0;
    while i < list.len()
        invariant
            i <= list.len(),
            out@.len() == i,
            forall|k: int|
                0 <= k < i ==> (#[trigger] out@[k]).name@ == list@[k].name@ && same_type(
                    out@[k].ty,
                    list@[k].ty,
                ),
        decreases list.len() - i,
    {
        out.push(FieldDesc { name: list[i].name.clone(), ty: list[i].ty.copied() });
        i = i + 1;
    }
    out
}

fn class(c: &ClassIface, table: &SymbolTable) -> (d: ClassDesc)
    requires
        is_table(table@),
    ensures
        describes_class(d, *c, table@),
{
    let mut members: Vec<MemberDesc> = Vec::new();
    if let Some(m) = &c.ctor {
        members.push(member(m, MemberKind::Constructor, table));
    }
    let mut i: usize = 0;
    while i < c.methods.len()
        invariant
            is_table(table@),
            i <= c.methods.len(),
            members@.len() == leading(*c) + i,
            c.ctor matches Some(m) ==> describes_member(
                members@[0],
                m,
                MemberKind::Constructor,
                table@,
            ),
            forall|k: int|
                leading(*c) <= k < members@.len() ==> describes_member(
                    #[trigger] members@[k],
                    c.methods@[k - leading(*c)],
                    kind_in(c.methods@[k - leading(*c)], c.ty_name@, table@),
                    table@,
                ),
        decreases c.methods.len() - i,
    {
        let m: &MethodIface = &c.methods[i];
        let kind: MemberKind = if m.is_static {
            match &m.ret {
                TypeRef::Object(s) => if same_text(s.as_str(), c.ty_name.as_str()) {
                    MemberKind::Factory
                } else {
                    MemberKind::Static
                },
                _ => MemberKind::Static,
            }
        } else {
            m.kind(table).member()
        };
        members.push(member(m, kind, table));
        i = i + 1;
    }
    let superclass: Option<String> = match &c.superclass {
        Some(s) => Some(s.clone()),
        None => None,
    };
    ClassDesc {
        name: c.name.clone(),
        ty_name: c.ty_name.clone(),
        superclass,
        fields: fields(&c.fields),
        statics: fields(&c.statics),
        members,
    }
}

impl ModuleDesc {
    /// The description of a published interface.
    pub fn of(iface: &Interface, lang: &str, table: &SymbolTable) -> (d: ModuleDesc)
        requires
            is_table(table@),
        ensures
            describes_module(d, *iface, lang@, table@),
    {
        let mut classes: Vec<ClassDesc> = Vec::new();
        let mut i: usize = 0;
        while i < iface.classes.len()
            invariant
                is_table(table@),
                i <= iface.classes.len(),
                classes@.len() == i,
                forall|k: int|
                    0 <= k < i ==> describes_class(
                        #[trigger] classes@[k],
                        iface.classes@[k],
                        table@,
                    ),
            decreases iface.classes.len() - i,
        {
            classes.push(class(&iface.classes[i], table));
            i = i + 1;
        }
        ModuleDesc { lang: lang.to_owned(), module: iface.module.clone(), classes }
    }
}

} // verus!
