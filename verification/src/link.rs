//! What a published member is at link time: the symbol an ahead-of-time build
//! of either language defines or references for it, and the C signature the
//! member's types dictate. Both sides derive from this, so the two agree by
//! construction.

use vstd::prelude::*;
use vstd::string::*;
use vstd::utf8::encode_utf8;

use crate::registry::{kind_of_target, ClassIface, Interface, MethodIface, MethodKind, TypeRef};
use crate::symbol::{is_table, SymbolTable};
use crate::text::{cat, decimal, decimal_text, hex_char, hex_digit};
use crate::world::{name_of_language, Languages};

pub mod laws;
pub mod names;

verus! {

/// A C type a value crosses as at link time.
#[derive(Clone, Copy, Debug, PartialEq, Eq, Structural)]
pub enum CType {
    /// No result.
    Void,
    /// `double`.
    Double,
    /// `int32_t`.
    Int32,
    /// `bool`, one byte.
    Bool,
    /// `caribou_str *`: a core string.
    Str,
    /// `void *`: an object as its own language holds it.
    Object,
    /// `uint64_t`: a bridge value, for what has no C form of its own.
    Value,
}

impl CType {
    /// The type as C spells it.
    pub open spec fn spelled(self) -> Seq<char> {
        match self {
            CType::Void => "void"@,
            CType::Double => "double"@,
            CType::Int32 => "int32_t"@,
            CType::Bool => "bool"@,
            CType::Str => "caribou_str *"@,
            CType::Object => "void *"@,
            CType::Value => "uint64_t"@,
        }
    }

    /// [`Self::spelled`].
    pub fn spelling(self) -> (s: &'static str)
        ensures
            s@ == self.spelled(),
    {
        match self {
            CType::Void => "void",
            CType::Double => "double",
            CType::Int32 => "int32_t",
            CType::Bool => "bool",
            CType::Str => "caribou_str *",
            CType::Object => "void *",
            CType::Value => "uint64_t",
        }
    }

    /// The C type for a registry type; none for a type with no static form,
    /// which keeps its member on the bridge. A list and a typed function cross
    /// as the bridge values they are; only their use inside the callee is
    /// dynamic.
    pub open spec fn for_type(ty: TypeRef) -> Option<CType> {
        match ty {
            TypeRef::Void => Some(CType::Void),
            TypeRef::Bool => Some(CType::Bool),
            TypeRef::Int => Some(CType::Int32),
            TypeRef::Float => Some(CType::Double),
            TypeRef::Str => Some(CType::Str),
            TypeRef::Object(_) => Some(CType::Object),
            TypeRef::Array(_) => Some(CType::Value),
            TypeRef::Function { params: _, ret: _ } => Some(CType::Value),
            _ => None,
        }
    }

    /// [`Self::for_type`].
    pub fn of(ty: &TypeRef) -> (r: Option<CType>)
        ensures
            r == CType::for_type(*ty),
    {
        match ty {
            TypeRef::Void => Some(CType::Void),
            TypeRef::Bool => Some(CType::Bool),
            TypeRef::Int => Some(CType::Int32),
            TypeRef::Float => Some(CType::Double),
            TypeRef::Str => Some(CType::Str),
            TypeRef::Object(_) => Some(CType::Object),
            TypeRef::Array(_) => Some(CType::Value),
            TypeRef::Function { .. } => Some(CType::Value),
            _ => None,
        }
    }
}

/// What a member is to its class in the symbol: the one letter after the
/// class.
#[derive(Clone, Copy, Debug, PartialEq, Eq, Structural)]
pub enum Kind {
    Method,
    Getter,
    Setter,
    Static,
    Constructor,
}

impl Kind {
    /// The kind's letter.
    pub open spec fn sign(self) -> char {
        match self {
            Kind::Method => 'm',
            Kind::Getter => 'g',
            Kind::Setter => 's',
            Kind::Static => 't',
            Kind::Constructor => 'c',
        }
    }

    /// [`Self::sign`].
    pub fn letter(self) -> (c: char)
        ensures
            c == self.sign(),
    {
        match self {
            Kind::Method => 'm',
            Kind::Getter => 'g',
            Kind::Setter => 's',
            Kind::Static => 't',
            Kind::Constructor => 'c',
        }
    }

    /// Whether the member takes its receiver first.
    pub open spec fn has_receiver(self) -> bool {
        self is Method || self is Getter || self is Setter
    }
}

/// An ASCII letter or digit.
pub open spec fn plain(b: u8) -> bool {
    48 <= b <= 57 || 65 <= b <= 90 || 97 <= b <= 122
}

/// A byte in a symbol: itself, or `_` and two hexadecimal digits.
pub open spec fn escaped_byte(b: u8) -> Seq<char> {
    if plain(b) {
        seq![b as char]
    } else {
        seq!['_', hex_char(b as int / 16), hex_char(b as int % 16)]
    }
}

/// Bytes in a symbol.
pub open spec fn escaped_bytes(bytes: Seq<u8>) -> Seq<char>
    decreases bytes.len(),
{
    if bytes.len() == 0 {
        Seq::empty()
    } else {
        escaped_byte(bytes[0]) + escaped_bytes(bytes.drop_first())
    }
}

/// A text in a symbol: every character that is not a C identifier's is written
/// as `_` and two hexadecimal digits a byte, `_` itself included.
pub open spec fn escaped(text: Seq<char>) -> Seq<char> {
    escaped_bytes(encode_utf8(text))
}

/// A name in a symbol: its length, and its text.
pub open spec fn segment(text: Seq<char>) -> Seq<char> {
    decimal(escaped(text).len()) + escaped(text)
}

/// The symbol for a member: `caribou`, then the language, the module as its
/// language spells it, the class, the kind's letter with the member's name,
/// and the arity, each after a `_`, and each name as its length and its text.
pub open spec fn symbol_text(
    lang: Seq<char>,
    module: Seq<char>,
    class: Seq<char>,
    kind: Kind,
    name: Seq<char>,
    arity: nat,
) -> Seq<char> {
    "caribou"@ + "_"@ + segment(lang) + "_"@ + segment(module) + "_"@ + segment(class) + "_"@
        + seq![kind.sign()] + segment(name) + "_"@ + decimal(arity)
}

fn escape(text: &str) -> (s: String)
    ensures
        s@ == escaped(text@),
{
    let bytes: &[u8] = text.as_bytes();
    let mut out = String::new();
    let mut i: usize = 0;
    assert(bytes@.skip(0) =~= bytes@);
    assert(out@ + escaped_bytes(bytes@) =~= escaped_bytes(bytes@));
    while i < bytes.len()
        invariant
            i <= bytes.len(),
            out@ + escaped_bytes(bytes@.skip(i as int)) == escaped_bytes(bytes@),
        decreases bytes.len() - i,
    {
        let b: u8 = bytes[i];
        let ghost before = out@;
        if (48 <= b && b <= 57) || (65 <= b && b <= 90) || (97 <= b && b <= 122) {
            out.push(b as char);
        } else {
            out.push('_');
            out.push(hex_digit(b / 16));
            out.push(hex_digit(b % 16));
        }
        proof {
            let rest = bytes@.skip(i as int);
            assert(rest.drop_first() =~= bytes@.skip(i + 1));
            assert(out@ =~= before + escaped_byte(b));
            assert(before + (escaped_byte(b) + escaped_bytes(bytes@.skip(i + 1))) =~= (before
                + escaped_byte(b)) + escaped_bytes(bytes@.skip(i + 1)));
        }
        i = i + 1;
    }
    assert(bytes@.skip(i as int) =~= Seq::<u8>::empty());
    assert(out@ + Seq::<char>::empty() =~= out@);
    out
}

fn add_segment(out: &mut String, text: &str)
    ensures
        final(out)@ == old(out)@ + segment(text@),
{
    let e = escape(text);
    let n: usize = e.as_str().unicode_len();
    out.append(decimal_text(n as u64).as_str());
    out.append(e.as_str());
    assert(out@ =~= old(out)@ + segment(text@));
}

/// [`symbol_text`].
pub fn symbol(lang: &str, module: &str, class: &str, kind: Kind, name: &str, arity: usize) -> (s:
    String)
    ensures
        s@ == symbol_text(lang@, module@, class@, kind, name@, arity as nat),
{
    let mut out = "caribou".to_owned();
    out.append("_");
    add_segment(&mut out, lang);
    out.append("_");
    add_segment(&mut out, module);
    out.append("_");
    add_segment(&mut out, class);
    out.append("_");
    let ghost before = out@;
    out.push(kind.letter());
    assert(out@ =~= before + seq![kind.sign()]);
    add_segment(&mut out, name);
    out.append("_");
    out.append(decimal_text(arity as u64).as_str());
    out
}

/// A member at link time.
#[derive(Debug, PartialEq, Eq)]
pub struct Link {
    /// The C symbol.
    pub symbol: String,
    /// The parameters' C types, the receiver first for an instance member.
    pub params: Vec<CType>,
    pub ret: CType,
    /// The parameters that have no static type, counted from one, and 0 for
    /// the result. Empty when the member links; otherwise its thunk calls the
    /// bridge, and a report can say which type to declare.
    pub dynamic: Vec<usize>,
}

/// The parameters of a declaration.
pub open spec fn param_list(params: Seq<CType>) -> Seq<char>
    decreases params.len(),
{
    if params.len() == 0 {
        Seq::empty()
    } else if params.len() == 1 {
        params[0].spelled()
    } else {
        param_list(params.drop_last()) + ", "@ + params.last().spelled()
    }
}

impl Link {
    /// Whether the member links statically: every type has a C form.
    pub fn is_static(&self) -> (r: bool)
        ensures
            r == (self.dynamic@.len() == 0),
    {
        self.dynamic.len() == 0
    }

    /// The C declaration.
    pub fn declaration(&self) -> (s: String)
        ensures
            s@ == self.ret.spelled() + " "@ + self.symbol@ + "("@ + (if self.params@.len() == 0 {
                "void"@
            } else {
                param_list(self.params@)
            }) + ");"@,
    {
        let mut out = self.ret.spelling().to_owned();
        out.append(" ");
        out.append(self.symbol.as_str());
        out.append("(");
        if self.params.len() == 0 {
            out.append("void");
        } else {
            let mut list = String::new();
            let mut i: usize = 0;
            assert(self.params@.take(0) =~= Seq::<CType>::empty());
            assert(list@ =~= Seq::<char>::empty());
            while i < self.params.len()
                invariant
                    i <= self.params.len(),
                    list@ == param_list(self.params@.take(i as int)),
                decreases self.params.len() - i,
            {
                assert(self.params@.take(i + 1).drop_last() =~= self.params@.take(i as int));
                if i > 0 {
                    list.append(", ");
                    list.append(self.params[i].spelling());
                } else {
                    list.append(self.params[i].spelling());
                    assert(list@ =~= self.params@[0].spelled());
                }
                i = i + 1;
            }
            assert(self.params@.take(i as int) =~= self.params@);
            out.append(list.as_str());
        }
        out.append(");");
        out
    }
}

/// The C type a parameter crosses as: a bridge value where its type has none.
pub open spec fn crosses_as(ty: TypeRef) -> CType {
    match CType::for_type(ty) {
        Some(t) => t,
        None => CType::Value,
    }
}

/// The parameters of `params` without a C type, counted from one.
pub open spec fn dynamic_params(params: Seq<TypeRef>) -> Seq<usize>
    decreases params.len(),
{
    if params.len() == 0 {
        Seq::empty()
    } else {
        let init = dynamic_params(params.drop_last());
        if CType::for_type(params.last()) is None {
            init.push(params.len() as usize)
        } else {
            init
        }
    }
}

/// The C type of a member's result.
pub open spec fn result_type(member: MethodIface, kind: Kind) -> CType {
    match kind {
        Kind::Constructor => CType::Object,
        Kind::Setter => CType::Void,
        _ => crosses_as(member.ret),
    }
}

/// The types of a member that stay dynamic.
pub open spec fn dynamic_types(member: MethodIface, kind: Kind) -> Seq<usize> {
    let own = dynamic_params(member.params@);
    match kind {
        Kind::Constructor => own,
        Kind::Setter => own,
        _ => if CType::for_type(member.ret) is None {
            own.push(0)
        } else {
            own
        },
    }
}

/// Whether `l` is the link for `member` of `class` in `iface`.
pub open spec fn links(
    l: Link,
    iface: Interface,
    class: ClassIface,
    member: MethodIface,
    kind: Kind,
    langs: Seq<Seq<char>>,
) -> bool {
    let types = member.params@.map_values(|t: TypeRef| crosses_as(t));
    &&& l.symbol@ == symbol_text(
        name_of_language(langs, iface.lang),
        iface.module@,
        class.name@,
        kind,
        member.name@,
        member.params@.len(),
    )
    &&& l.params@ == if kind.has_receiver() {
        seq![CType::Object] + types
    } else {
        types
    }
    &&& l.ret == result_type(member, kind)
    &&& l.dynamic@ == dynamic_types(member, kind)
}

/// The link for `member` of `class` in `iface`.
pub fn link(
    iface: &Interface,
    class: &ClassIface,
    member: &MethodIface,
    kind: Kind,
    langs: &Languages,
) -> (l: Link)
    ensures
        links(l, *iface, *class, *member, kind, langs@),
{
    let lang: String = langs.language_name(iface.lang);
    let mut params: Vec<CType> = Vec::new();
    let mut dynamic: Vec<usize> = Vec::new();
    match kind {
        Kind::Method => {
            params.push(CType::Object);
        },
        Kind::Getter => {
            params.push(CType::Object);
        },
        Kind::Setter => {
            params.push(CType::Object);
        },
        _ => {},
    }
    let ghost first = params@;
    let ghost cross = |t: TypeRef| crosses_as(t);
    let mut i: usize = 0;
    assert(member.params@.take(0) =~= Seq::<TypeRef>::empty());
    assert(params@ =~= first + member.params@.take(0).map_values(cross));
    while i < member.params.len()
        invariant
            i <= member.params.len(),
            cross == (|t: TypeRef| crosses_as(t)),
            params@ == first + member.params@.take(i as int).map_values(cross),
            dynamic@ == dynamic_params(member.params@.take(i as int)),
        decreases member.params.len() - i,
    {
        assert(member.params@.take(i + 1).drop_last() =~= member.params@.take(i as int));
        let ghost before = params@;
        match CType::of(&member.params[i]) {
            Some(t) => {
                params.push(t);
            },
            None => {
                params.push(CType::Value);
                dynamic.push(i + 1);
            },
        }
        assert(params@ =~= first + member.params@.take(i + 1).map_values(cross));
        i = i + 1;
    }
    assert(member.params@.take(i as int) =~= member.params@);
    let ret: CType = match kind {
        Kind::Constructor => CType::Object,
        Kind::Setter => CType::Void,
        _ => match CType::of(&member.ret) {
            Some(t) => t,
            None => {
                dynamic.push(0);
                CType::Value
            },
        },
    };
    assert(first + member.params@.map_values(cross) =~= if kind.has_receiver() {
        seq![CType::Object] + member.params@.map_values(cross)
    } else {
        member.params@.map_values(cross)
    });
    Link {
        symbol: symbol(
            lang.as_str(),
            iface.module.as_str(),
            class.name.as_str(),
            kind,
            member.name.as_str(),
            member.params.len(),
        ),
        params,
        ret,
        dynamic,
    }
}

/// What a method is in a symbol.
pub open spec fn link_kind(m: MethodIface, names: Seq<Seq<char>>) -> Kind {
    if m.is_static {
        Kind::Static
    } else {
        match kind_of_target(m.target, names) {
            MethodKind::Method => Kind::Method,
            MethodKind::Getter => Kind::Getter,
            MethodKind::Setter => Kind::Setter,
        }
    }
}

/// Whether the entries from `from` on are those of the class: its constructor
/// first, then its methods.
pub open spec fn plans_class(
    out: Seq<(String, Link)>,
    from: int,
    iface: Interface,
    class: ClassIface,
    langs: Seq<Seq<char>>,
    names: Seq<Seq<char>>,
) -> bool {
    &&& class.ctor matches Some(ctor) ==> out[from].0@ == class.name@ + ".new"@ && links(
        out[from].1,
        iface,
        class,
        ctor,
        Kind::Constructor,
        langs,
    )
    &&& forall|i: int|
        0 <= i < class.methods@.len() ==> plans_method(
            #[trigger] out[from + ctors(class) + i],
            iface,
            class,
            class.methods@[i],
            langs,
            names,
        )
}

pub open spec fn plans_method(
    entry: (String, Link),
    iface: Interface,
    class: ClassIface,
    m: MethodIface,
    langs: Seq<Seq<char>>,
    names: Seq<Seq<char>>,
) -> bool {
    entry.0@ == class.name@ + "."@ + m.name@ && links(
        entry.1,
        iface,
        class,
        m,
        link_kind(m, names),
        langs,
    )
}

/// How many constructors a class has.
pub open spec fn ctors(class: ClassIface) -> int {
    if class.ctor is Some {
        1
    } else {
        0
    }
}

/// How many members the first `n` classes have.
pub open spec fn members_before(classes: Seq<ClassIface>, n: int) -> int
    decreases n,
{
    if n <= 0 {
        0
    } else {
        members_before(classes, n - 1) + ctors(classes[n - 1]) + classes[n - 1].methods@.len()
    }
}

fn plan_class(
    out: &mut Vec<(String, Link)>,
    iface: &Interface,
    class: &ClassIface,
    langs: &Languages,
    table: &SymbolTable,
)
    requires
        is_table(table@),
    ensures
        final(out)@.len() == old(out)@.len() + ctors(*class) + class.methods@.len(),
        forall|k: int| 0 <= k < old(out)@.len() ==> final(out)@[k] == old(out)@[k],
        plans_class(final(out)@, old(out)@.len() as int, *iface, *class, langs@, table@),
{
    let ghost from = out@.len() as int;
    if let Some(ctor) = &class.ctor {
        let l: Link = link(iface, class, ctor, Kind::Constructor, langs);
        out.push((cat(class.name.as_str(), ".new"), l));
    }
    let mut i: usize = 0;
    while i < class.methods.len()
        invariant
            is_table(table@),
                i <= class.methods.len(),
            from == old(out)@.len(),
            out@.len() == from + ctors(*class) + i,
            forall|k: int| 0 <= k < from ==> out@[k] == old(out)@[k],
            class.ctor matches Some(ctor) ==> out@[from].0@ == class.name@ + ".new"@ && links(
                out@[from].1,
                *iface,
                *class,
                ctor,
                Kind::Constructor,
                langs@,
            ),
            forall|k: int|
                0 <= k < i ==> plans_method(
                    #[trigger] out@[from + ctors(*class) + k],
                    *iface,
                    *class,
                    class.methods@[k],
                    langs@,
                    table@,
                ),
        decreases class.methods.len() - i,
    {
        let m: &MethodIface = &class.methods[i];
        let kind: Kind = if m.is_static {
            Kind::Static
        } else {
            match m.kind(table) {
                MethodKind::Method => Kind::Method,
                MethodKind::Getter => Kind::Getter,
                MethodKind::Setter => Kind::Setter,
            }
        };
        let l: Link = link(iface, class, m, kind, langs);
        let dot = cat(class.name.as_str(), ".");
        let ghost before = out@;
        out.push((cat(dot.as_str(), m.name.as_str()), l));
        proof {
            assert forall|k: int| 0 <= k < i + 1 implies plans_method(
                #[trigger] out@[from + ctors(*class) + k],
                *iface,
                *class,
                class.methods@[k],
                langs@,
                table@,
            ) by {
                if k < i {
                    assert(out@[from + ctors(*class) + k] == before[from + ctors(*class) + k]);
                }
            }
        }
        i = i + 1;
    }
}

/// Every member of `iface` with its link: what a build defines for the module,
/// or references when it imports from it.
pub fn plan(iface: &Interface, langs: &Languages, table: &SymbolTable) -> (out: Vec<
    (String, Link),
>)
    requires
        is_table(table@),
    ensures
        out@.len() == members_before(iface.classes@, iface.classes@.len() as int),
        forall|i: int|
            0 <= i < iface.classes@.len() ==> plans_class(
                out@,
                members_before(iface.classes@, i),
                *iface,
                #[trigger] iface.classes@[i],
                langs@,
                table@,
            ),
{
    let mut out: Vec<(String, Link)> = Vec::new();
    let mut n: usize = 0;
    while n < iface.classes.len()
        invariant
            is_table(table@),
            n <= iface.classes.len(),
            out@.len() == members_before(iface.classes@, n as int),
            forall|i: int|
                0 <= i < n ==> plans_class(
                    out@,
                    members_before(iface.classes@, i),
                    *iface,
                    #[trigger] iface.classes@[i],
                    langs@,
                    table@,
                ),
            forall|i: int|
                0 <= i < n ==> 0 <= #[trigger] members_before(iface.classes@, i) && members_before(
                    iface.classes@,
                    i,
                ) + ctors(iface.classes@[i]) + iface.classes@[i].methods@.len() <= out@.len(),
        decreases iface.classes.len() - n,
    {
        let ghost before = out@;
        plan_class(&mut out, iface, &iface.classes[n], langs, table);
        proof {
            assert forall|i: int| 0 <= i < n + 1 implies plans_class(
                out@,
                members_before(iface.classes@, i),
                *iface,
                #[trigger] iface.classes@[i],
                langs@,
                table@,
            ) by {
                if i < n {
                    let from = members_before(iface.classes@, i);
                    let class = iface.classes@[i];
                    assert(plans_class(before, from, *iface, class, langs@, table@));
                    assert forall|k: int| 0 <= k < class.methods@.len() implies plans_method(
                        #[trigger] out@[from + ctors(class) + k],
                        *iface,
                        class,
                        class.methods@[k],
                        langs@,
                        table@,
                    ) by {
                        assert(out@[from + ctors(class) + k] == before[from + ctors(class) + k]);
                    }
                }
            }
        }
        n = n + 1;
    }
    out
}

} // verus!
