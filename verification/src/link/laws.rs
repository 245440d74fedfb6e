//! What holds of every link and every plan of a build.

use vstd::prelude::*;
use vstd::string::*;
use vstd::utf8::encode_utf8;

use crate::link::{
    crosses_as, ctors, dynamic_params, dynamic_types, escaped, escaped_bytes, links, members_before,
    param_list, plain, plans_class, plans_method, segment, CType, Kind, Link,
};
use crate::protocol::Callable;
use crate::registry::{kind_of_signature, ClassIface, Interface, MethodIface, TypeRef};
use crate::symbol::name_of;
use crate::text::{decimal, digit_char, hex, hex_char};
use crate::world::name_of_language;

verus! {

/// A symbol with this letter before the member's name.
pub open spec fn symbol_with(
    iface: Interface,
    class: ClassIface,
    member: MethodIface,
    langs: Seq<Seq<char>>,
    letter: char,
) -> Seq<char> {
    "caribou"@ + "_"@ + segment(name_of_language(langs, iface.lang)) + "_"@ + segment(iface.module@)
        + "_"@ + segment(class.name@) + "_"@ + seq![letter] + segment(member.name@) + "_"@
        + decimal(member.params@.len())
}

/// Whether a value of this registry type has a C form of its own.
pub open spec fn has_c_form(ty: TypeRef) -> bool {
    ty is Void || ty is Bool || ty is Int || ty is Float || ty is Str || ty is Object
        || ty is Array || ty is Function
}

/// A type crosses as its C form, and as a bridge value where it has none.
pub proof fn law_a_type_crosses_as_its_c_form(ty: TypeRef)
    ensures
        ty is Void <==> crosses_as(ty) == CType::Void,
        ty is Bool <==> crosses_as(ty) == CType::Bool,
        ty is Int <==> crosses_as(ty) == CType::Int32,
        ty is Float <==> crosses_as(ty) == CType::Double,
        ty is Str <==> crosses_as(ty) == CType::Str,
        ty is Object <==> crosses_as(ty) == CType::Object,
        CType::for_type(ty) is Some <==> has_c_form(ty),
        ty is Array || ty is Function || !has_c_form(ty) <==> crosses_as(ty) == CType::Value,
{
}

/// A C type is spelled as C spells it.
pub proof fn law_types_are_spelled_in_c(t: CType)
    ensures
        t.spelled() == match t {
            CType::Void => "void"@,
            CType::Double => "double"@,
            CType::Int32 => "int32_t"@,
            CType::Bool => "bool"@,
            CType::Str => "caribou_str *"@,
            CType::Object => "void *"@,
            CType::Value => "uint64_t"@,
        },
{
}

/// An instance member takes its receiver first, and then each parameter as its
/// type crosses; a static and a constructor take the parameters alone.
pub proof fn law_a_link_takes_the_parameters(
    l: Link,
    iface: Interface,
    class: ClassIface,
    member: MethodIface,
    kind: Kind,
    langs: Seq<Seq<char>>,
)
    requires
        links(l, iface, class, member, kind, langs),
    ensures
        kind is Static || kind is Constructor ==> {
            &&& l.params@.len() == member.params@.len()
            &&& forall|i: int|
                0 <= i < member.params@.len() ==> #[trigger] l.params@[i] == crosses_as(
                    member.params@[i],
                )
        },
        !(kind is Static || kind is Constructor) ==> {
            &&& l.params@.len() == member.params@.len() + 1
            &&& l.params@[0] == CType::Object
            &&& forall|i: int|
                0 <= i < member.params@.len() ==> l.params@[i + 1] == crosses_as(
                    #[trigger] member.params@[i],
                )
        },
{
}

/// A member gives its result as the result's type crosses, but that a constructor
/// gives an object and a setter nothing.
pub proof fn law_a_link_gives_the_result(
    l: Link,
    iface: Interface,
    class: ClassIface,
    member: MethodIface,
    kind: Kind,
    langs: Seq<Seq<char>>,
)
    requires
        links(l, iface, class, member, kind, langs),
    ensures
        kind is Constructor ==> l.ret == CType::Object,
        kind is Setter ==> l.ret == CType::Void,
        kind is Method || kind is Getter || kind is Static ==> l.ret == crosses_as(member.ret),
{
}

/// What stays dynamic is what has no C form: a parameter is named by its place,
/// counted from one, and the result by zero.
pub proof fn law_what_has_no_c_form_is_dynamic(
    l: Link,
    iface: Interface,
    class: ClassIface,
    member: MethodIface,
    kind: Kind,
    langs: Seq<Seq<char>>,
    n: usize,
)
    requires
        links(l, iface, class, member, kind, langs),
    ensures
        0 < n <= member.params@.len() ==> (l.dynamic@.contains(n) <==> !has_c_form(
            member.params@[n - 1],
        )),
        l.dynamic@.contains(0) <==> !(kind is Constructor) && !(kind is Setter) && !has_c_form(
            member.ret,
        ),
        n > member.params@.len() ==> !l.dynamic@.contains(n),
{
    let own = dynamic_params(member.params@);
    assert(member.params.len() == member.params@.len());
    lemma_dynamic(member.params@, n);
    lemma_dynamic(member.params@, 0);
    let all = dynamic_types(member, kind);
    assert(l.dynamic@ == all);
    if all.len() > own.len() {
        assert(all[own.len() as int] == 0);
        assert forall|k: usize| own.contains(k) implies all.contains(k) by {
            let i = choose|i: int| 0 <= i < own.len() && own[i] == k;
            assert(all[i] == k);
        }
        if all.contains(n) {
            let i = choose|i: int| 0 <= i < all.len() && all[i] == n;
            if i < own.len() {
                assert(own[i] == n);
            }
        }
    }
}

proof fn lemma_dynamic(params: Seq<TypeRef>, n: usize)
    requires
        params.len() <= usize::MAX,
    ensures
        dynamic_params(params).contains(n) <==> 0 < n <= params.len() && !has_c_form(params[n - 1]),
    decreases params.len(),
{
    if params.len() > 0 {
        let init = dynamic_params(params.drop_last());
        let all = dynamic_params(params);
        lemma_dynamic(params.drop_last(), n);
        if all.len() > init.len() {
            assert(all[init.len() as int] == params.len() as usize);
            if init.contains(n) {
                let i = choose|i: int| 0 <= i < init.len() && init[i] == n;
                assert(all[i] == n);
            }
            if all.contains(n) {
                let i = choose|i: int| 0 <= i < all.len() && all[i] == n;
                if i < init.len() {
                    assert(init[i] == n);
                }
            }
        }
        if 0 < n < params.len() {
            assert(params.drop_last()[n - 1] == params[n - 1]);
        }
    }
}

/// A signature ends as a setter's does.
pub open spec fn ends_as_setter(sig: Seq<char>) -> bool {
    let n = sig.len();
    n >= 4 && sig[n - 4] == '=' && sig[n - 3] == '(' && sig[n - 2] == '_' && sig[n - 1] == ')'
}

/// A signature says what its member is: one that ends in `=(_)` a setter, any
/// other with a parenthesis a method, and a bare name a getter.
pub proof fn law_a_signature_says_the_kind(sig: Seq<char>)
    ensures
        kind_of_signature(sig) is Setter <==> ends_as_setter(sig),
        kind_of_signature(sig) is Getter <==> forall|i: int|
            0 <= i < sig.len() ==> #[trigger] sig[i] != '(',
        kind_of_signature(sig) is Method <==> !ends_as_setter(sig) && exists|i: int|
            0 <= i < sig.len() && #[trigger] sig[i] == '(',
{
    reveal_strlit("=(_)");
    let n = sig.len();
    if ends_as_setter(sig) {
        assert(sig[n - 3] == '(');
        assert("=(_)"@ =~= sig.subrange(n - 4, n as int));
    }
    if "=(_)"@.is_suffix_of(sig) {
        let tail = sig.subrange(n - 4, n as int);
        assert(tail[0] == '=' && tail[1] == '(' && tail[2] == '_' && tail[3] == ')');
        assert(sig[n - 3] == '(');
    }
    if sig.contains('(') {
        let i = choose|i: int| 0 <= i < sig.len() && sig[i] == '(';
        assert(sig[i] == '(');
    }
}

/// A build plans each method as what it is. A static has the letter `t` and no
/// receiver. Of the others, one sent by a bare name is a getter: it has the letter
/// `g`, takes its receiver, and gives the member's own result. One whose signature
/// ends in `=(_)` is a setter: it has the letter `s` and gives nothing. Every other
/// is a method, with the letter `m`.
pub proof fn law_a_method_is_planned_as_it_is(
    entry: (String, Link),
    iface: Interface,
    class: ClassIface,
    m: MethodIface,
    langs: Seq<Seq<char>>,
    names: Seq<Seq<char>>,
)
    requires
        plans_method(entry, iface, class, m, langs, names),
    ensures
        entry.0@ == class.name@ + "."@ + m.name@,
        m.is_static ==> {
            &&& entry.1.symbol@ == symbol_with(iface, class, m, langs, 't')
            &&& entry.1.ret == crosses_as(m.ret)
            &&& entry.1.params@.len() == m.params@.len()
        },
        !m.is_static ==> {
            &&& entry.1.params@.len() == m.params@.len() + 1
            &&& entry.1.params@[0] == CType::Object
            &&& match m.target {
                Callable::WrenMethod { class: _, signature, is_static: _ } => {
                    let sig = name_of(names, signature);
                    &&& ends_as_setter(sig) ==> entry.1.symbol@ == symbol_with(
                        iface,
                        class,
                        m,
                        langs,
                        's',
                    ) && entry.1.ret == CType::Void
                    &&& !sig.contains('(') ==> entry.1.symbol@ == symbol_with(
                        iface,
                        class,
                        m,
                        langs,
                        'g',
                    ) && entry.1.ret == crosses_as(m.ret)
                    &&& !ends_as_setter(sig) && sig.contains('(') ==> entry.1.symbol@
                        == symbol_with(iface, class, m, langs, 'm') && entry.1.ret == crosses_as(
                        m.ret,
                    )
                },
                _ => entry.1.symbol@ == symbol_with(iface, class, m, langs, 'm') && entry.1.ret
                    == crosses_as(m.ret),
            }
        },
{
    match m.target {
        Callable::WrenMethod { class: _, signature, is_static: _ } => {
            law_a_signature_says_the_kind(name_of(names, signature));
        },
        _ => {},
    }
}

/// A class is planned with every member it has: the constructor first, under the
/// letter `c` and giving an object, and then each method in order.
pub proof fn law_a_class_is_planned_whole(
    out: Seq<(String, Link)>,
    from: int,
    iface: Interface,
    class: ClassIface,
    langs: Seq<Seq<char>>,
    names: Seq<Seq<char>>,
)
    requires
        plans_class(out, from, iface, class, langs, names),
    ensures
        class.ctor matches Some(ctor) ==> {
            &&& out[from].0@ == class.name@ + ".new"@
            &&& out[from].1.symbol@ == symbol_with(iface, class, ctor, langs, 'c')
            &&& out[from].1.ret == CType::Object
            &&& out[from].1.params@.len() == ctor.params@.len()
        },
        forall|i: int|
            0 <= i < class.methods@.len() ==> (if class.ctor is Some {
                out[from + 1 + i]
            } else {
                out[from + i]
            }).0@ == class.name@ + "."@ + (#[trigger] class.methods@[i]).name@,
{
    assert forall|i: int| 0 <= i < class.methods@.len() implies (if class.ctor is Some {
        out[from + 1 + i]
    } else {
        out[from + i]
    }).0@ == class.name@ + "."@ + (#[trigger] class.methods@[i]).name@ by {
        assert(plans_method(
            out[from + ctors(class) + i],
            iface,
            class,
            class.methods@[i],
            langs,
            names,
        ));
    }
}

/// No member is planned twice and none is left out: the classes follow each other,
/// each with its constructor, if it has one, and its methods.
pub proof fn law_classes_follow_each_other(classes: Seq<ClassIface>, n: int)
    requires
        0 <= n < classes.len(),
    ensures
        members_before(classes, 0) == 0,
        members_before(classes, n + 1) == members_before(classes, n) + classes[n].methods@.len() + (
        if classes[n].ctor is Some {
            1int
        } else {
            0int
        }),
{
}

/// A letter, a digit or an underscore.
pub open spec fn identifier_char(c: char) -> bool {
    'a' <= c <= 'z' || 'A' <= c <= 'Z' || '0' <= c <= '9' || c == '_'
}

/// What a name is in a symbol is made of a C identifier's characters, whatever the
/// name holds, and keeps its letters and digits as they are.
pub proof fn law_a_name_is_escaped_for_c(text: Seq<char>)
    ensures
        forall|i: int|
            0 <= i < escaped(text).len() ==> identifier_char(#[trigger] escaped(text)[i]),
        forall|i: int| 0 <= i < segment(text).len() ==> identifier_char(#[trigger] segment(text)[i]),
{
    lemma_escaped_chars(encode_utf8(text));
    lemma_decimal_chars(escaped(text).len());
    let s = segment(text);
    let d = decimal(escaped(text).len());
    assert forall|i: int| 0 <= i < s.len() implies identifier_char(#[trigger] s[i]) by {
        if i < d.len() {
            assert(s[i] == d[i]);
        } else {
            assert(s[i] == escaped(text)[i - d.len()]);
        }
    }
}

proof fn lemma_escaped_chars(bytes: Seq<u8>)
    ensures
        forall|i: int|
            0 <= i < escaped_bytes(bytes).len() ==> identifier_char(
                #[trigger] escaped_bytes(bytes)[i],
            ),
    decreases bytes.len(),
{
    if bytes.len() > 0 {
        lemma_escaped_chars(bytes.drop_first());
        let b = bytes[0];
        let head = crate::link::escaped_byte(b);
        assert forall|i: int| 0 <= i < head.len() implies identifier_char(#[trigger] head[i]) by {
            if !plain(b) {
                assert(0 <= b as int / 16 < 16 && 0 <= b as int % 16 < 16);
                if i == 1 {
                    assert(head[1] == hex_char(b as int / 16));
                }
                if i == 2 {
                    assert(head[2] == hex_char(b as int % 16));
                }
            }
        }
        let rest = escaped_bytes(bytes.drop_first());
        let all = escaped_bytes(bytes);
        assert forall|i: int| 0 <= i < all.len() implies identifier_char(#[trigger] all[i]) by {
            if i < head.len() {
                assert(all[i] == head[i]);
            } else {
                assert(all[i] == rest[i - head.len()]);
            }
        }
    }
}

proof fn lemma_decimal_chars(n: nat)
    ensures
        forall|i: int| 0 <= i < decimal(n).len() ==> '0' <= #[trigger] decimal(n)[i] <= '9',
    decreases n,
{
    if n >= 10 {
        lemma_decimal_chars(n / 10);
        let init = decimal(n / 10);
        assert forall|i: int| 0 <= i < decimal(n).len() implies '0' <= #[trigger] decimal(n)[i]
            <= '9' by {
            if i < init.len() {
                assert(decimal(n)[i] == init[i]);
            } else {
                assert(decimal(n)[i] == digit_char((n % 10) as int));
            }
        }
    }
}

/// Letters and digits stand for themselves; any other byte is an underscore and its two
/// digits in base sixteen. Bytes are escaped one after the other, and a name is led by
/// the length it then has.
pub proof fn law_bytes_are_escaped_in_order(b: u8, x: Seq<u8>, y: Seq<u8>, text: Seq<char>)
    ensures
        escaped_bytes(x + y) == escaped_bytes(x) + escaped_bytes(y),
        (48 <= b <= 57 || 65 <= b <= 90 || 97 <= b <= 122) ==> escaped_bytes(seq![b]) =~= seq![
            b as char,
        ],
        !(48 <= b <= 57 || 65 <= b <= 90 || 97 <= b <= 122) ==> {
            let e = escaped_bytes(seq![b]);
            &&& e.len() == 3
            &&& e[0] == '_'
            &&& digit_worth(e[1]) * 16 + digit_worth(e[2]) == b
        },
        segment(text) == decimal(escaped(text).len()) + escaped(text),
        escaped(text) == escaped_bytes(encode_utf8(text)),
    decreases x.len(),
{
    reveal_with_fuel(escaped_bytes, 2);
    let one = seq![b];
    assert(one.drop_first() =~= Seq::<u8>::empty());
    assert(crate::link::escaped_byte(b) + Seq::<char>::empty() =~= crate::link::escaped_byte(b));
    if x.len() == 0 {
        assert(x + y =~= y);
        assert(Seq::<char>::empty() + escaped_bytes(y) =~= escaped_bytes(y));
    } else {
        law_bytes_are_escaped_in_order(b, x.drop_first(), y, text);
        assert((x + y).drop_first() =~= x.drop_first() + y);
        assert(crate::link::escaped_byte(x[0]) + (escaped_bytes(x.drop_first()) + escaped_bytes(y))
            =~= crate::link::escaped_byte(x[0]) + escaped_bytes(x.drop_first()) + escaped_bytes(y));
    }
}

/// What a digit in base sixteen is worth.
pub open spec fn digit_worth(c: char) -> int {
    if '0' <= c <= '9' {
        c as int - '0' as int
    } else {
        c as int - 'a' as int + 10
    }
}

/// A number in base sixteen is worth itself: the last digit is what is left over, and
/// the digits before it are what it holds.
pub proof fn law_numbers_in_base_sixteen(n: nat)
    ensures
        hex(n).len() > 0,
        digit_worth(hex(n).last()) == n % 16,
        n >= 16 ==> hex(n).drop_last() =~= hex(n / 16),
        n < 16 ==> hex(n).len() == 1,
        n < 10 ==> '0' <= hex(n)[0] <= '9',
        10 <= n < 16 ==> 'a' <= hex(n)[0] <= 'f',
{
}

/// Parameters stand one after the other, with commas between them.
pub proof fn law_parameters_are_listed(params: Seq<CType>, t: CType)
    ensures
        param_list(seq![t]) == t.spelled(),
        params.len() > 0 ==> param_list(params.push(t)) == param_list(params) + ", "@ + t.spelled(),
{
    assert(params.push(t).drop_last() =~= params);
}

} // verus!
