//! What holds of the modules that are published, and of how they are found and
//! described.

use vstd::prelude::*;
use vstd::string::*;

use crate::describe::{
    blanks, describes_class, describes_member, describes_module, describes_param, kind_in,
    leading, spelled, MemberKind, ModuleDesc,
};
use crate::namespace::{texts, Namespace};
use crate::protocol::Callable;
use crate::registry::files::{came_from, is_of, SourceFile};
use crate::registry::publish::{
    clashes, clashes_in, clashes_with, last_class, names_clash, names_type, of_lang, published,
    shared_name, type_at, without, Registry, TypeEntry,
};
use crate::registry::resolve::{
    covered, first_spelling, ids_of, names_in, namespace_index, next_loader, remainder, resolved,
    resolved_in, shows, spellings,
};
use crate::registry::{
    class_index, same_type, ClassIface, Interface, MethodIface, MethodKind, TypeRef,
};
use crate::symbol::{id_of, interned, is_table, name_of, Symbol};
use crate::text::decimal;
use crate::value::LangId;
use crate::world::{id_of_language, RegisterError};

verus! {

// Types.

/// Every type is the same as itself.
pub proof fn law_a_type_is_itself(a: TypeRef)
    ensures
        same_type(a, a),
    decreases a,
{
    match a {
        TypeRef::Array(x) => {
            law_a_type_is_itself(*x);
        },
        TypeRef::Future(x) => {
            law_a_type_is_itself(*x);
        },
        TypeRef::Function { params: p, ret: r } => {
            law_a_type_is_itself(*r);
            assert forall|i: int| 0 <= i < p@.len() implies same_type(#[trigger] p@[i], p@[i]) by {
                law_a_type_is_itself(p@[i]);
            }
        },
        _ => {},
    }
}

/// Types are the same both ways.
pub proof fn law_types_are_the_same_both_ways(a: TypeRef, b: TypeRef)
    requires
        same_type(a, b),
    ensures
        same_type(b, a),
    decreases a,
{
    match (a, b) {
        (TypeRef::Array(x), TypeRef::Array(y)) => {
            law_types_are_the_same_both_ways(*x, *y);
        },
        (TypeRef::Future(x), TypeRef::Future(y)) => {
            law_types_are_the_same_both_ways(*x, *y);
        },
        (TypeRef::Function { params: p, ret: r }, TypeRef::Function { params: q, ret: s }) => {
            law_types_are_the_same_both_ways(*r, *s);
            assert forall|i: int| 0 <= i < q@.len() implies same_type(#[trigger] q@[i], p@[i]) by {
                let _ = p@[i];
                law_types_are_the_same_both_ways(p@[i], q@[i]);
            }
        },
        _ => {},
    }
}

/// Types of two sorts, or with two names, are not the same.
pub proof fn law_types_differ(a: TypeRef, b: TypeRef)
    requires
        same_type(a, b),
    ensures
        a is Void == b is Void && a is Bool == b is Bool && a is Int == b is Int,
        a is Int64 == b is Int64 && a is Float == b is Float && a is Str == b is Str,
        a is Buffer == b is Buffer && a is Dyn == b is Dyn && a is Fun == b is Fun,
        a is Object == b is Object && a is Enum == b is Enum && a is Array == b is Array,
        a is Future == b is Future && a is Function == b is Function,
        a matches TypeRef::Object(x) ==> (b matches TypeRef::Object(y) ==> x@ == y@),
        a matches TypeRef::Enum(x) ==> (b matches TypeRef::Enum(y) ==> x@ == y@),
        a matches TypeRef::Array(x) ==> (b matches TypeRef::Array(y) ==> same_type(*x, *y)),
        a matches TypeRef::Future(x) ==> (b matches TypeRef::Future(y) ==> same_type(*x, *y)),
        a matches TypeRef::Function { params: p, ret: r } ==> (b matches TypeRef::Function {
            params: q,
            ret: s,
        } ==> p@.len() == q@.len() && same_type(*r, *s)),
{
}

// Names.

/// A class is found by its name, the first that has it.
pub proof fn law_a_class_is_found(classes: Seq<ClassIface>, name: Seq<char>)
    ensures
        match class_index(classes, name) {
            Some(i) => {
                &&& 0 <= i < classes.len()
                &&& classes[i].name@ == name
                &&& forall|k: int| 0 <= k < i ==> (#[trigger] classes[k]).name@ != name
            },
            None => forall|k: int| 0 <= k < classes.len() ==> (#[trigger] classes[k]).name@ != name,
        },
    decreases classes.len(),
{
    if classes.len() > 0 {
        let front = classes.drop_last();
        law_a_class_is_found(front, name);
        assert forall|k: int| 0 <= k < front.len() implies front[k] == #[trigger] classes[k] by {}
    }
}

/// A namespace is found by its name, the first that has it.
pub proof fn law_a_namespace_is_found(all: Seq<Namespace>, name: Seq<char>)
    ensures
        match namespace_index(all, name) {
            Some(i) => {
                &&& 0 <= i < all.len()
                &&& all[i].name@ == name
                &&& forall|k: int| 0 <= k < i ==> (#[trigger] all[k]).name@ != name
            },
            None => forall|k: int| 0 <= k < all.len() ==> (#[trigger] all[k]).name@ != name,
        },
    decreases all.len(),
{
    if all.len() > 0 {
        let front = all.drop_last();
        law_a_namespace_is_found(front, name);
        assert forall|k: int| 0 <= k < front.len() implies front[k] == #[trigger] all[k] by {}
    }
}

/// What is left of a module's name inside a namespace is what follows the namespace's
/// name and a dot or a slash, where something does.
pub proof fn law_the_rest_of_a_name(ns: Seq<char>, module: Seq<char>, rest: Seq<char>)
    ensures
        remainder(ns, module) == Some(rest) <==> rest.len() > 0 && (module =~= ns + seq!['.'] + rest
            || module =~= ns + seq!['/'] + rest),
{
    let n = ns.len() as int;
    if remainder(ns, module) == Some(rest) {
        assert(module.take(n) =~= ns);
        assert(module =~= ns + seq![module[n]] + rest);
    }
    if rest.len() > 0 && (module =~= ns + seq!['.'] + rest || module =~= ns + seq!['/'] + rest) {
        assert(ns.is_prefix_of(module));
        assert(module.skip(n + 1) =~= rest);
    }
}

/// A module is imported under its own name, and under what is left of it in the
/// namespace; not at all where the namespace does not show it.
pub proof fn law_the_names_of_an_import(ns: Namespace, module: Seq<char>, name: Seq<char>)
    ensures
        names_in(ns, module).contains(name) <==> (ns.modules matches Some(list) ==> texts(
            list@,
        ).contains(module)) && (name == module || (name.len() > 0 && (module =~= ns.name@ + seq!['.']
            + name || module =~= ns.name@ + seq!['/'] + name))),
{
    law_the_rest_of_a_name(ns.name@, module, name);
    let all = names_in(ns, module);
    if shows(ns, module) {
        assert(all[0] == module);
        if let Some(rest) = remainder(ns.name@, module) {
            assert(all[1] == rest);
        }
    }
}

/// A name that two lists share is in both, and is the first of the second; where none
/// is found, they share none.
pub proof fn law_a_shared_name(mine: Seq<Seq<char>>, other: Seq<Seq<char>>)
    ensures
        match shared_name(mine, other) {
            Some(name) => exists|i: int|
                0 <= i < other.len() && #[trigger] other[i] == name && mine.contains(name)
                    && forall|k: int| 0 <= k < i ==> !mine.contains(#[trigger] other[k]),
            None => forall|k: int| 0 <= k < other.len() ==> !mine.contains(#[trigger] other[k]),
        },
    decreases other.len(),
{
    if other.len() > 0 {
        if mine.contains(other[0]) {
            assert(other[0] == shared_name(mine, other)->0);
        } else {
            let rest = other.drop_first();
            law_a_shared_name(mine, rest);
            assert forall|k: int| 0 < k < other.len() implies #[trigger] other[k] == rest[k - 1] by {}
            if let Some(name) = shared_name(mine, rest) {
                let i = choose|i: int|
                    0 <= i < rest.len() && #[trigger] rest[i] == name && mine.contains(name)
                        && forall|k: int| 0 <= k < i ==> !mine.contains(#[trigger] rest[k]);
                assert(other[i + 1] == name);
            }
        }
    }
}

// Publishing.

/// A publication clashes exactly when another language of a namespace it is in has
/// published a module that can be imported by the same name.
pub proof fn law_when_names_clash(
    reg: &Registry,
    names: Seq<Seq<char>>,
    lang: Seq<char>,
    module: Seq<char>,
    a: int,
    b: int,
    c: int,
    name: Seq<char>,
)
    requires
        0 <= a < reg.namespaces@.len(),
        0 <= b < reg.namespaces@[a].langs@.len(),
        0 <= c < reg.interfaces@.len(),
    ensures
        ({
            let ns = reg.namespaces@[a];
            let other = reg.namespaces@[a].langs@[b]@;
            let theirs = reg.interfaces@[c];
            &&& texts(ns.langs@).contains(lang) && other != lang && id_of_language(names, other)
                == Some(theirs.lang) && names_in(ns, module).contains(name) && names_in(
                ns,
                theirs.module@,
            ).contains(name) ==> clashes(reg, names, lang, module, a, b, c) && clashes_with(
                reg,
                names,
                lang,
                module,
                a,
                b,
            ) && clashes_in(reg, names, lang, module, a)
            &&& clashes(reg, names, lang, module, a, b, c) ==> texts(ns.langs@).contains(lang)
                && other != lang && id_of_language(names, other) == Some(theirs.lang) && exists|
                n: Seq<char>,
            | #[trigger]
                names_in(ns, module).contains(n) && names_in(ns, theirs.module@).contains(n)
        }),
{
    let ns = reg.namespaces@[a];
    let theirs = reg.interfaces@[c];
    let mine = names_in(ns, module);
    let other = names_in(ns, theirs.module@);
    law_a_shared_name(mine, other);
    assert(texts(ns.langs@)[b] == ns.langs@[b]@);
    if mine.contains(name) && other.contains(name) {
        let k = choose|k: int| 0 <= k < other.len() && other[k] == name;
        assert(mine.contains(other[k]));
        if texts(ns.langs@).contains(lang) && ns.langs@[b]@ != lang && id_of_language(
            names,
            ns.langs@[b]@,
        ) == Some(theirs.lang) {
            assert(clashes(reg, names, lang, module, a, b, c));
            assert(clashes_with(reg, names, lang, module, a, b));
        }
    }
    if clashes(reg, names, lang, module, a, b, c) {
        let n = shared_name(mine, other)->0;
        assert(mine.contains(n) && other.contains(n));
    }
}

/// A clash is told by the namespace, the name that both would have, the language that
/// publishes, and the one that has it.
pub proof fn law_a_clash_is_told(
    reg: &Registry,
    names: Seq<Seq<char>>,
    lang: Seq<char>,
    module: Seq<char>,
    e: RegisterError,
)
    requires
        names_clash(reg, names, lang, module, e),
    ensures
        e matches RegisterError::ModuleClash { namespace: n, module: m, langs: l } && {
            &&& l[0]@ == lang
            &&& l[1]@ != lang
            &&& exists|a: int| #![trigger reg.namespaces@[a]]
                {
                    &&& 0 <= a < reg.namespaces@.len()
                    &&& reg.namespaces@[a].name@ == n@
                    &&& names_in(reg.namespaces@[a], module).contains(m@)
                    &&& texts(reg.namespaces@[a].langs@).contains(lang)
                    &&& texts(reg.namespaces@[a].langs@).contains(l[1]@)
                }
        },
{
    let (a, b, c) = choose|a: int, b: int, c: int|
        #![trigger clashes(reg, names, lang, module, a, b, c)]
        {
            &&& 0 <= a < reg.namespaces@.len()
            &&& 0 <= b < reg.namespaces@[a].langs@.len()
            &&& 0 <= c < reg.interfaces@.len()
            &&& clashes(reg, names, lang, module, a, b, c)
            &&& crate::registry::publish::error_names(
                e,
                reg.namespaces@[a].name@,
                shared_name(
                    names_in(reg.namespaces@[a], module),
                    names_in(reg.namespaces@[a], reg.interfaces@[c].module@),
                )->0,
                lang,
                texts(reg.namespaces@[a].langs@)[b],
            )
        };
    let ns = reg.namespaces@[a];
    law_a_shared_name(names_in(ns, module), names_in(ns, reg.interfaces@[c].module@));
    assert(texts(ns.langs@)[b] == texts(ns.langs@)[b]);
}

/// The modules of a language are those that it published, in their order; without one
/// the others are left, in theirs.
pub proof fn law_modules_by_language(all: Seq<Interface>, lang: LangId, module: Seq<char>)
    ensures
        of_lang(all, lang) == all.filter(|i: Interface| i.lang == lang),
        without(all, lang, module) == all.filter(
            |i: Interface| i.lang != lang || i.module@ != module,
        ),
    decreases all.len(),
{
    reveal(Seq::filter);
    if all.len() > 0 {
        law_modules_by_language(all.drop_last(), lang, module);
    }
}

/// The class that a type leads to is the last of that type.
pub proof fn law_the_last_class_of_a_type(classes: Seq<ClassIface>, ty_name: Seq<char>, k: int)
    requires
        0 <= k < classes.len(),
        classes[k].ty_name@ == ty_name,
    ensures
        k <= last_class(classes, ty_name) < classes.len(),
        classes[last_class(classes, ty_name)].ty_name@ == ty_name,
        names_type(classes, ty_name),
    decreases classes.len(),
{
    if classes.last().ty_name@ != ty_name {
        let front = classes.drop_last();
        assert(front[k] == classes[k]);
        law_the_last_class_of_a_type(front, ty_name, k);
    }
}

/// A type is found where it was recorded.
pub proof fn law_a_type_is_found(list: Seq<TypeEntry>, i: int)
    requires
        0 <= i < list.len(),
    ensures
        type_at(list, list[i].lang, list[i].ty_name@, list[i].module@, list[i].index),
{
}

// Resolving.

/// A module that is asked for is tried as it is, then behind the namespace with a dot,
/// then with a slash: the first that is shown and published.
pub proof fn law_spellings_are_tried_in_order(
    all: Seq<Interface>,
    ns: Namespace,
    lang: LangId,
    module: Seq<char>,
)
    ensures
        ({
            let dotted = ns.name@ + seq!['.'] + module;
            let slashed = ns.name@ + seq!['/'] + module;
            let has = |m: Seq<char>| shows(ns, m) && published(all, lang, m);
            first_spelling(all, ns, lang, spellings(ns.name@, module)) == if has(module) {
                Some(module)
            } else if has(dotted) {
                Some(dotted)
            } else if has(slashed) {
                Some(slashed)
            } else {
                None
            }
        }),
{
    reveal_strlit(".");
    reveal_strlit("/");
    let list = spellings(ns.name@, module);
    assert("."@ =~= seq!['.']);
    assert("/"@ =~= seq!['/']);
    reveal_with_fuel(first_spelling, 4);
    assert(list.drop_first()[0] == list[1]);
    assert(list.drop_first().drop_first()[0] == list[2]);
    assert(list.drop_first().drop_first().drop_first().len() == 0);
}

/// What is resolved is there: a module that its language published, shown by the
/// namespace, under one of the names that it may have, in the first language of the
/// namespace that has one.
pub proof fn law_what_is_resolved_is_there(
    all: Seq<Interface>,
    names: Seq<Seq<char>>,
    ns: Namespace,
    langs: Seq<Seq<char>>,
    module: Seq<char>,
)
    ensures
        match resolved_in(all, names, ns, langs, module) {
            Some((id, m)) => {
                &&& published(all, id, m)
                &&& shows(ns, m)
                &&& m == module || m == ns.name@ + seq!['.'] + module || m == ns.name@ + seq!['/']
                    + module
                &&& exists|k: int|
                    0 <= k < langs.len() && id_of_language(names, #[trigger] langs[k]) == Some(id)
                        && forall|j: int|
                        0 <= j < k ==> (id_of_language(names, #[trigger] langs[j]) matches Some(other)
                            ==> !(shows(ns, module) && published(all, other, module)))
            },
            None => forall|j: int|
                0 <= j < langs.len() ==> (id_of_language(names, #[trigger] langs[j]) matches Some(
                    other,
                ) ==> !(shows(ns, module) && published(all, other, module))),
        },
    decreases langs.len(),
{
    if langs.len() > 0 {
        let rest = langs.drop_first();
        law_what_is_resolved_is_there(all, names, ns, rest, module);
        assert forall|j: int| 0 < j < langs.len() implies #[trigger] langs[j] == rest[j - 1] by {}
        let first = langs[0];
        if let Some(id) = id_of_language(names, langs[0]) {
            law_spellings_are_tried_in_order(all, ns, id, module);
        }
        if let Some((id, m)) = resolved_in(all, names, ns, langs, module) {
            let here = match id_of_language(names, langs[0]) {
                Some(own) => first_spelling(all, ns, own, spellings(ns.name@, module)) is Some,
                None => false,
            };
            if here {
                assert(id_of_language(names, langs[0]) == Some(id));
            } else {
                let k = choose|k: int|
                    0 <= k < rest.len() && id_of_language(names, #[trigger] rest[k]) == Some(id)
                        && forall|j: int|
                        0 <= j < k ==> (id_of_language(names, #[trigger] rest[j]) matches Some(other)
                            ==> !(shows(ns, module) && published(all, other, module)));
                assert(langs[k + 1] == rest[k]);
                assert forall|j: int| 0 <= j < k + 1 implies (id_of_language(
                    names,
                    #[trigger] langs[j],
                ) matches Some(other) ==> !(shows(ns, module) && published(all, other, module))) by {
                    if j > 0 {
                        assert(langs[j] == rest[j - 1]);
                    }
                }
            }
        }
    }
}

/// A module is looked for in the namespace of the name, and, where there is none, in
/// the language of the name, under its own name alone.
pub proof fn law_where_a_module_is_looked_for(
    reg: &Registry,
    names: Seq<Seq<char>>,
    namespace: Seq<char>,
    module: Seq<char>,
    i: int,
)
    ensures
        namespace_index(reg.namespaces@, namespace) == Some(i) ==> resolved(
            reg,
            names,
            namespace,
            module,
        ) == resolved_in(
            reg.interfaces@,
            names,
            reg.namespaces@[i],
            texts(reg.namespaces@[i].langs@),
            module,
        ),
        namespace_index(reg.namespaces@, namespace) is None && id_of_language(names, namespace)
            is None ==> resolved(reg, names, namespace, module) is None && covered(
            reg,
            names,
            namespace,
        ).len() == 0,
        namespace_index(reg.namespaces@, namespace) is None ==> match id_of_language(names, namespace) {
            Some(id) => covered(reg, names, namespace) == seq![id] && (resolved(
                reg,
                names,
                namespace,
                module,
            ) matches Some((l, m)) ==> l == id && m == module && published(
                reg.interfaces@,
                id,
                module,
            )),
            None => true,
        },
{
}

/// The languages that may be asked to load are those of the namespace that are known.
pub proof fn law_known_languages_are_asked(names: Seq<Seq<char>>, list: Seq<Seq<char>>, id: LangId)
    ensures
        ids_of(names, list).contains(id) <==> exists|k: int|
            0 <= k < list.len() && id_of_language(names, #[trigger] list[k]) == Some(id),
        ids_of(names, list).len() <= list.len(),
    decreases list.len(),
{
    if list.len() > 0 {
        let front = list.drop_last();
        law_known_languages_are_asked(names, front, id);
        assert forall|k: int| 0 <= k < front.len() implies front[k] == #[trigger] list[k] by {}
        let init = ids_of(names, front);
        let all = ids_of(names, list);
        let last = list[list.len() - 1];
        if all.contains(id) {
            let i = choose|i: int| 0 <= i < all.len() && all[i] == id;
            if i < init.len() {
                assert(init[i] == id);
                let k = choose|k: int|
                    0 <= k < front.len() && id_of_language(names, #[trigger] front[k]) == Some(id);
                assert(list[k] == front[k]);
            } else {
                assert(id_of_language(names, last) == Some(id));
            }
        }
        if exists|k: int| 0 <= k < list.len() && id_of_language(names, #[trigger] list[k]) == Some(id) {
            let k = choose|k: int|
                0 <= k < list.len() && id_of_language(names, #[trigger] list[k]) == Some(id);
            if k < front.len() {
                assert(front[k] == list[k]);
                let i = choose|i: int| 0 <= i < init.len() && init[i] == id;
                assert(all[i] == id);
            } else {
                assert(all[all.len() - 1] == id);
            }
        }
    }
}

/// The next to be asked is the first from there on that has a loader.
pub proof fn law_the_next_loader(langs: Seq<LangId>, loaders: Seq<LangId>, from: int)
    requires
        0 <= from,
    ensures
        match next_loader(langs, loaders, from) {
            Some(i) => {
                &&& from <= i < langs.len()
                &&& loaders.contains(langs[i])
                &&& forall|k: int| from <= k < i ==> !loaders.contains(#[trigger] langs[k])
            },
            None => forall|k: int| from <= k < langs.len() ==> !loaders.contains(#[trigger] langs[k]),
        },
    decreases langs.len() - from,
{
    if from < langs.len() && !loaders.contains(langs[from]) {
        law_the_next_loader(langs, loaders, from + 1);
    }
}

// Describing.

/// The blanks of a signature are as many as there are parameters, with commas between.
pub proof fn law_blanks_stand_for_parameters(n: nat, k: int)
    requires
        n > 0,
    ensures
        blanks(0).len() == 0,
        blanks(n).len() == 2 * n - 1,
        0 <= k < 2 * n - 1 ==> blanks(n)[k] == if k % 2 == 0 {
            '_'
        } else {
            ','
        },
    decreases n,
{
    reveal_strlit("_");
    reveal_strlit(",");
    if n > 1 {
        law_blanks_stand_for_parameters((n - 1) as nat, k);
    }
}

/// A method is spelled as its target says, or as its name with a blank for each
/// parameter.
pub proof fn law_a_method_is_spelled(m: MethodIface, names: Seq<Seq<char>>)
    ensures
        m.target matches Callable::WrenMethod { signature, .. } ==> spelled(m, names) == name_of(
            names,
            signature,
        ),
        !(m.target is WrenMethod) ==> {
            let s = spelled(m, names);
            &&& s.len() == m.name@.len() + 2 + blanks(m.params@.len()).len()
            &&& s.take(m.name@.len() as int) =~= m.name@
            &&& s[m.name@.len() as int] == '('
            &&& s.last() == ')'
            &&& s.subrange(m.name@.len() as int + 1, s.len() - 1) =~= blanks(m.params@.len())
        },
{
    reveal_strlit("(");
    reveal_strlit(")");
}

/// What kind of member a method is: one that makes an object of the class without
/// having one is a factory, another without one is static, and the others are what
/// their target is.
pub proof fn law_kinds_of_members(m: MethodIface, class: Seq<char>, names: Seq<Seq<char>>)
    ensures
        m.is_static && (m.ret matches TypeRef::Object(s) && s@ == class) <==> kind_in(
            m,
            class,
            names,
        ) is Factory,
        m.is_static && !(m.ret matches TypeRef::Object(s) && s@ == class) <==> kind_in(
            m,
            class,
            names,
        ) is Static,
        !m.is_static && !(m.target is WrenMethod) ==> kind_in(m, class, names) is Method,
        !(kind_in(m, class, names) is Constructor),
        MethodKind::Getter.as_member() is Getter,
        MethodKind::Setter.as_member() is Setter,
        MethodKind::Method.as_member() is Method,
{
}

/// A member is described as it is: its name, its signature, its result, and its
/// parameters in order, named by their places.
pub proof fn law_a_member_is_described(
    d: crate::describe::MemberDesc,
    m: MethodIface,
    kind: MemberKind,
    names: Seq<Seq<char>>,
    j: int,
)
    requires
        describes_member(d, m, kind, names),
    ensures
        d.name@ == m.name@,
        d.kind == kind,
        d.signature@ == spelled(m, names),
        same_type(d.ret, m.ret),
        d.params@.len() == m.params@.len(),
        0 <= j < m.params@.len() ==> d.params@[j].name@ == "a"@ + decimal(j as nat) && same_type(
            d.params@[j].ty,
            m.params@[j],
        ),
{
    if 0 <= j < m.params@.len() {
        assert(describes_param(d.params@[j], m.params@[j], j));
    }
}

/// A module is described as it is: each class in its place, with its names, its fields
/// and statics, its constructor first and its methods after it, in their order.
pub proof fn law_a_module_is_described(
    d: ModuleDesc,
    i: Interface,
    lang: Seq<char>,
    names: Seq<Seq<char>>,
    k: int,
    j: int,
)
    requires
        describes_module(d, i, lang, names),
        0 <= k < i.classes@.len(),
    ensures
        d.lang@ == lang,
        d.module@ == i.module@,
        d.classes@.len() == i.classes@.len(),
        ({
            let c = i.classes@[k];
            let e = d.classes@[k];
            let first = if c.ctor is Some {
                1int
            } else {
                0
            };
            &&& e.name@ == c.name@
            &&& e.ty_name@ == c.ty_name@
            &&& c.superclass matches Some(s) ==> (e.superclass matches Some(t) && t@ == s@)
            &&& c.superclass is None ==> e.superclass is None
            &&& e.fields@.len() == c.fields@.len()
            &&& e.statics@.len() == c.statics@.len()
            &&& 0 <= j < c.fields@.len() ==> e.fields@[j].name@ == c.fields@[j].name@ && same_type(
                e.fields@[j].ty,
                c.fields@[j].ty,
            )
            &&& 0 <= j < c.statics@.len() ==> e.statics@[j].name@ == c.statics@[j].name@
                && same_type(e.statics@[j].ty, c.statics@[j].ty)
            &&& e.members@.len() == first + c.methods@.len()
            &&& c.ctor matches Some(m) ==> e.members@[0].kind is Constructor
                && e.members@[0].name@ == m.name@
            &&& 0 <= j < c.methods@.len() ==> {
                let m = c.methods@[j];
                let n = e.members@[first + j];
                &&& n.name@ == m.name@
                &&& n.kind == kind_in(m, c.ty_name@, names)
                &&& n.params@.len() == m.params@.len()
                &&& same_type(n.ret, m.ret)
            }
        }),
{
    let c = i.classes@[k];
    let e = d.classes@[k];
    assert(describes_class(e, c, names));
    if 0 <= j < c.fields@.len() {
        let _ = e.fields@[j];
    }
    if 0 <= j < c.statics@.len() {
        let _ = e.statics@[j];
    }
    if 0 <= j < c.methods@.len() {
        let at = leading(c) + j;
        let _ = e.members@[at];
        assert(c.methods@[at - leading(c)] == c.methods@[j]);
        assert(describes_member(
            e.members@[at],
            c.methods@[j],
            kind_in(c.methods@[j], c.ty_name@, names),
            names,
        ));
    }
}

// Symbols.

/// A name that is interned is there, once; the names before it stay where they are.
pub proof fn law_a_name_is_interned_once(names: Seq<Seq<char>>, name: Seq<char>, k: int)
    requires
        is_table(names),
        names.len() < 4194304,
    ensures
        is_table(interned(names, name)),
        interned(interned(names, name), name) == interned(names, name),
        id_of(interned(names, name), name) matches Some(s) && name_of(interned(names, name), s)
            == name,
        0 <= k < names.len() ==> interned(names, name)[k] == names[k],
        !names.contains(name) ==> id_of(interned(names, name), name) == Some(
            Symbol(names.len() as u32),
        ),
        id_of(names, Seq::empty()) == Some(Symbol(0)),
        k >= names.len() && k <= u32::MAX ==> name_of(names, Symbol(k as u32)).len() == 0,
{
    let more = interned(names, name);
    if !names.contains(name) {
        assert(more[names.len() as int] == name);
        assert forall|i: int, j: int|
            0 <= i < more.len() && 0 <= j < more.len() && i != j implies more[i] != more[j] by {
            if i < names.len() && j < names.len() {
                assert(names[i] != names[j]);
            } else if i < names.len() {
                assert(names.contains(names[i]));
            } else {
                assert(names.contains(names[j]));
            }
        }
    }
    assert(more.contains(name));
    assert(more[more.index_of(name)] == name);
    assert(names.contains(names[0]));
    assert(names[names.index_of(Seq::empty())] == names[0]);
}

// Files.

/// A module came from the file that was recorded for it, in its own language.
pub proof fn law_a_module_came_from_its_file(list: Seq<SourceFile>, i: int, path: Seq<char>)
    requires
        0 <= i < list.len(),
        forall|k: int|
            0 <= k < list.len() && k != i ==> (#[trigger] list[k]).lang != list[i].lang
                || list[k].module@ != list[i].module@,
    ensures
        came_from(list, list[i].lang, list[i].module@, path) <==> path == list[i].path@,
{
    assert(is_of(list[i], list[i].lang, list[i].module@));
}

} // verus!
