//! The table of published interfaces, and what a publication may not do.

use vstd::prelude::*;

use crate::namespace::{texts, Namespace};
use crate::registry::resolve::{contains_text, import_names, names_in};
use crate::registry::{ClassIface, Interface};
use crate::text::same_text;
use crate::value::LangId;
use crate::world::{id_of_language, is_languages, name_of_language, Languages, RegisterError};

verus! {

/// Where the class whose instances a language names `ty_name` is.
pub struct TypeEntry {
    pub lang: LangId,
    pub ty_name: String,
    pub module: String,
    pub index: usize,
}

/// The published interfaces, one per language and module.
pub struct Registry {
    pub interfaces: Vec<Interface>,
    pub by_type: Vec<TypeEntry>,
    pub namespaces: Vec<Namespace>,
    /// Changes whenever an interface is published, so anything resolved under
    /// one generation is still right while it lasts.
    pub generation: u64,
}

/// Whether `lang` has published `module`.
pub open spec fn published(all: Seq<Interface>, lang: LangId, module: Seq<char>) -> bool {
    exists|i: int| 0 <= i < all.len() && is_module(#[trigger] all[i], lang, module)
}

pub open spec fn is_module(i: Interface, lang: LangId, module: Seq<char>) -> bool {
    i.lang == lang && i.module@ == module
}

/// Whether the entry is for `ty_name` of `lang`.
pub open spec fn is_type(e: TypeEntry, lang: LangId, ty_name: Seq<char>) -> bool {
    e.lang == lang && e.ty_name@ == ty_name
}

/// Whether `list` says that the class of `ty_name` is class `index` of
/// `module`.
pub open spec fn type_at(
    list: Seq<TypeEntry>,
    lang: LangId,
    ty_name: Seq<char>,
    module: Seq<char>,
    index: usize,
) -> bool {
    exists|i: int|
        0 <= i < list.len() && is_type(#[trigger] list[i], lang, ty_name) && list[i].module@
            == module && list[i].index == index
}

/// Whether the entry leads to a class that is there, and is the one it names.
pub open spec fn leads(e: TypeEntry, all: Seq<Interface>) -> bool {
    exists|k: int|
        0 <= k < all.len() && is_module(#[trigger] all[k], e.lang, e.module@) && e.index
            < all[k].classes.len() && all[k].classes@[e.index as int].ty_name@ == e.ty_name@
}

impl Registry {
    /// One interface per language and module, one entry per type, and every
    /// entry leads to its class.
    pub open spec fn inv(&self) -> bool {
        &&& forall|i: int, j: int|
            #![trigger self.interfaces@[i], self.interfaces@[j]]
            0 <= i < j < self.interfaces@.len() ==> !(self.interfaces@[i].lang
                == self.interfaces@[j].lang && self.interfaces@[i].module@
                == self.interfaces@[j].module@)
        &&& types_apart(self.by_type@)
        &&& forall|i: int|
            0 <= i < self.by_type@.len() ==> leads(#[trigger] self.by_type@[i], self.interfaces@)
    }

    /// A language's module has one interface.
    pub proof fn lemma_one(&self, a: Interface, b: Interface)
        requires
            self.inv(),
            self.interfaces@.contains(a),
            self.interfaces@.contains(b),
            a.lang == b.lang,
            a.module@ == b.module@,
        ensures
            a == b,
    {
        let i = choose|i: int| 0 <= i < self.interfaces@.len() && self.interfaces@[i] == a;
        let j = choose|j: int| 0 <= j < self.interfaces@.len() && self.interfaces@[j] == b;
        if i < j {
            assert(self.interfaces@[i].lang != self.interfaces@[j].lang
                || self.interfaces@[i].module@ != self.interfaces@[j].module@);
        } else if j < i {
            assert(self.interfaces@[j].lang != self.interfaces@[i].lang
                || self.interfaces@[j].module@ != self.interfaces@[i].module@);
        }
    }

    pub fn new(namespaces: Vec<Namespace>) -> (r: Registry)
        ensures
            r.inv(),
            r.interfaces@ == Seq::<Interface>::empty(),
            r.by_type@ == Seq::<TypeEntry>::empty(),
            r.namespaces == namespaces,
            r.generation == 1,
    {
        Registry { interfaces: Vec::new(), by_type: Vec::new(), namespaces, generation: 1 }
    }

    /// The generation: it changes whenever an interface is published.
    pub fn generation(&self) -> (g: u64)
        ensures
            g == self.generation,
    {
        self.generation
    }

    /// The namespaces modules are resolved in.
    pub fn namespaces(&self) -> (n: &Vec<Namespace>)
        ensures
            *n == self.namespaces,
    {
        &self.namespaces
    }

    /// Install the world's namespace table, replacing the previous one.
    pub fn set_namespaces(&mut self, namespaces: Vec<Namespace>)
        ensures
            final(self).namespaces == namespaces,
            final(self).interfaces == old(self).interfaces,
            final(self).by_type == old(self).by_type,
            final(self).generation == old(self).generation,
    {
        self.namespaces = namespaces;
    }

    fn position(&self, lang: LangId, module: &str) -> (r: Option<usize>)
        ensures
            match r {
                Some(i) => i < self.interfaces.len() && is_module(
                    self.interfaces@[i as int],
                    lang,
                    module@,
                ),
                None => !published(self.interfaces@, lang, module@),
            },
    {
        let mut i: usize = 0;
        while i < self.interfaces.len()
            invariant
                i <= self.interfaces.len(),
                forall|k: int|
                    0 <= k < i ==> !is_module(#[trigger] self.interfaces@[k], lang, module@),
            decreases self.interfaces.len() - i,
        {
            if self.interfaces[i].lang == lang && same_text(
                self.interfaces[i].module.as_str(),
                module,
            ) {
                return Some(i);
            }
            i = i + 1;
        }
        None
    }

    /// Whether `lang` has published `module`.
    pub fn has(&self, lang: LangId, module: &str) -> (r: bool)
        ensures
            r == published(self.interfaces@, lang, module@),
    {
        match self.position(lang, module) {
            Some(i) => {
                assert(is_module(self.interfaces@[i as int], lang, module@));
                true
            },
            None => false,
        }
    }

    /// The published interface of `module` in `lang`.
    pub fn interface(&self, lang: LangId, module: &str) -> (r: Option<&Interface>)
        requires
            self.inv(),
        ensures
            match r {
                Some(i) => self.interfaces@.contains(*i) && is_module(*i, lang, module@),
                None => !published(self.interfaces@, lang, module@),
            },
    {
        match self.position(lang, module) {
            Some(i) => Some(&self.interfaces[i]),
            None => None,
        }
    }

    /// Every published interface of `lang`, in the order of publication.
    pub fn interfaces_of(&self, lang: LangId) -> (r: Vec<&Interface>)
        ensures
            r@.map_values(|i: &Interface| *i) == of_lang(self.interfaces@, lang),
    {
        let mut out: Vec<&Interface> = Vec::new();
        let ghost plain = |i: &Interface| *i;
        let mut i: usize = 0;
        assert(self.interfaces@.take(0) =~= Seq::<Interface>::empty());
        assert(out@.map_values(plain) =~= Seq::<Interface>::empty());
        while i < self.interfaces.len()
            invariant
                i <= self.interfaces.len(),
                plain == (|i: &Interface| *i),
                out@.map_values(plain) == of_lang(self.interfaces@.take(i as int), lang),
            decreases self.interfaces.len() - i,
        {
            assert(self.interfaces@.take(i + 1).drop_last() =~= self.interfaces@.take(i as int));
            if self.interfaces[i].lang == lang {
                let ghost before = out@;
                out.push(&self.interfaces[i]);
                assert(out@.map_values(plain) =~= before.map_values(plain).push(
                    self.interfaces@[i as int],
                ));
            }
            i = i + 1;
        }
        assert(self.interfaces@.take(i as int) =~= self.interfaces@);
        out
    }

    /// The class whose instances `lang` names `ty_name`, with its interface.
    pub fn class_for_type(&self, lang: LangId, ty_name: &str) -> (r: Option<(&Interface, usize)>)
        requires
            self.inv(),
        ensures
            match r {
                Some((i, k)) => {
                    &&& self.interfaces@.contains(*i)
                    &&& i.lang == lang
                    &&& type_at(self.by_type@, lang, ty_name@, i.module@, k)
                    &&& k < i.classes.len()
                    &&& i.classes@[k as int].ty_name@ == ty_name@
                },
                None => forall|m: Seq<char>, k: usize|
                    !#[trigger] type_at(self.by_type@, lang, ty_name@, m, k),
            },
    {
        let mut i: usize = 0;
        while i < self.by_type.len()
            invariant
                i <= self.by_type.len(),
                self.inv(),
                forall|k: int|
                    0 <= k < i ==> !is_type(#[trigger] self.by_type@[k], lang, ty_name@),
            decreases self.by_type.len() - i,
        {
            let e: &TypeEntry = &self.by_type[i];
            if e.lang == lang && same_text(e.ty_name.as_str(), ty_name) {
                assert(is_type(self.by_type@[i as int], lang, ty_name@));
                assert(leads(self.by_type@[i as int], self.interfaces@));
                let ghost k = choose|k: int|
                    0 <= k < self.interfaces@.len() && is_module(
                        #[trigger] self.interfaces@[k],
                        e.lang,
                        e.module@,
                    ) && e.index < self.interfaces@[k].classes.len()
                        && self.interfaces@[k].classes@[e.index as int].ty_name@ == e.ty_name@;
                match self.interface(lang, e.module.as_str()) {
                    Some(found) => {
                        proof {
                            self.lemma_one(*found, self.interfaces@[k]);
                            assert(type_at(
                                self.by_type@,
                                lang,
                                ty_name@,
                                found.module@,
                                e.index,
                            ));
                        }
                        return Some((found, e.index));
                    },
                    None => {
                        assert(is_module(self.interfaces@[k], lang, e.module@));
                        assert(false);
                    },
                }
            }
            i = i + 1;
        }
        None
    }
}

/// The interfaces of one language.
pub open spec fn of_lang(all: Seq<Interface>, lang: LangId) -> Seq<Interface>
    decreases all.len(),
{
    if all.len() == 0 {
        Seq::empty()
    } else {
        let init = of_lang(all.drop_last(), lang);
        if all.last().lang == lang {
            init.push(all.last())
        } else {
            init
        }
    }
}

/// One entry per type.
pub open spec fn types_apart(list: Seq<TypeEntry>) -> bool {
    forall|i: int, j: int|
        #![trigger list[i], list[j]]
        0 <= i < j < list.len() ==> !(list[i].lang == list[j].lang && list[i].ty_name@
            == list[j].ty_name@)
}

// What a publication may not do.

/// The first of the names an import may use for `other` that `mine` has too.
pub open spec fn shared_name(mine: Seq<Seq<char>>, other: Seq<Seq<char>>) -> Option<Seq<char>>
    decreases other.len(),
{
    if other.len() == 0 {
        None
    } else if mine.contains(other[0]) {
        Some(other[0])
    } else {
        shared_name(mine, other.drop_first())
    }
}

/// Whether interface `c` of the language `b` of namespace `a` would be
/// addressed there by a name that `module` of the language `lang` has too.
pub open spec fn clashes(
    reg: &Registry,
    names: Seq<Seq<char>>,
    lang: Seq<char>,
    module: Seq<char>,
    a: int,
    b: int,
    c: int,
) -> bool {
    let ns = reg.namespaces@[a];
    let other = texts(ns.langs@)[b];
    &&& texts(ns.langs@).contains(lang)
    &&& other != lang
    &&& id_of_language(names, other) == Some(reg.interfaces@[c].lang)
    &&& shared_name(names_in(ns, module), names_in(ns, reg.interfaces@[c].module@)) is Some
}

/// Whether language `b` of namespace `a` has such an interface.
pub open spec fn clashes_with(
    reg: &Registry,
    names: Seq<Seq<char>>,
    lang: Seq<char>,
    module: Seq<char>,
    a: int,
    b: int,
) -> bool {
    exists|c: int|
        0 <= c < reg.interfaces@.len() && #[trigger] clashes(reg, names, lang, module, a, b, c)
}

/// Whether namespace `a` has such a language.
pub open spec fn clashes_in(
    reg: &Registry,
    names: Seq<Seq<char>>,
    lang: Seq<char>,
    module: Seq<char>,
    a: int,
) -> bool {
    exists|b: int|
        0 <= b < reg.namespaces@[a].langs@.len() && #[trigger] clashes_with(
            reg,
            names,
            lang,
            module,
            a,
            b,
        )
}

/// Whether such an interface shares the name `name`.
pub open spec fn clash_shares(
    reg: &Registry,
    names: Seq<Seq<char>>,
    lang: Seq<char>,
    module: Seq<char>,
    a: int,
    b: int,
    name: Seq<char>,
) -> bool {
    exists|c: int|
        0 <= c < reg.interfaces@.len() && #[trigger] clashes(reg, names, lang, module, a, b, c)
            && shared_name(
            names_in(reg.namespaces@[a], module),
            names_in(reg.namespaces@[a], reg.interfaces@[c].module@),
        ) == Some(name)
}

/// The error names the first namespace and the first of its languages that
/// clash, and a name that the two modules share there.
pub open spec fn names_clash(
    reg: &Registry,
    names: Seq<Seq<char>>,
    lang: Seq<char>,
    module: Seq<char>,
    e: RegisterError,
) -> bool {
    exists|a: int, b: int, c: int|
        #![trigger clashes(reg, names, lang, module, a, b, c)]
        {
            &&& 0 <= a < reg.namespaces@.len()
            &&& 0 <= b < reg.namespaces@[a].langs@.len()
            &&& 0 <= c < reg.interfaces@.len()
            &&& clashes(reg, names, lang, module, a, b, c)
            &&& forall|i: int| 0 <= i < a ==> !#[trigger] clashes_in(reg, names, lang, module, i)
            &&& forall|j: int|
                0 <= j < b ==> !#[trigger] clashes_with(reg, names, lang, module, a, j)
            &&& error_names(
                e,
                reg.namespaces@[a].name@,
                shared_name(
                    names_in(reg.namespaces@[a], module),
                    names_in(reg.namespaces@[a], reg.interfaces@[c].module@),
                )->0,
                lang,
                texts(reg.namespaces@[a].langs@)[b],
            )
        }
}

pub open spec fn error_names(
    e: RegisterError,
    ns: Seq<char>,
    name: Seq<char>,
    first: Seq<char>,
    second: Seq<char>,
) -> bool {
    match e {
        RegisterError::ModuleClash { namespace, module, langs } => namespace@ == ns && module@
            == name && langs[0]@ == first && langs[1]@ == second,
        _ => false,
    }
}

fn shared(mine: &Vec<String>, other: &Vec<String>) -> (r: Option<String>)
    ensures
        match shared_name(texts(mine@), texts(other@)) {
            Some(t) => r matches Some(s) && s@ == t,
            None => r is None,
        },
{
    let ghost all = texts(other@);
    let mut i: usize = 0;
    assert(all.skip(0) =~= all);
    while i < other.len()
        invariant
            i <= other.len(),
            all == texts(other@),
            shared_name(texts(mine@), all) == shared_name(texts(mine@), all.skip(i as int)),
        decreases other.len() - i,
    {
        assert(all.skip(i as int).drop_first() =~= all.skip(i + 1));
        assert(all.skip(i as int)[0] == other@[i as int]@);
        if contains_text(mine, other[i].as_str()) {
            return Some(other[i].clone());
        }
        i = i + 1;
    }
    None
}

impl Registry {
    /// The clash with a module of language `b` of namespace `a`: the name the
    /// two share.
    fn clash_with(
        &self,
        langs: &Languages,
        lang: &str,
        module: &str,
        a: usize,
        b: usize,
    ) -> (r: Option<String>)
        requires
            is_languages(langs@),
            a < self.namespaces.len(),
            b < self.namespaces@[a as int].langs.len(),
            texts(self.namespaces@[a as int].langs@).contains(lang@),
        ensures
            match r {
                Some(s) => clash_shares(self, langs@, lang@, module@, a as int, b as int, s@),
                None => !clashes_with(self, langs@, lang@, module@, a as int, b as int),
            },
    {
        let ns: &Namespace = &self.namespaces[a];
        let other: &str = ns.langs[b].as_str();
        assert(texts(ns.langs@)[b as int] == other@);
        if same_text(other, lang) {
            return None;
        }
        let id: LangId = match langs.language_id(other) {
            Some(id) => id,
            None => {
                return None;
            },
        };
        let mine: Vec<String> = import_names(ns, module);
        let mut c: usize = 0;
        while c < self.interfaces.len()
            invariant
                c <= self.interfaces.len(),
                a < self.namespaces.len(),
                b < self.namespaces@[a as int].langs.len(),
                *ns == self.namespaces@[a as int],
                texts(ns.langs@)[b as int] == other@,
                texts(ns.langs@).contains(lang@),
                other@ != lang@,
                id_of_language(langs@, other@) == Some(id),
                texts(mine@) == names_in(*ns, module@),
                forall|k: int|
                    0 <= k < c ==> !#[trigger] clashes(
                        self,
                        langs@,
                        lang@,
                        module@,
                        a as int,
                        b as int,
                        k,
                    ),
            decreases self.interfaces.len() - c,
        {
            if self.interfaces[c].lang == id {
                let theirs: Vec<String> = import_names(ns, self.interfaces[c].module.as_str());
                match shared(&mine, &theirs) {
                    Some(s) => {
                        assert(clashes(
                            self,
                            langs@,
                            lang@,
                            module@,
                            a as int,
                            b as int,
                            c as int,
                        ));
                        return Some(s);
                    },
                    None => {},
                }
            }
            c = c + 1;
        }
        None
    }

    /// The first clash in namespace `a`: the language, and the name the two
    /// share.
    fn clash_in(&self, langs: &Languages, lang: &str, module: &str, a: usize) -> (r: Option<
        (usize, String),
    >)
        requires
            is_languages(langs@),
            a < self.namespaces.len(),
        ensures
            match r {
                Some((b, s)) => {
                    &&& b < self.namespaces@[a as int].langs.len()
                    &&& forall|j: int|
                        0 <= j < b ==> !#[trigger] clashes_with(
                            self,
                            langs@,
                            lang@,
                            module@,
                            a as int,
                            j,
                        )
                    &&& clash_shares(self, langs@, lang@, module@, a as int, b as int, s@)
                },
                None => !clashes_in(self, langs@, lang@, module@, a as int),
            },
    {
        let ns: &Namespace = &self.namespaces[a];
        if !contains_text(&ns.langs, lang) {
            return None;
        }
        let mut b: usize = 0;
        while b < ns.langs.len()
            invariant
                is_languages(langs@),
                a < self.namespaces.len(),
                *ns == self.namespaces@[a as int],
                texts(ns.langs@).contains(lang@),
                b <= ns.langs.len(),
                forall|j: int|
                    0 <= j < b ==> !#[trigger] clashes_with(
                        self,
                        langs@,
                        lang@,
                        module@,
                        a as int,
                        j,
                    ),
            decreases ns.langs.len() - b,
        {
            match self.clash_with(langs, lang, module, a, b) {
                Some(s) => {
                    return Some((b, s));
                },
                None => {},
            }
            b = b + 1;
        }
        None
    }

    /// The clash a publication of `module` by the language `lang` would make.
    fn clash(&self, langs: &Languages, lang: &str, module: &str) -> (r: Option<RegisterError>)
        requires
            is_languages(langs@),
        ensures
            match r {
                Some(e) => names_clash(self, langs@, lang@, module@, e),
                None => forall|a: int|
                    0 <= a < self.namespaces@.len() ==> !#[trigger] clashes_in(
                        self,
                        langs@,
                        lang@,
                        module@,
                        a,
                    ),
            },
    {
        let mut a: usize = 0;
        while a < self.namespaces.len()
            invariant
                is_languages(langs@),
                a <= self.namespaces.len(),
                forall|i: int|
                    0 <= i < a ==> !#[trigger] clashes_in(self, langs@, lang@, module@, i),
            decreases self.namespaces.len() - a,
        {
            match self.clash_in(langs, lang, module, a) {
                Some((b, s)) => {
                    let ns: &Namespace = &self.namespaces[a];
                    let e = RegisterError::ModuleClash {
                        namespace: ns.name.clone(),
                        module: s,
                        langs: [lang.to_owned(), ns.langs[b].clone()],
                    };
                    assert(texts(ns.langs@)[b as int] == ns.langs@[b as int]@);
                    return Some(e);
                },
                None => {},
            }
            a = a + 1;
        }
        None
    }
}

// The types of a publication.

/// Whether one of `classes` has instances called `ty_name`.
pub open spec fn names_type(classes: Seq<ClassIface>, ty_name: Seq<char>) -> bool {
    exists|i: int| 0 <= i < classes.len() && (#[trigger] classes[i]).ty_name@ == ty_name
}

/// The last of `classes` whose instances are called `ty_name`.
pub open spec fn last_class(classes: Seq<ClassIface>, ty_name: Seq<char>) -> int
    decreases classes.len(),
{
    if classes.len() == 0 {
        -1
    } else if classes.last().ty_name@ == ty_name {
        classes.len() - 1
    } else {
        last_class(classes.drop_last(), ty_name)
    }
}

/// The interfaces but for `module` of `lang`.
pub open spec fn without(all: Seq<Interface>, lang: LangId, module: Seq<char>) -> Seq<Interface>
    decreases all.len(),
{
    if all.len() == 0 {
        Seq::empty()
    } else {
        let init = without(all.drop_last(), lang, module);
        if is_module(all.last(), lang, module) {
            init
        } else {
            init.push(all.last())
        }
    }
}

proof fn lemma_without_none(all: Seq<Interface>, lang: LangId, module: Seq<char>)
    requires
        !published(all, lang, module),
    ensures
        without(all, lang, module) == all,
    decreases all.len(),
{
    if all.len() > 0 {
        let init = all.drop_last();
        assert(!published(init, lang, module)) by {
            if published(init, lang, module) {
                let i = choose|i: int|
                    0 <= i < init.len() && is_module(#[trigger] init[i], lang, module);
                assert(is_module(all[i], lang, module));
            }
        }
        lemma_without_none(init, lang, module);
        assert(!is_module(all[all.len() - 1], lang, module));
        assert(init.push(all.last()) =~= all);
    } else {
        assert(all =~= Seq::<Interface>::empty());
    }
}

proof fn lemma_without_one(all: Seq<Interface>, lang: LangId, module: Seq<char>, at: int)
    requires
        0 <= at < all.len(),
        is_module(all[at], lang, module),
        forall|i: int|
            0 <= i < all.len() && i != at ==> !is_module(#[trigger] all[i], lang, module),
    ensures
        without(all, lang, module) == all.remove(at),
    decreases all.len(),
{
    let init = all.drop_last();
    if at == all.len() - 1 {
        assert(!published(init, lang, module)) by {
            if published(init, lang, module) {
                let i = choose|i: int|
                    0 <= i < init.len() && is_module(#[trigger] init[i], lang, module);
                assert(is_module(all[i], lang, module));
            }
        }
        lemma_without_none(init, lang, module);
        assert(all.remove(at) =~= init);
    } else {
        assert forall|i: int| 0 <= i < init.len() && i != at implies !is_module(
            #[trigger] init[i],
            lang,
            module,
        ) by {
            assert(!is_module(all[i], lang, module));
        }
        lemma_without_one(init, lang, module, at);
        assert(!is_module(all[all.len() - 1], lang, module));
        assert(init.remove(at).push(all.last()) =~= all.remove(at));
    }
}

/// Forget where the class of `ty_name` is.
fn forget_type(list: &mut Vec<TypeEntry>, lang: LangId, ty_name: &str)
    requires
        types_apart(old(list)@),
    ensures
        types_apart(final(list)@),
        forall|k: int|
            0 <= k < final(list)@.len() ==> old(list)@.contains(#[trigger] final(list)@[k])
                && !is_type(final(list)@[k], lang, ty_name@),
        forall|l: LangId, t: Seq<char>, m: Seq<char>, x: usize| #[trigger]
            type_at(final(list)@, l, t, m, x) <==> type_at(old(list)@, l, t, m, x) && !(l == lang
                && t == ty_name@),
{
    let ghost was = list@;
    let mut i: usize = 0;
    while i < list.len()
        invariant
            i <= list.len(),
            list@ == was,
            was == old(list)@,
            types_apart(was),
            forall|k: int| 0 <= k < i ==> !is_type(#[trigger] was[k], lang, ty_name@),
        decreases list.len() - i,
    {
        if list[i].lang == lang && same_text(list[i].ty_name.as_str(), ty_name) {
            let _gone: TypeEntry = list.remove(i);
            proof {
                lemma_type_removed(was, lang, ty_name@, i as int);
                assert(list@ =~= was.remove(i as int));
            }
            return ;
        }
        i = i + 1;
    }
    proof {
        assert forall|l: LangId, t: Seq<char>, m: Seq<char>, x: usize| #[trigger]
            type_at(was, l, t, m, x) implies !(l == lang && t == ty_name@) by {}
    }
}

proof fn lemma_type_removed(was: Seq<TypeEntry>, lang: LangId, ty_name: Seq<char>, at: int)
    requires
        types_apart(was),
        0 <= at < was.len(),
        is_type(was[at], lang, ty_name),
    ensures
        ({
            let now = was.remove(at);
            &&& types_apart(now)
            &&& forall|k: int|
                0 <= k < now.len() ==> was.contains(#[trigger] now[k]) && !is_type(
                    now[k],
                    lang,
                    ty_name,
                )
            &&& forall|l: LangId, t: Seq<char>, m: Seq<char>, x: usize| #[trigger]
                type_at(now, l, t, m, x) <==> type_at(was, l, t, m, x) && !(l == lang && t
                    == ty_name)
        }),
{
    let now = was.remove(at);
    assert forall|a: int, b: int|
        #![trigger now[a], now[b]]
        0 <= a < b < now.len() implies !(now[a].lang == now[b].lang && now[a].ty_name@
        == now[b].ty_name@) by {
        let oa = if a < at { a } else { a + 1 };
        let ob = if b < at { b } else { b + 1 };
        assert(was[oa] == now[a] && was[ob] == now[b]);
    }
    assert forall|k: int| 0 <= k < now.len() implies was.contains(#[trigger] now[k]) && !is_type(
        now[k],
        lang,
        ty_name,
    ) by {
        let o = if k < at { k } else { k + 1 };
        assert(was[o] == now[k]);
        if o < at {
            assert(!(was[o].lang == was[at].lang && was[o].ty_name@ == was[at].ty_name@));
        } else {
            assert(!(was[at].lang == was[o].lang && was[at].ty_name@ == was[o].ty_name@));
        }
    }
    assert forall|l: LangId, t: Seq<char>, m: Seq<char>, x: usize| #[trigger]
        type_at(now, l, t, m, x) <==> type_at(was, l, t, m, x) && !(l == lang && t == ty_name) by {
        if type_at(now, l, t, m, x) {
            let k = choose|k: int|
                0 <= k < now.len() && is_type(#[trigger] now[k], l, t) && now[k].module@ == m
                    && now[k].index == x;
            let o = if k < at { k } else { k + 1 };
            assert(was[o] == now[k]);
        }
        if type_at(was, l, t, m, x) && !(l == lang && t == ty_name) {
            let k = choose|k: int|
                0 <= k < was.len() && is_type(#[trigger] was[k], l, t) && was[k].module@ == m
                    && was[k].index == x;
            assert(k != at);
            let o = if k < at { k } else { k - 1 };
            assert(now[o] == was[k]);
        }
    }
}

/// Record where the class of `ty_name` is, in place of what was known.
fn record_type(list: &mut Vec<TypeEntry>, entry: TypeEntry)
    requires
        types_apart(old(list)@),
    ensures
        types_apart(final(list)@),
        forall|k: int|
            0 <= k < final(list)@.len() ==> #[trigger] final(list)@[k] == entry || old(
                list,
            )@.contains(final(list)@[k]),
        forall|l: LangId, t: Seq<char>, m: Seq<char>, x: usize| #[trigger]
            type_at(final(list)@, l, t, m, x) <==> if l == entry.lang && t == entry.ty_name@ {
                m == entry.module@ && x == entry.index
            } else {
                type_at(old(list)@, l, t, m, x)
            },
{
    forget_type(list, entry.lang, entry.ty_name.as_str());
    let ghost mid = list@;
    list.push(entry);
    proof {
        let now = list@;
        assert(now[mid.len() as int] == entry);
        assert forall|k: int| 0 <= k < now.len() implies #[trigger] now[k] == entry || old(
            list,
        )@.contains(now[k]) by {
            if k < mid.len() {
                assert(now[k] == mid[k]);
            }
        }
        assert forall|a: int, b: int|
            #![trigger now[a], now[b]]
            0 <= a < b < now.len() implies !(now[a].lang == now[b].lang && now[a].ty_name@
            == now[b].ty_name@) by {
            assert(now[a] == mid[a]);
            if b < mid.len() {
                assert(now[b] == mid[b]);
            } else {
                assert(!is_type(mid[a], entry.lang, entry.ty_name@));
            }
        }
        assert forall|l: LangId, t: Seq<char>, m: Seq<char>, x: usize| #[trigger]
            type_at(now, l, t, m, x) <==> if l == entry.lang && t == entry.ty_name@ {
                m == entry.module@ && x == entry.index
            } else {
                type_at(old(list)@, l, t, m, x)
            } by {
            if type_at(now, l, t, m, x) {
                let k = choose|k: int|
                    0 <= k < now.len() && is_type(#[trigger] now[k], l, t) && now[k].module@ == m
                        && now[k].index == x;
                if k < mid.len() {
                    assert(mid[k] == now[k]);
                    assert(type_at(mid, l, t, m, x));
                }
            }
            if !(l == entry.lang && t == entry.ty_name@) && type_at(old(list)@, l, t, m, x) {
                assert(type_at(mid, l, t, m, x));
                let k = choose|k: int|
                    0 <= k < mid.len() && is_type(#[trigger] mid[k], l, t) && mid[k].module@ == m
                        && mid[k].index == x;
                assert(now[k] == mid[k]);
            }
        }
    }
}

/// Forget the types of `classes`.
fn forget_types(list: &mut Vec<TypeEntry>, lang: LangId, classes: &Vec<ClassIface>)
    requires
        types_apart(old(list)@),
    ensures
        types_apart(final(list)@),
        forall|k: int|
            0 <= k < final(list)@.len() ==> old(list)@.contains(#[trigger] final(list)@[k]) && !(
            final(list)@[k].lang == lang && names_type(classes@, final(list)@[k].ty_name@)),
        forall|l: LangId, t: Seq<char>, m: Seq<char>, x: usize| #[trigger]
            type_at(final(list)@, l, t, m, x) <==> type_at(old(list)@, l, t, m, x) && !(l == lang
                && names_type(classes@, t)),
{
    let ghost was = list@;
    let mut i: usize = 0;
    while i < classes.len()
        invariant
            i <= classes.len(),
            types_apart(list@),
            forall|k: int|
                0 <= k < list@.len() ==> was.contains(#[trigger] list@[k]) && !(list@[k].lang
                    == lang && names_type(classes@.take(i as int), list@[k].ty_name@)),
            forall|l: LangId, t: Seq<char>, m: Seq<char>, x: usize| #[trigger]
                type_at(list@, l, t, m, x) <==> type_at(was, l, t, m, x) && !(l == lang
                    && names_type(classes@.take(i as int), t)),
        decreases classes.len() - i,
    {
        let ghost mid = list@;
        forget_type(list, lang, classes[i].ty_name.as_str());
        proof {
            let name = classes@[i as int].ty_name@;
            let done = classes@.take(i as int);
            let next = classes@.take(i + 1);
            assert forall|t: Seq<char>| #[trigger] names_type(next, t) <==> names_type(done, t)
                || t == name by {
                if names_type(next, t) {
                    let k = choose|k: int| 0 <= k < next.len() && (#[trigger] next[k]).ty_name@ == t;
                    if k < i {
                        assert(done[k] == next[k]);
                    }
                }
                if names_type(done, t) {
                    let k = choose|k: int| 0 <= k < done.len() && (#[trigger] done[k]).ty_name@ == t;
                    assert(next[k] == done[k]);
                }
                assert(next[i as int] == classes@[i as int]);
            }
            assert forall|k: int| 0 <= k < list@.len() implies was.contains(#[trigger] list@[k])
                && !(list@[k].lang == lang && names_type(next, list@[k].ty_name@)) by {
                assert(mid.contains(list@[k]));
                let o = choose|o: int| 0 <= o < mid.len() && mid[o] == list@[k];
                assert(was.contains(mid[o]));
            }
        }
        i = i + 1;
    }
    assert(classes@.take(i as int) =~= classes@);
}

impl Registry {
    /// Whether the published `module` of `lang` has a class of `ty_name`.
    pub open spec fn had_type(
        &self,
        lang: LangId,
        module: Seq<char>,
        ty_name: Seq<char>,
    ) -> bool {
        exists|i: int|
            0 <= i < self.interfaces@.len() && is_module(#[trigger] self.interfaces@[i], lang, module)
                && names_type(self.interfaces@[i].classes@, ty_name)
    }

    /// Publish `iface`, replacing any interface of the same language and
    /// module. Refused when a configured namespace holding this module's
    /// language and another would address a module of each by one import name.
    #[verifier::spinoff_prover]
    pub fn publish(&mut self, langs: &Languages, iface: Interface) -> (r: Result<
        (),
        RegisterError,
    >)
        requires
            is_languages(langs@),
            old(self).inv(),
            old(self).generation < u64::MAX,
        ensures
            final(self).inv(),
            final(self).generation == old(self).generation + 1,
            final(self).namespaces == old(self).namespaces,
            match r {
                Err(e) => {
                    &&& names_clash(
                        old(self),
                        langs@,
                        name_of_language(langs@, iface.lang),
                        iface.module@,
                        e,
                    )
                    &&& final(self).interfaces == old(self).interfaces
                    &&& final(self).by_type == old(self).by_type
                },
                Ok(_) => {
                    &&& forall|a: int|
                        0 <= a < old(self).namespaces@.len() ==> !#[trigger] clashes_in(
                            old(self),
                            langs@,
                            name_of_language(langs@, iface.lang),
                            iface.module@,
                            a,
                        )
                    &&& final(self).interfaces@ == without(
                        old(self).interfaces@,
                        iface.lang,
                        iface.module@,
                    ).push(iface)
                    &&& forall|l: LangId, t: Seq<char>, m: Seq<char>, x: usize| #[trigger]
                        type_at(final(self).by_type@, l, t, m, x) <==> if l == iface.lang
                            && names_type(iface.classes@, t) {
                            m == iface.module@ && x == last_class(iface.classes@, t)
                        } else {
                            type_at(old(self).by_type@, l, t, m, x) && !(l == iface.lang && old(
                                self,
                            ).had_type(iface.lang, iface.module@, t))
                        }
                },
            },
    {
        let name: String = langs.language_name(iface.lang);
        let clash: Option<RegisterError> = self.clash(langs, name.as_str(), iface.module.as_str());
        self.generation = self.generation + 1;
        if let Some(e) = clash {
            return Err(e);
        }
        let ghost all = old(self).interfaces@;
        let ghost types = old(self).by_type@;
        match self.position(iface.lang, iface.module.as_str()) {
            Some(i) => {
                let gone: Interface = self.interfaces.remove(i);
                forget_types(&mut self.by_type, gone.lang, &gone.classes);
                proof {
                    assert forall|k: int| 0 <= k < all.len() && k != i implies !is_module(
                        #[trigger] all[k],
                        iface.lang,
                        iface.module@,
                    ) by {
                        if k < i {
                            assert(!(all[k].lang == all[i as int].lang && all[k].module@
                                == all[i as int].module@));
                        } else {
                            assert(!(all[i as int].lang == all[k].lang && all[i as int].module@
                                == all[k].module@));
                        }
                    }
                    lemma_without_one(all, iface.lang, iface.module@, i as int);
                    assert forall|t: Seq<char>| names_type(gone.classes@, t) <==> #[trigger] old(
                        self,
                    ).had_type(iface.lang, iface.module@, t) by {
                        assert(is_module(all[i as int], iface.lang, iface.module@));
                    }
                }
            },
            None => {
                proof {
                    lemma_without_none(all, iface.lang, iface.module@);
                    assert forall|t: Seq<char>| !#[trigger] old(self).had_type(
                        iface.lang,
                        iface.module@,
                        t,
                    ) by {}
                    assert forall|k: int| 0 <= k < self.by_type@.len() implies types.contains(
                        #[trigger] self.by_type@[k],
                    ) by {}
                }
            },
        }
        let ghost kept = without(all, iface.lang, iface.module@);
        let ghost mid = self.by_type@;
        assert(self.interfaces@ == kept);
        assert forall|k: int| 0 <= k < mid.len() implies types.contains(#[trigger] mid[k]) && !(
        mid[k].lang == iface.lang && old(self).had_type(
            iface.lang,
            iface.module@,
            mid[k].ty_name@,
        )) by {}
        let mut n: usize = 0;
        while n < iface.classes.len()
            invariant
                n <= iface.classes.len(),
                self.interfaces@ == kept,
                self.namespaces == old(self).namespaces,
                self.generation == old(self).generation + 1,
                types_apart(self.by_type@),
                forall|k: int|
                    0 <= k < self.by_type@.len() ==> mid.contains(#[trigger] self.by_type@[k])
                        || of_interface(self.by_type@[k], iface),
                forall|l: LangId, t: Seq<char>, m: Seq<char>, x: usize| #[trigger]
                    type_at(self.by_type@, l, t, m, x) <==> if l == iface.lang && names_type(
                        iface.classes@.take(n as int),
                        t,
                    ) {
                        m == iface.module@ && x == last_class(iface.classes@.take(n as int), t)
                    } else {
                        type_at(mid, l, t, m, x)
                    },
            decreases iface.classes.len() - n,
        {
            let ghost before = self.by_type@;
            let entry = TypeEntry {
                lang: iface.lang,
                ty_name: iface.classes[n].ty_name.clone(),
                module: iface.module.clone(),
                index: n,
            };
            let ghost added = entry;
            record_type(&mut self.by_type, entry);
            proof {
                lemma_class_recorded(iface.classes@, n as int);
                assert forall|k: int| 0 <= k < self.by_type@.len() implies mid.contains(
                    #[trigger] self.by_type@[k],
                ) || of_interface(self.by_type@[k], iface) by {
                    if self.by_type@[k] == added {
                        assert(of_interface(added, iface));
                    } else {
                        assert(before.contains(self.by_type@[k]));
                        let o = choose|o: int|
                            0 <= o < before.len() && before[o] == self.by_type@[k];
                        assert(mid.contains(before[o]) || of_interface(before[o], iface));
                    }
                }
            }
            n = n + 1;
        }
        assert(iface.classes@.take(n as int) =~= iface.classes@);
        let ghost whole = iface;
        self.interfaces.push(iface);
        proof {
            self.lemma_published(old(self), whole, mid);
        }
        Ok(())
    }

    proof fn lemma_published(&self, before: &Registry, iface: Interface, mid: Seq<TypeEntry>)
        requires
            before.inv(),
            self.interfaces@ == without(before.interfaces@, iface.lang, iface.module@).push(iface),
            types_apart(self.by_type@),
            forall|k: int|
                0 <= k < mid.len() ==> before.by_type@.contains(#[trigger] mid[k]) && !(mid[k].lang
                    == iface.lang && before.had_type(iface.lang, iface.module@, mid[k].ty_name@)),
            forall|k: int|
                0 <= k < self.by_type@.len() ==> mid.contains(#[trigger] self.by_type@[k])
                    || of_interface(self.by_type@[k], iface),
        ensures
            self.inv(),
    {
        let all = before.interfaces@;
        let now = self.interfaces@;
        let kept = without(all, iface.lang, iface.module@);
        lemma_without_members(all, iface.lang, iface.module@);
        assert(now[kept.len() as int] == iface);
        assert forall|i: int, j: int|
            #![trigger now[i], now[j]]
            0 <= i < j < now.len() implies !(now[i].lang == now[j].lang && now[i].module@
            == now[j].module@) by {
            assert(now[i] == kept[i]);
            if j < kept.len() {
                assert(now[j] == kept[j]);
                lemma_without_order(all, iface.lang, iface.module@, i, j);
            } else {
                assert(!is_module(kept[i], iface.lang, iface.module@));
            }
        }
        assert forall|k: int| 0 <= k < self.by_type@.len() implies leads(
            #[trigger] self.by_type@[k],
            now,
        ) by {
            let e = self.by_type@[k];
            if of_interface(e, iface) {
                assert(is_module(now[kept.len() as int], e.lang, e.module@));
            } else {
                assert(mid.contains(e));
                let o = choose|o: int| 0 <= o < mid.len() && mid[o] == e;
                assert(before.by_type@.contains(mid[o]));
                let p = choose|p: int| 0 <= p < before.by_type@.len() && before.by_type@[p] == e;
                assert(leads(before.by_type@[p], all));
                let c = choose|c: int|
                    0 <= c < all.len() && is_module(#[trigger] all[c], e.lang, e.module@) && e.index
                        < all[c].classes.len() && all[c].classes@[e.index as int].ty_name@
                        == e.ty_name@;
                if is_module(all[c], iface.lang, iface.module@) {
                    assert(names_type(all[c].classes@, e.ty_name@));
                    assert(before.had_type(iface.lang, iface.module@, e.ty_name@));
                    assert(false);
                }
                assert(kept.contains(all[c]));
                let q = choose|q: int| 0 <= q < kept.len() && kept[q] == all[c];
                assert(now[q] == all[c]);
                assert(is_module(now[q], e.lang, e.module@));
            }
        }
    }
}

/// An entry that leads into `iface`.
pub open spec fn of_interface(e: TypeEntry, iface: Interface) -> bool {
    &&& e.lang == iface.lang
    &&& e.module@ == iface.module@
    &&& e.index < iface.classes.len()
    &&& iface.classes@[e.index as int].ty_name@ == e.ty_name@
}

proof fn lemma_class_recorded(classes: Seq<ClassIface>, n: int)
    requires
        0 <= n < classes.len(),
    ensures
        forall|t: Seq<char>| #[trigger]
            names_type(classes.take(n + 1), t) <==> names_type(classes.take(n), t) || t
                == classes[n].ty_name@,
        forall|t: Seq<char>| #[trigger]
            last_class(classes.take(n + 1), t) == if t == classes[n].ty_name@ {
                n
            } else {
                last_class(classes.take(n), t)
            },
{
    let done = classes.take(n);
    let next = classes.take(n + 1);
    assert(next.drop_last() =~= done);
    assert forall|t: Seq<char>| #[trigger] names_type(next, t) <==> names_type(done, t) || t
        == classes[n].ty_name@ by {
        if names_type(next, t) {
            let k = choose|k: int| 0 <= k < next.len() && (#[trigger] next[k]).ty_name@ == t;
            if k < n {
                assert(done[k] == next[k]);
            }
        }
        if names_type(done, t) {
            let k = choose|k: int| 0 <= k < done.len() && (#[trigger] done[k]).ty_name@ == t;
            assert(next[k] == done[k]);
        }
        assert(next[n] == classes[n]);
    }
}

/// What is kept is what is not the module.
proof fn lemma_without_members(all: Seq<Interface>, lang: LangId, module: Seq<char>)
    ensures
        forall|i: Interface| #[trigger]
            without(all, lang, module).contains(i) <==> all.contains(i) && !is_module(
                i,
                lang,
                module,
            ),
        forall|k: int|
            0 <= k < without(all, lang, module).len() ==> !is_module(
                #[trigger] without(all, lang, module)[k],
                lang,
                module,
            ),
    decreases all.len(),
{
    let kept = without(all, lang, module);
    if all.len() > 0 {
        let init = all.drop_last();
        let rest = without(init, lang, module);
        lemma_without_members(init, lang, module);
        assert forall|i: Interface| #[trigger] kept.contains(i) <==> all.contains(i) && !is_module(
            i,
            lang,
            module,
        ) by {
            assert(init.push(all.last()) =~= all);
            if kept.contains(i) {
                let k = choose|k: int| 0 <= k < kept.len() && kept[k] == i;
                if k < rest.len() {
                    assert(rest[k] == i);
                    assert(rest.contains(i));
                    let o = choose|o: int| 0 <= o < init.len() && init[o] == i;
                    assert(all[o] == i);
                } else {
                    assert(all[all.len() - 1] == i);
                }
            }
            if all.contains(i) && !is_module(i, lang, module) {
                let o = choose|o: int| 0 <= o < all.len() && all[o] == i;
                if o < init.len() {
                    assert(init[o] == i);
                    assert(rest.contains(i));
                    let k = choose|k: int| 0 <= k < rest.len() && rest[k] == i;
                    assert(kept[k] == i);
                } else {
                    assert(kept[kept.len() - 1] == i);
                }
            }
        }
        assert forall|k: int| 0 <= k < kept.len() implies !is_module(
            #[trigger] kept[k],
            lang,
            module,
        ) by {
            assert(kept.contains(kept[k]));
        }
    }
}

/// Two kept interfaces were two before.
proof fn lemma_without_order(
    all: Seq<Interface>,
    lang: LangId,
    module: Seq<char>,
    i: int,
    j: int,
)
    requires
        forall|a: int, b: int|
            #![trigger all[a], all[b]]
            0 <= a < b < all.len() ==> !(all[a].lang == all[b].lang && all[a].module@
                == all[b].module@),
        0 <= i < j < without(all, lang, module).len(),
    ensures
        !(without(all, lang, module)[i].lang == without(all, lang, module)[j].lang && without(
            all,
            lang,
            module,
        )[i].module@ == without(all, lang, module)[j].module@),
    decreases all.len(),
{
    let kept = without(all, lang, module);
    let init = all.drop_last();
    let rest = without(init, lang, module);
    assert forall|a: int, b: int|
        #![trigger init[a], init[b]]
        0 <= a < b < init.len() implies !(init[a].lang == init[b].lang && init[a].module@
        == init[b].module@) by {
        let _ = all[a];
        let _ = all[b];
    }
    if j < rest.len() {
        lemma_without_order(init, lang, module, i, j);
    } else {
        lemma_without_members(init, lang, module);
        assert(rest.contains(rest[i]));
        let o = choose|o: int| 0 <= o < init.len() && init[o] == rest[i];
        assert(all[o] == rest[i]);
        let _ = all[all.len() - 1];
    }
}

/// Publishing replaces: afterwards the module is published, as it is in the new
/// interface and no other, and every other module as it was.
pub proof fn law_publish_replaces(
    all: Seq<Interface>,
    iface: Interface,
    lang: LangId,
    module: Seq<char>,
)
    ensures
        ({
            let after = without(all, iface.lang, iface.module@).push(iface);
            &&& forall|i: int|
                0 <= i < after.len() && is_module(#[trigger] after[i], iface.lang, iface.module@)
                    ==> after[i] == iface
            &&& published(after, iface.lang, iface.module@)
            &&& !(lang == iface.lang && module == iface.module@) ==> published(after, lang, module)
                == published(all, lang, module)
        }),
{
    let rest = without(all, iface.lang, iface.module@);
    let after = rest.push(iface);
    lemma_without_members(all, iface.lang, iface.module@);
    assert(is_module(after[rest.len() as int], iface.lang, iface.module@));
    assert forall|i: int|
        0 <= i < after.len() && is_module(
            #[trigger] after[i],
            iface.lang,
            iface.module@,
        ) implies after[i] == iface by {
        if i < rest.len() {
            assert(rest.contains(rest[i]));
        }
    }
    if !(lang == iface.lang && module == iface.module@) {
        if published(after, lang, module) {
            let i = choose|i: int| 0 <= i < after.len() && is_module(
                #[trigger] after[i],
                lang,
                module,
            );
            assert(rest.contains(rest[i]));
            assert(all.contains(rest[i]));
            let k = choose|k: int| 0 <= k < all.len() && all[k] == rest[i];
            assert(is_module(all[k], lang, module));
        }
        if published(all, lang, module) {
            let k = choose|k: int| 0 <= k < all.len() && is_module(#[trigger] all[k], lang, module);
            assert(all.contains(all[k]));
            assert(rest.contains(all[k]));
            let i = choose|i: int| 0 <= i < rest.len() && rest[i] == all[k];
            assert(is_module(after[i], lang, module));
        }
    }
}

/// An object coming back across the bridge finds its class: whoever published
/// a class last under a type's name is who instances of that name lead to.
pub proof fn law_type_leads_to_its_class(
    before: &Registry,
    after: &Registry,
    iface: Interface,
    ty_name: Seq<char>,
)
    requires
        after.inv(),
        names_type(iface.classes@, ty_name),
        forall|l: LangId, t: Seq<char>, m: Seq<char>, x: usize| #[trigger]
            type_at(after.by_type@, l, t, m, x) <==> if l == iface.lang && names_type(
                iface.classes@,
                t,
            ) {
                m == iface.module@ && x == last_class(iface.classes@, t)
            } else {
                type_at(before.by_type@, l, t, m, x) && !(l == iface.lang && before.had_type(
                    iface.lang,
                    iface.module@,
                    t,
                ))
            },
    ensures
        type_at(
            after.by_type@,
            iface.lang,
            ty_name,
            iface.module@,
            last_class(iface.classes@, ty_name) as usize,
        ),
        iface.classes@[last_class(iface.classes@, ty_name)].ty_name@ == ty_name,
{
    let n: usize = iface.classes.len();
    assert(n == iface.classes@.len());
    lemma_last_class(iface.classes@, ty_name);
}

proof fn lemma_last_class(classes: Seq<ClassIface>, ty_name: Seq<char>)
    requires
        names_type(classes, ty_name),
    ensures
        0 <= last_class(classes, ty_name) < classes.len(),
        classes[last_class(classes, ty_name)].ty_name@ == ty_name,
    decreases classes.len(),
{
    if classes.last().ty_name@ != ty_name {
        let i = choose|i: int| 0 <= i < classes.len() && (#[trigger] classes[i]).ty_name@ == ty_name;
        assert(classes.drop_last()[i] == classes[i]);
        lemma_last_class(classes.drop_last(), ty_name);
    }
}

} // verus!
