//! Which module an import names.

use vstd::prelude::*;

use crate::namespace::{texts, Namespace};
use crate::registry::publish::{published, Registry};
use crate::registry::{class_index, Interface};
use crate::text::{cat, chars_of, same_text, text_of};
use crate::value::LangId;
use crate::world::{id_of_language, is_languages, Languages};

verus! {

/// What is left of `module` after the namespace's name and a `.` or a `/`.
pub open spec fn remainder(ns: Seq<char>, module: Seq<char>) -> Option<Seq<char>> {
    if ns.len() + 1 < module.len() && ns.is_prefix_of(module) && (module[ns.len() as int] == '.'
        || module[ns.len() as int] == '/') {
        Some(module.skip(ns.len() as int + 1))
    } else {
        None
    }
}

/// Whether the namespace shows the module.
pub open spec fn shows(ns: Namespace, module: Seq<char>) -> bool {
    match ns.modules {
        Some(list) => texts(list@).contains(module),
        None => true,
    }
}

/// The names a module answers to inside the namespace `ns`, or none when the
/// namespace hides it: its own, and the remainder after the namespace's name.
pub open spec fn names_in(ns: Namespace, module: Seq<char>) -> Seq<Seq<char>> {
    if !shows(ns, module) {
        Seq::empty()
    } else {
        match remainder(ns.name@, module) {
            Some(rest) => seq![module, rest],
            None => seq![module],
        }
    }
}

/// Whether `list` holds `text`.
pub fn contains_text(list: &Vec<String>, text: &str) -> (r: bool)
    ensures
        r == texts(list@).contains(text@),
{
    let ghost all = texts(list@);
    let mut i: usize = 0;
    while i < list.len()
        invariant
            i <= list.len(),
            all == texts(list@),
            forall|k: int| 0 <= k < i ==> all[k] != text@,
        decreases list.len() - i,
    {
        if same_text(list[i].as_str(), text) {
            assert(all[i as int] == text@);
            return true;
        }
        assert(all[i as int] != text@);
        i = i + 1;
    }
    false
}

fn shown(ns: &Namespace, module: &str) -> (r: bool)
    ensures
        r == shows(*ns, module@),
{
    match &ns.modules {
        Some(list) => contains_text(list, module),
        None => true,
    }
}

fn rest_of(ns: &str, module: &str) -> (r: Option<String>)
    ensures
        match remainder(ns@, module@) {
            Some(t) => r matches Some(s) && s@ == t,
            None => r is None,
        },
{
    let a: Vec<char> = chars_of(ns);
    let b: Vec<char> = chars_of(module);
    let n: usize = a.len();
    if n >= b.len() || n + 1 >= b.len() {
        return None;
    }
    let mut i: usize = 0;
    while i < n
        invariant
            i <= n,
            n == a.len(),
            n < b.len(),
            a@ == ns@,
            b@ == module@,
            forall|k: int| 0 <= k < i ==> a@[k] == b@[k],
        decreases n - i,
    {
        if a[i] != b[i] {
            assert(!ns@.is_prefix_of(module@)) by {
                if ns@.is_prefix_of(module@) {
                    assert(ns@[i as int] == module@[i as int]);
                }
            }
            return None;
        }
        i = i + 1;
    }
    assert(ns@.is_prefix_of(module@)) by {
        assert(ns@ =~= module@.subrange(0, n as int));
    }
    if b[n] != '.' && b[n] != '/' {
        return None;
    }
    let end: usize = b.len();
    let s = text_of(&b, n + 1, end);
    assert(b@.subrange(n + 1, end as int) =~= module@.skip(n + 1));
    Some(s)
}

/// [`names_in`].
pub fn import_names(ns: &Namespace, module: &str) -> (r: Vec<String>)
    ensures
        texts(r@) == names_in(*ns, module@),
{
    let mut out: Vec<String> = Vec::new();
    if !shown(ns, module) {
        assert(texts(out@) =~= Seq::<Seq<char>>::empty());
        return out;
    }
    out.push(module.to_owned());
    match rest_of(ns.name.as_str(), module) {
        Some(rest) => {
            out.push(rest);
        },
        None => {},
    }
    assert(texts(out@) =~= names_in(*ns, module@));
    out
}

/// The spellings a module named `module` in namespace `namespace` may have
/// been published under.
pub open spec fn spellings(namespace: Seq<char>, module: Seq<char>) -> Seq<Seq<char>> {
    seq![module, namespace + "."@ + module, namespace + "/"@ + module]
}

fn candidates(namespace: &str, module: &str) -> (r: Vec<String>)
    ensures
        texts(r@) == spellings(namespace@, module@),
{
    let mut out: Vec<String> = Vec::new();
    out.push(module.to_owned());
    let dot = cat(namespace, ".");
    out.push(cat(dot.as_str(), module));
    let slash = cat(namespace, "/");
    out.push(cat(slash.as_str(), module));
    assert(texts(out@) =~= spellings(namespace@, module@));
    out
}

/// The first spelling the namespace shows and `lang` has published.
pub open spec fn first_spelling(
    all: Seq<Interface>,
    ns: Namespace,
    lang: LangId,
    list: Seq<Seq<char>>,
) -> Option<Seq<char>>
    decreases list.len(),
{
    if list.len() == 0 {
        None
    } else if shows(ns, list[0]) && published(all, lang, list[0]) {
        Some(list[0])
    } else {
        first_spelling(all, ns, lang, list.drop_first())
    }
}

/// The first of the namespace's languages, in its order, to have the module.
pub open spec fn resolved_in(
    all: Seq<Interface>,
    names: Seq<Seq<char>>,
    ns: Namespace,
    langs: Seq<Seq<char>>,
    module: Seq<char>,
) -> Option<(LangId, Seq<char>)>
    decreases langs.len(),
{
    if langs.len() == 0 {
        None
    } else {
        let rest = resolved_in(all, names, ns, langs.drop_first(), module);
        match id_of_language(names, langs[0]) {
            None => rest,
            Some(id) => match first_spelling(all, ns, id, spellings(ns.name@, module)) {
                Some(m) => Some((id, m)),
                None => rest,
            },
        }
    }
}

/// The first configured namespace called `name`.
pub open spec fn namespace_index(all: Seq<Namespace>, name: Seq<char>) -> Option<int>
    decreases all.len(),
{
    if all.len() == 0 {
        None
    } else {
        match namespace_index(all.drop_last(), name) {
            Some(i) => Some(i),
            None => if all.last().name@ == name {
                Some(all.len() - 1)
            } else {
                None
            },
        }
    }
}

/// The language and module `namespace:module` names, if published: through the
/// configured namespace, or through the language of that name.
pub open spec fn resolved(
    reg: &Registry,
    names: Seq<Seq<char>>,
    namespace: Seq<char>,
    module: Seq<char>,
) -> Option<(LangId, Seq<char>)> {
    match namespace_index(reg.namespaces@, namespace) {
        Some(i) => {
            let ns = reg.namespaces@[i];
            resolved_in(reg.interfaces@, names, ns, texts(ns.langs@), module)
        },
        None => match id_of_language(names, namespace) {
            Some(id) => if published(reg.interfaces@, id, module) {
                Some((id, module))
            } else {
                None
            },
            None => None,
        },
    }
}

proof fn lemma_first_namespace(all: Seq<Namespace>, name: Seq<char>, n: int)
    requires
        0 <= n <= all.len(),
        namespace_index(all.take(n), name) is Some,
    ensures
        namespace_index(all, name) == namespace_index(all.take(n), name),
    decreases all.len(),
{
    if n < all.len() {
        assert(all.drop_last().take(n) =~= all.take(n));
        lemma_first_namespace(all.drop_last(), name, n);
    } else {
        assert(all.take(n) =~= all);
    }
}

impl Registry {
    fn namespace_position(&self, name: &str) -> (r: Option<usize>)
        ensures
            match namespace_index(self.namespaces@, name@) {
                Some(i) => r matches Some(k) && k == i && k < self.namespaces.len()
                    && self.namespaces@[i].name@ == name@,
                None => r is None,
            },
    {
        let mut i: usize = 0;
        assert(self.namespaces@.take(0) =~= Seq::<Namespace>::empty());
        while i < self.namespaces.len()
            invariant
                i <= self.namespaces.len(),
                namespace_index(self.namespaces@.take(i as int), name@) is None,
            decreases self.namespaces.len() - i,
        {
            assert(self.namespaces@.take(i + 1).drop_last() =~= self.namespaces@.take(i as int));
            if same_text(self.namespaces[i].name.as_str(), name) {
                proof {
                    lemma_first_namespace(self.namespaces@, name@, i + 1);
                }
                return Some(i);
            }
            i = i + 1;
        }
        assert(self.namespaces@.take(i as int) =~= self.namespaces@);
        None
    }

    fn spelled(&self, ns: &Namespace, lang: LangId, list: &Vec<String>) -> (r: Option<String>)
        ensures
            match first_spelling(self.interfaces@, *ns, lang, texts(list@)) {
                Some(t) => r matches Some(s) && s@ == t,
                None => r is None,
            },
    {
        let ghost all = texts(list@);
        let mut i: usize = 0;
        assert(all.skip(0) =~= all);
        while i < list.len()
            invariant
                i <= list.len(),
                all == texts(list@),
                first_spelling(self.interfaces@, *ns, lang, all) == first_spelling(
                    self.interfaces@,
                    *ns,
                    lang,
                    all.skip(i as int),
                ),
            decreases list.len() - i,
        {
            assert(all.skip(i as int).drop_first() =~= all.skip(i + 1));
            assert(all.skip(i as int)[0] == list@[i as int]@);
            if shown(ns, list[i].as_str()) && self.has(lang, list[i].as_str()) {
                return Some(list[i].clone());
            }
            i = i + 1;
        }
        None
    }

    /// The language and module `namespace:module` names, if published.
    pub fn resolve(&self, langs: &Languages, namespace: &str, module: &str) -> (r: Option<
        (LangId, String),
    >)
        requires
            is_languages(langs@),
        ensures
            match resolved(self, langs@, namespace@, module@) {
                Some((id, m)) => r matches Some((rid, rm)) && rid == id && rm@ == m,
                None => r is None,
            },
    {
        match self.namespace_position(namespace) {
            Some(at) => {
                let ns: &Namespace = &self.namespaces[at];
                let list: Vec<String> = candidates(ns.name.as_str(), module);
                let ghost order = texts(ns.langs@);
                let mut i: usize = 0;
                assert(order.skip(0) =~= order);
                while i < ns.langs.len()
                    invariant
                        i <= ns.langs.len(),
                        is_languages(langs@),
                        order == texts(ns.langs@),
                        texts(list@) == spellings(ns.name@, module@),
                        resolved(self, langs@, namespace@, module@) == resolved_in(
                            self.interfaces@,
                            langs@,
                            *ns,
                            order.skip(i as int),
                            module@,
                        ),
                    decreases ns.langs.len() - i,
                {
                    assert(order.skip(i as int).drop_first() =~= order.skip(i + 1));
                    assert(order.skip(i as int)[0] == ns.langs@[i as int]@);
                    match langs.language_id(ns.langs[i].as_str()) {
                        Some(id) => match self.spelled(ns, id, &list) {
                            Some(m) => {
                                return Some((id, m));
                            },
                            None => {},
                        },
                        None => {},
                    }
                    i = i + 1;
                }
                None
            },
            None => match langs.language_id(namespace) {
                Some(id) => {
                    if self.has(id, module) {
                        Some((id, module.to_owned()))
                    } else {
                        None
                    }
                },
                None => None,
            },
        }
    }

    /// The interface `namespace:module` names.
    pub fn lookup(&self, langs: &Languages, namespace: &str, module: &str) -> (r: Option<
        &Interface,
    >)
        requires
            is_languages(langs@),
            self.inv(),
        ensures
            match resolved(self, langs@, namespace@, module@) {
                Some((id, m)) => r matches Some(i) ==> self.interfaces@.contains(*i) && i.lang
                    == id && i.module@ == m,
                None => r is None,
            },
            r is Some <==> (resolved(self, langs@, namespace@, module@) matches Some((id, m))
                && published(self.interfaces@, id, m)),
    {
        match self.resolve(langs, namespace, module) {
            Some((lang, m)) => self.interface(lang, m.as_str()),
            None => None,
        }
    }

    /// One class of `namespace:module`, with its interface.
    pub fn lookup_class(
        &self,
        langs: &Languages,
        namespace: &str,
        module: &str,
        class: &str,
    ) -> (r: Option<(&Interface, usize)>)
        requires
            is_languages(langs@),
            self.inv(),
        ensures
            match r {
                Some((i, k)) => {
                    &&& resolved(self, langs@, namespace@, module@) == Some((i.lang, i.module@))
                    &&& self.interfaces@.contains(*i)
                    &&& class_index(i.classes@, class@) == Some(k as int)
                },
                None => match resolved(self, langs@, namespace@, module@) {
                    Some((id, m)) => forall|i: Interface|
                        #[trigger] self.interfaces@.contains(i) && i.lang == id && i.module@ == m
                            ==> class_index(i.classes@, class@) is None,
                    None => true,
                },
            },
    {
        match self.lookup(langs, namespace, module) {
            Some(i) => {
                proof {
                    assert forall|j: Interface|
                        #[trigger] self.interfaces@.contains(j) && j.lang == i.lang && j.module@
                            == i.module@ implies j == *i by {
                        self.lemma_one(*i, j);
                    }
                }
                match i.position(class) {
                    Some(k) => Some((i, k)),
                    None => None,
                }
            },
            None => {
                proof {
                    match resolved(self, langs@, namespace@, module@) {
                        Some((id, m)) => {
                            assert forall|i: Interface|
                                #[trigger] self.interfaces@.contains(i) && i.lang == id
                                    && i.module@ == m implies class_index(
                                i.classes@,
                                class@,
                            ) is None by {
                                let k = choose|k: int|
                                    0 <= k < self.interfaces@.len() && self.interfaces@[k] == i;
                                assert(published(self.interfaces@, id, m));
                            }
                        },
                        None => {},
                    }
                }
                None
            },
        }
    }
}

/// The languages `namespace` covers, in order: the configured ones that are
/// registered, or the language itself when the name is a language's.
pub open spec fn covered(
    reg: &Registry,
    names: Seq<Seq<char>>,
    namespace: Seq<char>,
) -> Seq<LangId> {
    match namespace_index(reg.namespaces@, namespace) {
        Some(i) => ids_of(names, texts(reg.namespaces@[i].langs@)),
        None => match id_of_language(names, namespace) {
            Some(id) => seq![id],
            None => Seq::empty(),
        },
    }
}

/// The ids of the registered languages of `list`.
pub open spec fn ids_of(names: Seq<Seq<char>>, list: Seq<Seq<char>>) -> Seq<LangId>
    decreases list.len(),
{
    if list.len() == 0 {
        Seq::empty()
    } else {
        let init = ids_of(names, list.drop_last());
        match id_of_language(names, list.last()) {
            Some(id) => init.push(id),
            None => init,
        }
    }
}

/// A search for a module nobody has published yet: the languages that may
/// load it, and how many have been asked.
pub struct Load {
    pub langs: Vec<LangId>,
    pub next: usize,
}

/// What a search for a module does next.
pub enum LoadStep {
    /// It is published: the language and the module's name.
    Found(LangId, String),
    /// Ask this language's loader, and go on with its answer.
    Ask(LangId),
    /// Nobody has it.
    Nothing,
}

impl Registry {
    fn languages_of(&self, langs: &Languages, namespace: &str) -> (r: Vec<LangId>)
        requires
            is_languages(langs@),
        ensures
            r@ == covered(self, langs@, namespace@),
    {
        let mut out: Vec<LangId> = Vec::new();
        match self.namespace_position(namespace) {
            Some(at) => {
                let ns: &Namespace = &self.namespaces[at];
                let ghost order = texts(ns.langs@);
                let mut i: usize = 0;
                assert(order.take(0) =~= Seq::<Seq<char>>::empty());
                while i < ns.langs.len()
                    invariant
                        i <= ns.langs.len(),
                        is_languages(langs@),
                        order == texts(ns.langs@),
                        out@ == ids_of(langs@, order.take(i as int)),
                    decreases ns.langs.len() - i,
                {
                    assert(order.take(i + 1).drop_last() =~= order.take(i as int));
                    assert(order.take(i + 1).last() == ns.langs@[i as int]@);
                    match langs.language_id(ns.langs[i].as_str()) {
                        Some(id) => {
                            out.push(id);
                        },
                        None => {},
                    }
                    i = i + 1;
                }
                assert(order.take(i as int) =~= order);
            },
            None => match langs.language_id(namespace) {
                Some(id) => {
                    out.push(id);
                },
                None => {},
            },
        }
        out
    }

    /// [`Self::resolve`], and when nothing answers, a search that asks the
    /// namespace's languages in turn to load the module.
    pub fn resolve_or_load(&self, langs: &Languages, namespace: &str, module: &str) -> (r: Result<
        (LangId, String),
        Load,
    >)
        requires
            is_languages(langs@),
        ensures
            match resolved(self, langs@, namespace@, module@) {
                Some((id, m)) => r matches Ok((rid, rm)) && rid == id && rm@ == m,
                None => r matches Err(load) && load.langs@ == covered(self, langs@, namespace@)
                    && load.next == 0,
            },
    {
        match self.resolve(langs, namespace, module) {
            Some(found) => Ok(found),
            None => Err(Load { langs: self.languages_of(langs, namespace), next: 0 }),
        }
    }
}

/// The first language from `from` on that has a loader.
pub open spec fn next_loader(langs: Seq<LangId>, loaders: Seq<LangId>, from: int) -> Option<int>
    decreases langs.len() - from,
{
    if from < 0 || from >= langs.len() {
        None
    } else if loaders.contains(langs[from]) {
        Some(from)
    } else {
        next_loader(langs, loaders, from + 1)
    }
}

impl Load {
    /// The next language to ask, of those with a loader; none when all have
    /// been asked.
    pub fn next(&mut self, loaders: &Vec<LangId>) -> (r: Option<LangId>)
        requires
            old(self).next <= old(self).langs.len(),
        ensures
            final(self).langs == old(self).langs,
            final(self).next <= final(self).langs.len(),
            match next_loader(old(self).langs@, loaders@, old(self).next as int) {
                Some(i) => r == Some(old(self).langs@[i]) && final(self).next == i + 1,
                None => r is None && final(self).next == old(self).langs.len(),
            },
    {
        while self.next < self.langs.len()
            invariant
                self.langs == old(self).langs,
                self.next <= self.langs.len(),
                next_loader(old(self).langs@, loaders@, old(self).next as int) == next_loader(
                    old(self).langs@,
                    loaders@,
                    self.next as int,
                ),
            decreases self.langs.len() - self.next,
        {
            let lang: LangId = self.langs[self.next];
            self.next = self.next + 1;
            if has_lang(loaders, lang) {
                return Some(lang);
            }
        }
        None
    }

    /// Go on after a loader answered: its failure is the error; a module it
    /// loaded is looked for again; otherwise the next language is asked.
    pub fn answered(
        &mut self,
        reg: &Registry,
        langs: &Languages,
        loaders: &Vec<LangId>,
        namespace: &str,
        module: &str,
        answer: Result<bool, String>,
    ) -> (r: Result<LoadStep, String>)
        requires
            is_languages(langs@),
            old(self).next <= old(self).langs.len(),
        ensures
            final(self).langs == old(self).langs,
            final(self).next <= final(self).langs.len(),
            match answer {
                Err(e) => r == Err::<LoadStep, String>(e),
                Ok(loaded) => match resolved(reg, langs@, namespace@, module@) {
                    Some((id, m)) => if loaded {
                        r matches Ok(LoadStep::Found(rid, rm)) && rid == id && rm@ == m
                    } else {
                        asks(r, old(self).langs@, loaders@, old(self).next as int)
                    },
                    None => asks(r, old(self).langs@, loaders@, old(self).next as int),
                },
            },
    {
        match answer {
            Err(e) => Err(e),
            Ok(loaded) => {
                if loaded {
                    match reg.resolve(langs, namespace, module) {
                        Some((id, m)) => {
                            return Ok(LoadStep::Found(id, m));
                        },
                        None => {},
                    }
                }
                match self.next(loaders) {
                    Some(lang) => Ok(LoadStep::Ask(lang)),
                    None => Ok(LoadStep::Nothing),
                }
            },
        }
    }
}

/// The step is to ask the next language with a loader, if there is one.
pub open spec fn asks(
    r: Result<LoadStep, String>,
    langs: Seq<LangId>,
    loaders: Seq<LangId>,
    from: int,
) -> bool {
    match next_loader(langs, loaders, from) {
        Some(i) => r matches Ok(LoadStep::Ask(lang)) && lang == langs[i],
        None => r matches Ok(LoadStep::Nothing),
    }
}

fn has_lang(list: &Vec<LangId>, lang: LangId) -> (r: bool)
    ensures
        r == list@.contains(lang),
{
    let mut i: usize = 0;
    while i < list.len()
        invariant
            i <= list.len(),
            forall|k: int| 0 <= k < i ==> list@[k] != lang,
        decreases list.len() - i,
    {
        if list[i] == lang {
            assert(list@[i as int] == lang);
            return true;
        }
        i = i + 1;
    }
    false
}

/// Every registered language is also a namespace under its own name: what it
/// published resolves there by its own name, where no configured namespace has
/// the language's.
pub proof fn law_a_language_is_a_namespace(
    reg: &Registry,
    names: Seq<Seq<char>>,
    lang: LangId,
    module: Seq<char>,
)
    requires
        is_languages(names),
        lang < names.len(),
        namespace_index(reg.namespaces@, names[lang as int]) is None,
        published(reg.interfaces@, lang, module),
    ensures
        resolved(reg, names, names[lang as int], module) == Some((lang, module)),
{
    let name = names[lang as int];
    assert(names.contains(name));
    let k = names.index_of(name);
    assert(0 <= k < names.len() && names[k] == name);
    assert(k == lang);
}

/// A spelling the namespace shows and the language has published is found.
proof fn lemma_spelling_found(
    all: Seq<Interface>,
    ns: Namespace,
    lang: LangId,
    list: Seq<Seq<char>>,
    i: int,
)
    requires
        0 <= i < list.len(),
        shows(ns, list[i]),
        published(all, lang, list[i]),
    ensures
        first_spelling(all, ns, lang, list) is Some,
    decreases list.len(),
{
    if i > 0 {
        assert(list.drop_first()[i - 1] == list[i]);
        lemma_spelling_found(all, ns, lang, list.drop_first(), i - 1);
    }
}

proof fn lemma_language_found(
    all: Seq<Interface>,
    names: Seq<Seq<char>>,
    ns: Namespace,
    langs: Seq<Seq<char>>,
    module: Seq<char>,
    k: int,
    id: LangId,
)
    requires
        0 <= k < langs.len(),
        id_of_language(names, langs[k]) == Some(id),
        first_spelling(all, ns, id, spellings(ns.name@, module)) is Some,
    ensures
        resolved_in(all, names, ns, langs, module) is Some,
    decreases langs.len(),
{
    if k > 0 {
        assert(langs.drop_first()[k - 1] == langs[k]);
        lemma_language_found(all, names, ns, langs.drop_first(), module, k - 1, id);
    }
}

/// A published module is found under every name a namespace gives it: its own,
/// and what is left of it behind the namespace's name.
pub proof fn law_import_names_resolve(
    reg: &Registry,
    names: Seq<Seq<char>>,
    at: int,
    lang: LangId,
    module: Seq<char>,
    name: Seq<char>,
)
    requires
        is_languages(names),
        lang < names.len(),
        0 <= at < reg.namespaces@.len(),
        namespace_index(reg.namespaces@, reg.namespaces@[at].name@) == Some(at),
        texts(reg.namespaces@[at].langs@).contains(names[lang as int]),
        published(reg.interfaces@, lang, module),
        names_in(reg.namespaces@[at], module).contains(name),
    ensures
        resolved(reg, names, reg.namespaces@[at].name@, name) is Some,
{
    let ns = reg.namespaces@[at];
    let list = spellings(ns.name@, name);
    let given = names_in(ns, module);
    let j = choose|j: int| 0 <= j < given.len() && given[j] == name;
    assert(shows(ns, module));
    reveal_strlit(".");
    reveal_strlit("/");
    if name == module {
        lemma_spelling_found(reg.interfaces@, ns, lang, list, 0);
    } else {
        let n = ns.name@.len() as int;
        assert(remainder(ns.name@, module) == Some(name));
        assert(ns.name@ =~= module.subrange(0, n));
        if module[n] == '.' {
            assert(list[1] =~= module);
            lemma_spelling_found(reg.interfaces@, ns, lang, list, 1);
        } else {
            assert(list[2] =~= module);
            lemma_spelling_found(reg.interfaces@, ns, lang, list, 2);
        }
    }
    let langs = texts(ns.langs@);
    let own = names[lang as int];
    let k = choose|k: int| 0 <= k < langs.len() && langs[k] == own;
    assert(names.contains(own));
    let x = names.index_of(own);
    assert(0 <= x < names.len() && names[x] == own);
    assert(x == lang);
    lemma_language_found(reg.interfaces@, names, ns, langs, name, k, lang);
}

} // verus!
