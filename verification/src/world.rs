//! The languages of a world: who is registered, under which name and id.

use vstd::prelude::*;

use crate::namespace::texts;
use crate::text::{cat, decimal, decimal_text, same_text};
use crate::value::LangId;

verus! {

/// Why a registration was refused.
#[derive(Clone, Debug, PartialEq, Eq)]
pub enum RegisterError {
    /// The language's name is taken.
    Language(String),
    /// Two languages of one namespace would address a module by one name.
    ModuleClash { namespace: String, module: String, langs: [String; 2] },
}

/// The languages by id; the core's is the first.
pub struct Languages {
    names: Vec<String>,
}

impl View for Languages {
    type V = Seq<Seq<char>>;

    /// The names in the order of their ids.
    closed spec fn view(&self) -> Seq<Seq<char>> {
        texts(self.names@)
    }
}

/// A table of languages: the core first, and no name twice.
pub open spec fn is_languages(names: Seq<Seq<char>>) -> bool {
    &&& 0 < names.len() <= u32::MAX
    &&& names[0] == "core"@
    &&& names.no_duplicates()
}

/// The name of language `id`: its number for one nobody registered.
pub open spec fn name_of_language(names: Seq<Seq<char>>, id: LangId) -> Seq<char> {
    if id < names.len() {
        names[id as int]
    } else {
        "lang "@ + decimal(id as nat)
    }
}

/// The id of the language called `name`.
pub open spec fn id_of_language(names: Seq<Seq<char>>, name: Seq<char>) -> Option<LangId> {
    if names.contains(name) {
        Some(names.index_of(name) as u32)
    } else {
        None
    }
}

proof fn lemma_found(names: Seq<Seq<char>>, name: Seq<char>, i: int)
    requires
        names.no_duplicates(),
        0 <= i < names.len(),
        names[i] == name,
    ensures
        names.contains(name),
        names.index_of(name) == i,
{
    let k = names.index_of(name);
    assert(0 <= k < names.len() && names[k] == name);
}

impl Languages {
    pub fn new() -> (l: Languages)
        ensures
            is_languages(l@),
            l@ == seq!["core"@],
    {
        let mut names: Vec<String> = Vec::new();
        names.push("core".to_owned());
        let l = Languages { names };
        assert(l@ =~= seq!["core"@]);
        l
    }

    /// The id of the language called `name`, if it is registered.
    pub fn language_id(&self, name: &str) -> (r: Option<LangId>)
        requires
            is_languages(self@),
        ensures
            r == id_of_language(self@, name@),
    {
        let mut i: usize = 0;
        while i < self.names.len()
            invariant
                i <= self.names.len(),
                is_languages(self@),
                forall|k: int| 0 <= k < i ==> #[trigger] self@[k] != name@,
            decreases self.names.len() - i,
        {
            if same_text(self.names[i].as_str(), name) {
                proof {
                    assert(self@[i as int] == name@);
                    lemma_found(self@, name@, i as int);
                }
                return Some(i as u32);
            }
            assert(self@[i as int] != name@);
            i = i + 1;
        }
        None
    }

    /// The name of language `id`.
    pub fn language_name(&self, id: LangId) -> (s: String)
        ensures
            s@ == name_of_language(self@, id),
    {
        if (id as usize) < self.names.len() {
            self.names[id as usize].clone()
        } else {
            cat("lang ", decimal_text(id as u64).as_str())
        }
    }

    /// Register a language under a name nobody has: the next id.
    pub fn register(&mut self, name: &str) -> (r: Result<LangId, RegisterError>)
        requires
            is_languages(old(self)@),
            old(self)@.len() < u32::MAX,
        ensures
            is_languages(final(self)@),
            match r {
                Ok(id) => {
                    &&& !old(self)@.contains(name@)
                    &&& id == old(self)@.len()
                    &&& final(self)@ == old(self)@.push(name@)
                },
                Err(e) => {
                    &&& old(self)@.contains(name@)
                    &&& final(self)@ == old(self)@
                    &&& e matches RegisterError::Language(s) && s@ == name@
                },
            },
    {
        if self.language_id(name).is_some() {
            return Err(RegisterError::Language(name.to_owned()));
        }
        let id: usize = self.names.len();
        self.names.push(name.to_owned());
        assert(self@ =~= old(self)@.push(name@));
        Ok(id as u32)
    }
}

/// A registered language is found by its name, and named by its id.
pub proof fn law_languages_round_trip(names: Seq<Seq<char>>, id: LangId)
    requires
        is_languages(names),
        id < names.len(),
    ensures
        id_of_language(names, name_of_language(names, id)) == Some(id),
{
    lemma_found(names, names[id as int], id as int);
}

} // verus!
