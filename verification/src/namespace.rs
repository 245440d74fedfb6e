//! Namespaces: how an import addresses a module without naming its language.

use vstd::prelude::*;

verus! {

/// One configured namespace.
#[derive(Clone, Debug, PartialEq, Eq)]
pub struct Namespace {
    pub name: String,
    /// Language names, as registered.
    pub langs: Vec<String>,
    /// The modules visible through this namespace, by their own names; `None`
    /// is every module of its languages.
    pub modules: Option<Vec<String>>,
}

/// The texts of `list`.
pub open spec fn texts(list: Seq<String>) -> Seq<Seq<char>> {
    list.map_values(|s: String| s@)
}

/// What a namespace holds.
#[verifier::ext_equal]
pub struct NamespaceView {
    pub name: Seq<char>,
    pub langs: Seq<Seq<char>>,
    pub modules: Option<Seq<Seq<char>>>,
}

impl View for Namespace {
    type V = NamespaceView;

    open spec fn view(&self) -> NamespaceView {
        NamespaceView {
            name: self.name@,
            langs: texts(self.langs@),
            modules: match self.modules {
                Some(list) => Some(texts(list@)),
                None => None,
            },
        }
    }
}

} // verus!
