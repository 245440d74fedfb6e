//! The symbol table: every member name the protocol is asked about, interned
//! once. A symbol is an id and a name; what a runtime keys its own tables by
//! is that runtime's adapter's to derive from the name.

use vstd::prelude::*;

use crate::text::same_text;

verus! {

/// How many symbols a table holds.
pub const CAPACITY: usize = 4194304;

/// An interned name. The table assigns ids in order of first use, and id zero
/// is the empty string.
#[derive(Clone, Copy, Debug, PartialEq, Eq, Hash, Structural)]
pub struct Symbol(pub u32);

/// The names by id, each once.
pub struct SymbolTable {
    names: Vec<String>,
}

impl View for SymbolTable {
    type V = Seq<Seq<char>>;

    /// The names in the order of their ids.
    closed spec fn view(&self) -> Seq<Seq<char>> {
        self.names@.map_values(|s: String| s@)
    }
}

/// A table of names: the empty one first, and none twice.
pub open spec fn is_table(names: Seq<Seq<char>>) -> bool {
    &&& 0 < names.len() <= 4194304
    &&& names[0] == Seq::<char>::empty()
    &&& names.no_duplicates()
}

/// The id of `name`.
pub open spec fn id_of(names: Seq<Seq<char>>, name: Seq<char>) -> Option<Symbol> {
    if names.contains(name) {
        Some(Symbol(names.index_of(name) as u32))
    } else {
        None
    }
}

/// The name behind `sym`: empty for an id that was never issued.
pub open spec fn name_of(names: Seq<Seq<char>>, sym: Symbol) -> Seq<char> {
    if sym.0 < names.len() {
        names[sym.0 as int]
    } else {
        Seq::empty()
    }
}

/// The names once `name` is interned.
pub open spec fn interned(names: Seq<Seq<char>>, name: Seq<char>) -> Seq<Seq<char>> {
    if names.contains(name) {
        names
    } else {
        names.push(name)
    }
}

/// A name that occurs once is found where it is.
proof fn lemma_at(names: Seq<Seq<char>>, name: Seq<char>, i: int)
    requires
        names.no_duplicates(),
        0 <= i < names.len(),
        names[i] == name,
    ensures
        names.contains(name),
        names.index_of(name) == i,
{
    let k = names.index_of(name);
    assert(0 <= k < names.len() && names[k] == name);
}

impl Symbol {
    /// The empty string's symbol.
    pub fn empty() -> (s: Symbol)
        ensures
            s == Symbol(0),
    {
        Symbol(0)
    }

    /// [`SymbolTable::intern`].
    pub fn intern(table: &mut SymbolTable, name: &str) -> (s: Symbol)
        requires
            is_table(old(table)@),
            old(table)@.len() < 4194304 || old(table)@.contains(name@),
        ensures
            is_table(final(table)@),
            final(table)@ == if old(table)@.contains(name@) {
                old(table)@
            } else {
                old(table)@.push(name@)
            },
            Some(s) == id_of(final(table)@, name@),
    {
        table.intern(name)
    }

    /// [`SymbolTable::name`].
    pub fn name(self, table: &SymbolTable) -> (s: &str)
        requires
            is_table(table@),
        ensures
            s@ == name_of(table@, self),
    {
        table.name(self)
    }
}

impl SymbolTable {
    pub fn new() -> (t: SymbolTable)
        ensures
            is_table(t@),
            t@ == seq![Seq::<char>::empty()],
    {
        let mut names: Vec<String> = Vec::new();
        names.push(String::new());
        let t = SymbolTable { names };
        assert(t@ =~= seq![Seq::<char>::empty()]) by {
            assert(t.names@[0]@ =~= Seq::<char>::empty());
        }
        t
    }

    /// How many names the table holds.
    pub fn len(&self) -> (n: usize)
        ensures
            n == self@.len(),
    {
        self.names.len()
    }

    /// The symbol for `name` if it has been interned.
    pub fn lookup(&self, name: &str) -> (r: Option<Symbol>)
        requires
            is_table(self@),
        ensures
            r == id_of(self@, name@),
    {
        let mut i: usize = 0;
        while i < self.names.len()
            invariant
                i <= self.names.len(),
                is_table(self@),
                forall|k: int| 0 <= k < i ==> #[trigger] self@[k] != name@,
            decreases self.names.len() - i,
        {
            if same_text(self.names[i].as_str(), name) {
                proof {
                    assert(self@[i as int] == name@);
                    lemma_at(self@, name@, i as int);
                }
                return Some(Symbol(i as u32));
            }
            assert(self@[i as int] != name@);
            i = i + 1;
        }
        None
    }

    /// The symbol for `name`, created on first use. A new name does not fit a
    /// full table.
    pub fn intern(&mut self, name: &str) -> (s: Symbol)
        requires
            is_table(old(self)@),
            old(self)@.len() < 4194304 || old(self)@.contains(name@),
        ensures
            is_table(final(self)@),
            final(self)@ == if old(self)@.contains(name@) {
                old(self)@
            } else {
                old(self)@.push(name@)
            },
            Some(s) == id_of(final(self)@, name@),
    {
        match self.lookup(name) {
            Some(s) => s,
            None => {
                let id: usize = self.names.len();
                self.names.push(name.to_owned());
                proof {
                    assert(self@ =~= old(self)@.push(name@));
                    assert(self@[id as int] == name@);
                    lemma_at(self@, name@, id as int);
                }
                Symbol(id as u32)
            },
        }
    }

    /// The name behind `sym`; empty for an id the table never issued.
    pub fn name(&self, sym: Symbol) -> (s: &str)
        requires
            is_table(self@),
        ensures
            s@ == name_of(self@, sym),
    {
        if (sym.0 as usize) < self.names.len() {
            self.names[sym.0 as usize].as_str()
        } else {
            assert(self@[0] == self.names@[0]@);
            self.names[0].as_str()
        }
    }
}

/// The symbol for `name`, created on first use.
pub fn intern(table: &mut SymbolTable, name: &str) -> (s: Symbol)
    requires
        is_table(old(table)@),
        old(table)@.len() < 4194304 || old(table)@.contains(name@),
    ensures
        is_table(final(table)@),
        final(table)@ == if old(table)@.contains(name@) {
            old(table)@
        } else {
            old(table)@.push(name@)
        },
        Some(s) == id_of(final(table)@, name@),
{
    table.intern(name)
}

/// The symbol for `name` if it has been interned.
pub fn lookup(table: &SymbolTable, name: &str) -> (r: Option<Symbol>)
    requires
        is_table(table@),
    ensures
        r == id_of(table@, name@),
{
    table.lookup(name)
}

/// The name behind `sym`; empty for an id the table never issued.
pub fn name(table: &SymbolTable, sym: Symbol) -> (s: &str)
    requires
        is_table(table@),
    ensures
        s@ == name_of(table@, sym),
{
    table.name(sym)
}

/// Interning keeps every symbol that was issued, and a name and its symbol
/// lead to each other.
pub proof fn law_symbols_stay(names: Seq<Seq<char>>, name: Seq<char>, other: Seq<char>, sym: Symbol)
    requires
        is_table(names),
        id_of(names, name) == Some(sym),
    ensures
        name_of(names, sym) == name,
        !names.contains(other) ==> id_of(names.push(other), name) == Some(sym) && name_of(
            names.push(other),
            sym,
        ) == name,
{
    let grown = names.push(other);
    let i = names.index_of(name);
    if !names.contains(other) {
        assert(grown[i] == name);
        lemma_at(grown, name, i);
    }
}

/// Two names never share a symbol.
pub proof fn law_symbols_differ(names: Seq<Seq<char>>, a: Seq<char>, b: Seq<char>)
    requires
        is_table(names),
        names.contains(a),
        names.contains(b),
        id_of(names, a) == id_of(names, b),
    ensures
        a == b,
{
    assert(names[names.index_of(a)] == a);
    assert(names[names.index_of(b)] == b);
}

} // verus!
