//! Guards and call sites: where a language that leaves its code by a long jump
//! lands, and what a site remembers of its sends.

use vstd::prelude::*;

use crate::protocol::{replied, Fault};
use crate::value::Value;

verus! {

/// What a place in a program remembers of the sends it makes.
#[derive(Clone, Copy, Debug, PartialEq, Eq, Structural)]
pub struct CallSite {
    /// The direct send the callee left, if it left one.
    pub direct: Option<usize>,
    /// A send from here has called back into the guarded language.
    pub reentrant: bool,
    /// How many sends took the plain path.
    pub plain: usize,
}

impl CallSite {
    pub fn new() -> (s: CallSite)
        ensures
            s == (CallSite { direct: None, reentrant: false, plain: 0 }),
    {
        CallSite { direct: None, reentrant: false, plain: 0 }
    }

    /// One more send on the plain path.
    pub open spec fn noted(self) -> CallSite {
        CallSite {
            plain: if self.plain < usize::MAX {
                (self.plain + 1) as usize
            } else {
                self.plain
            },
            ..self
        }
    }

    pub fn note_plain(&mut self)
        ensures
            *final(self) == old(self).noted(),
    {
        if self.plain < usize::MAX {
            self.plain = self.plain + 1;
        }
    }

    pub fn clear_direct(&mut self)
        ensures
            *final(self) == (CallSite { direct: None, ..*old(self) }),
    {
        self.direct = None;
    }

    /// The callee leaves a direct send for the next call.
    pub fn set_direct(&mut self, entry: usize)
        ensures
            *final(self) == (CallSite { direct: Some(entry), ..*old(self) }),
    {
        self.direct = Some(entry);
    }

    pub fn note_reentrant(&mut self)
        ensures
            *final(self) == (CallSite { reentrant: true, ..*old(self) }),
    {
        self.reentrant = true;
    }

    /// The direct send to try first; a site that has none counts a plain send.
    pub fn try_direct(&mut self) -> (r: Option<usize>)
        ensures
            r == old(self).direct,
            *final(self) == match r {
                Some(_) => *old(self),
                None => old(self).noted(),
            },
    {
        match self.direct {
            Some(f) => Some(f),
            None => {
                self.note_plain();
                None
            },
        }
    }

    /// What the direct send answered: the value, or that it raised. `None` when
    /// it no longer fits, which also forgets it.
    pub fn direct_answered(&mut self, code: u8, out: Value) -> (r: Option<Result<Value, ()>>)
        ensures
            r == match replied(code, out) {
                Ok(v) => Some(Ok::<Value, ()>(v)),
                Err(Fault::Raised) => Some(Err::<Value, ()>(())),
                Err(_) => None,
            },
            *final(self) == match r {
                Some(_) => *old(self),
                None => CallSite { direct: None, ..*old(self) }.noted(),
            },
    {
        if code == 0 {
            Some(Ok(out))
        } else if code == 3 {
            Some(Err(()))
        } else {
            self.clear_direct();
            self.note_plain();
            None
        }
    }
}

/// What a thread knows about the runs it is in.
pub struct Runs {
    /// How many guards the thread is under.
    pub guarded: u32,
    /// The sites of the runs entered without a guard, outermost first.
    pub entries: Vec<usize>,
}

/// How a run is entered.
#[derive(Clone, Copy, Debug, PartialEq, Eq, Structural)]
pub enum Entry {
    /// No language has a guard: the body just runs.
    Plain,
    /// Prepare, then run under the guard.
    Guarded,
    /// Run without the guard; a crossing inside marks the site.
    Marked(usize),
}

/// A run from `site` goes without the guard when the thread is under none and
/// no send from the site has called back before. Otherwise it is under the
/// guard, where there is one.
pub open spec fn entry_of(
    site: Option<(usize, bool)>,
    guarded: u32,
    has_guard: bool,
) -> Entry {
    match site {
        Some((s, reentrant)) => if !reentrant && guarded == 0 {
            Entry::Marked(s)
        } else if has_guard {
            Entry::Guarded
        } else {
            Entry::Plain
        },
        None => if has_guard {
            Entry::Guarded
        } else {
            Entry::Plain
        },
    }
}

impl Runs {
    pub fn new() -> (r: Runs)
        ensures
            r.guarded == 0,
            r.entries@ == Seq::<usize>::empty(),
    {
        Runs { guarded: 0, entries: Vec::new() }
    }

    /// Whether the caller runs under a guard: a throw in the guarded language's
    /// code lands there, so nothing between need catch it.
    pub fn guarded(&self) -> (r: bool)
        ensures
            r == (self.guarded > 0),
    {
        self.guarded > 0
    }

    /// Begin a run entered from `site`, when the caller keeps one.
    pub fn enter(&mut self, site: Option<(usize, bool)>, has_guard: bool) -> (e: Entry)
        requires
            old(self).guarded < u32::MAX,
        ensures
            e == entry_of(site, old(self).guarded, has_guard),
            final(self).guarded == if e is Guarded {
                old(self).guarded + 1
            } else {
                old(self).guarded as int
            },
            final(self).entries@ == match e {
                Entry::Marked(s) => old(self).entries@.push(s),
                _ => old(self).entries@,
            },
    {
        if let Some((s, reentrant)) = site {
            if !reentrant && self.guarded == 0 {
                self.entries.push(s);
                return Entry::Marked(s);
            }
        }
        if !has_guard {
            return Entry::Plain;
        }
        self.guarded = self.guarded + 1;
        Entry::Guarded
    }

    /// End a run: true when it ran through, false when a throw landed in its
    /// guard, the error pending.
    pub fn leave(&mut self, e: Entry, code: u8) -> (through: bool)
        requires
            e is Guarded ==> old(self).guarded > 0,
            e is Marked ==> old(self).entries.len() > 0,
        ensures
            through == (e is Guarded ==> code == 0),
            final(self).guarded == if e is Guarded {
                old(self).guarded - 1
            } else {
                old(self).guarded as int
            },
            final(self).entries@ == if e is Marked {
                old(self).entries@.drop_last()
            } else {
                old(self).entries@
            },
    {
        match e {
            Entry::Plain => true,
            Entry::Guarded => {
                self.guarded = self.guarded - 1;
                code == 0
            },
            Entry::Marked(_) => {
                let _last: Option<usize> = self.entries.pop();
                true
            },
        }
    }

    /// A crossing back into the guarded language: the site of the innermost run
    /// entered without the guard, to be marked, so that the next run from it is
    /// guarded.
    pub fn note_reentry(&self) -> (site: Option<usize>)
        ensures
            site == if self.entries.len() == 0 {
                None
            } else {
                Some(self.entries@.last())
            },
    {
        if self.entries.len() == 0 {
            None
        } else {
            Some(self.entries[self.entries.len() - 1])
        }
    }
}

/// A run leaves the thread as it found it.
pub proof fn law_runs_balance(
    before: Runs,
    inside: Runs,
    after: Runs,
    site: Option<(usize, bool)>,
    has_guard: bool,
)
    requires
        inside.guarded == if entry_of(site, before.guarded, has_guard) is Guarded {
            before.guarded + 1
        } else {
            before.guarded as int
        },
        inside.entries@ =~= match entry_of(site, before.guarded, has_guard) {
            Entry::Marked(s) => before.entries@.push(s),
            _ => before.entries@,
        },
        after.guarded == if entry_of(site, before.guarded, has_guard) is Guarded {
            inside.guarded - 1
        } else {
            inside.guarded as int
        },
        after.entries@ =~= if entry_of(site, before.guarded, has_guard) is Marked {
            inside.entries@.drop_last()
        } else {
            inside.entries@
        },
    ensures
        after.guarded == before.guarded,
        after.entries@ == before.entries@,
{
    assert(after.entries@ =~= before.entries@);
}

/// The first crossing of a run marks its site, and the next run from it is
/// under the guard.
pub proof fn law_marked_site_is_guarded(site: usize, guarded: u32)
    ensures
        entry_of(Some((site, true)), guarded, true) is Guarded,
{
}

} // verus!
