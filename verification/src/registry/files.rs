//! The file each module loaded from a project's sources came from: what a
//! source watch looks at.

use vstd::prelude::*;

use crate::text::same_text;
use crate::value::LangId;

verus! {

/// One module and the file it came from.
#[derive(Debug)]
pub struct SourceFile {
    pub lang: LangId,
    pub module: String,
    pub path: String,
}

pub struct SourceFiles {
    pub list: Vec<SourceFile>,
}

/// Whether the entry is for `module` of `lang`.
pub open spec fn is_of(f: SourceFile, lang: LangId, module: Seq<char>) -> bool {
    f.lang == lang && f.module@ == module
}

/// Whether the table says that `module` of `lang` came from `path`.
pub open spec fn came_from(
    list: Seq<SourceFile>,
    lang: LangId,
    module: Seq<char>,
    path: Seq<char>,
) -> bool {
    exists|i: int| 0 <= i < list.len() && is_of(#[trigger] list[i], lang, module) && list[i].path@
        == path
}

impl SourceFiles {
    /// One file per module.
    pub open spec fn inv(&self) -> bool {
        forall|i: int, j: int|
            #![trigger self.list@[i], self.list@[j]]
            0 <= i < j < self.list@.len() ==> !is_of(
                self.list@[i],
                self.list@[j].lang,
                self.list@[j].module@,
            )
    }

    pub fn new() -> (s: SourceFiles)
        ensures
            s.inv(),
            s.list@.len() == 0,
    {
        SourceFiles { list: Vec::new() }
    }

    /// Record that `module` of `lang` was loaded from `path`, replacing what was
    /// recorded of it.
    pub fn set_source(&mut self, lang: LangId, module: &str, path: &str)
        requires
            old(self).inv(),
        ensures
            final(self).inv(),
            forall|l: LangId, m: Seq<char>, p: Seq<char>| #[trigger]
                came_from(final(self).list@, l, m, p) <==> if l == lang && m == module@ {
                    p == path@
                } else {
                    came_from(old(self).list@, l, m, p)
                },
    {
        let ghost was = self.list@;
        let mut i: usize = 0;
        while i < self.list.len()
            invariant
                self.list@ == was,
                was == old(self).list@,
                old(self).inv(),
                i <= self.list.len(),
                forall|k: int| 0 <= k < i ==> !is_of(#[trigger] was[k], lang, module@),
            decreases self.list.len() - i,
        {
            if self.list[i].lang == lang && same_text(self.list[i].module.as_str(), module) {
                let _gone: SourceFile = self.list.remove(i);
                proof {
                    let rest = self.list@;
                    assert forall|k: int| 0 <= k < rest.len() implies !is_of(
                        #[trigger] rest[k],
                        lang,
                        module@,
                    ) by {
                        if k < i {
                            assert(rest[k] == was[k]);
                        } else {
                            assert(rest[k] == was[k + 1]);
                            assert(!is_of(was[i as int], was[k + 1].lang, was[k + 1].module@));
                        }
                    }
                    assert forall|l: LangId, m: Seq<char>, p: Seq<char>|
                        !(l == lang && m == module@) implies #[trigger] came_from(rest, l, m, p)
                        == came_from(was, l, m, p) by {
                        if came_from(was, l, m, p) {
                            let k = choose|k: int|
                                0 <= k < was.len() && is_of(#[trigger] was[k], l, m)
                                    && was[k].path@ == p;
                            let o = if k < i { k } else { k - 1 };
                            assert(rest[o] == was[k]);
                        }
                        if came_from(rest, l, m, p) {
                            let k = choose|k: int|
                                0 <= k < rest.len() && is_of(#[trigger] rest[k], l, m)
                                    && rest[k].path@ == p;
                            let o = if k < i { k } else { k + 1 };
                            assert(was[o] == rest[k]);
                        }
                    }
                    assert forall|a: int, b: int|
                        #![trigger rest[a], rest[b]]
                        0 <= a < b < rest.len() implies !is_of(
                        rest[a],
                        rest[b].lang,
                        rest[b].module@,
                    ) by {
                        let oa = if a < i { a } else { a + 1 };
                        let ob = if b < i { b } else { b + 1 };
                        assert(rest[a] == was[oa] && rest[b] == was[ob]);
                    }
                }
                self.add(lang, module, path);
                return ;
            }
            i = i + 1;
        }
        self.add(lang, module, path);
    }

    fn add(&mut self, lang: LangId, module: &str, path: &str)
        requires
            old(self).inv(),
            forall|k: int|
                0 <= k < old(self).list@.len() ==> !is_of(
                    #[trigger] old(self).list@[k],
                    lang,
                    module@,
                ),
        ensures
            final(self).inv(),
            forall|l: LangId, m: Seq<char>, p: Seq<char>| #[trigger]
                came_from(final(self).list@, l, m, p) <==> if l == lang && m == module@ {
                    p == path@
                } else {
                    came_from(old(self).list@, l, m, p)
                },
    {
        let ghost was = self.list@;
        self.list.push(SourceFile { lang, module: module.to_owned(), path: path.to_owned() });
        proof {
            let now = self.list@;
            let n = was.len() as int;
            assert(is_of(now[n], lang, module@) && now[n].path@ == path@);
            assert forall|l: LangId, m: Seq<char>, p: Seq<char>| #[trigger]
                came_from(now, l, m, p) <==> if l == lang && m == module@ {
                    p == path@
                } else {
                    came_from(was, l, m, p)
                } by {
                if came_from(now, l, m, p) {
                    let k = choose|k: int|
                        0 <= k < now.len() && is_of(#[trigger] now[k], l, m) && now[k].path@ == p;
                    if k < n {
                        assert(now[k] == was[k]);
                        assert(is_of(was[k], l, m));
                    }
                }
                if came_from(was, l, m, p) {
                    let k = choose|k: int|
                        0 <= k < was.len() && is_of(#[trigger] was[k], l, m) && was[k].path@ == p;
                    assert(now[k] == was[k]);
                }
            }
            assert forall|a: int, b: int|
                #![trigger now[a], now[b]]
                0 <= a < b < now.len() implies !is_of(now[a], now[b].lang, now[b].module@) by {
                assert(now[a] == was[a]);
                if b < n {
                    assert(now[b] == was[b]);
                }
            }
        }
    }

    /// Every module loaded from a file, with the file.
    pub fn sources(&self) -> (r: &Vec<SourceFile>)
        ensures
            *r == self.list,
    {
        &self.list
    }
}

} // verus!
