//! Reading a bundle back.

use vstd::prelude::*;
use vstd::utf8::{
    decode_utf8, encode_utf8, encode_utf8_decode_utf8, encode_utf8_valid_utf8, valid_utf8,
};

use crate::bundle::{
    le32, looks_like, magic, wire, wire_body, wire_bytes, wire_namespace, wire_namespaces,
    wire_section, wire_sections, wire_text, wire_texts, Bundle, BundleView, Entry, Error, Manifest,
    Section, SectionKind, SectionView, VERSION,
};
use crate::namespace::{texts, Namespace, NamespaceView};

verus! {

/// What was read, and what is left; or why it could not be.
pub type Parsed<T> = Result<(T, Seq<u8>), Error>;

/// The number in the first four bytes.
pub open spec fn u32_value(s: Seq<u8>) -> nat {
    (s[0] + 256 * s[1] + 65536 * s[2] + 16777216 * s[3]) as nat
}

#[verifier::opaque]
pub open spec fn u8_at(s: Seq<u8>) -> Parsed<u8> {
    if s.len() < 1 {
        Err(Error::Truncated)
    } else {
        Ok((s[0], s.skip(1)))
    }
}

#[verifier::opaque]
pub open spec fn u32_at(s: Seq<u8>) -> Parsed<nat> {
    if s.len() < 4 {
        Err(Error::Truncated)
    } else {
        Ok((u32_value(s), s.skip(4)))
    }
}

#[verifier::opaque]
pub open spec fn bytes_at(s: Seq<u8>) -> Parsed<Seq<u8>> {
    match u32_at(s) {
        Err(e) => Err(e),
        Ok((n, rest)) => if rest.len() < n {
            Err(Error::Truncated)
        } else {
            Ok((rest.take(n as int), rest.skip(n as int)))
        },
    }
}

#[verifier::opaque]
pub open spec fn text_at(s: Seq<u8>) -> Parsed<Seq<char>> {
    match bytes_at(s) {
        Err(e) => Err(e),
        Ok((b, rest)) => if valid_utf8(b) {
            Ok((decode_utf8(b), rest))
        } else {
            Err(Error::Text)
        },
    }
}

/// `first` in front of what was read.
pub open spec fn after<T>(first: Seq<T>, r: Parsed<Seq<T>>) -> Parsed<Seq<T>> {
    match r {
        Ok((list, rest)) => Ok((first + list, rest)),
        Err(e) => Err(e),
    }
}

pub open spec fn texts_at(n: nat, s: Seq<u8>) -> Parsed<Seq<Seq<char>>>
    decreases n,
{
    if n == 0 {
        Ok((Seq::empty(), s))
    } else {
        match text_at(s) {
            Err(e) => Err(e),
            Ok((t, rest)) => after(seq![t], texts_at((n - 1) as nat, rest)),
        }
    }
}

/// A count, and as many strings.
pub open spec fn text_list_at(s: Seq<u8>) -> Parsed<Seq<Seq<char>>> {
    match u32_at(s) {
        Err(e) => Err(e),
        Ok((n, rest)) => texts_at(n, rest),
    }
}

/// A namespace's modules: none after a zero byte, a list after any other.
pub open spec fn modules_at(s: Seq<u8>) -> Parsed<Option<Seq<Seq<char>>>> {
    match u8_at(s) {
        Err(e) => Err(e),
        Ok((b, rest)) => if b == 0 {
            Ok((None, rest))
        } else {
            match text_list_at(rest) {
                Err(e) => Err(e),
                Ok((list, rest)) => Ok((Some(list), rest)),
            }
        },
    }
}

#[verifier::opaque]
pub open spec fn namespace_at(s: Seq<u8>) -> Parsed<NamespaceView> {
    match text_at(s) {
        Err(e) => Err(e),
        Ok((name, s1)) => match text_list_at(s1) {
            Err(e) => Err(e),
            Ok((langs, s2)) => match modules_at(s2) {
                Err(e) => Err(e),
                Ok((modules, s3)) => Ok((NamespaceView { name, langs, modules }, s3)),
            },
        },
    }
}

pub open spec fn namespaces_at(n: nat, s: Seq<u8>) -> Parsed<Seq<NamespaceView>>
    decreases n,
{
    if n == 0 {
        Ok((Seq::empty(), s))
    } else {
        match namespace_at(s) {
            Err(e) => Err(e),
            Ok((ns, rest)) => after(seq![ns], namespaces_at((n - 1) as nat, rest)),
        }
    }
}

#[verifier::opaque]
pub open spec fn section_at(s: Seq<u8>) -> Parsed<SectionView> {
    match u8_at(s) {
        Err(e) => Err(e),
        Ok((b, s0)) => match SectionKind::of(b) {
            None => Err(Error::Kind(b)),
            Some(kind) => match text_at(s0) {
                Err(e) => Err(e),
                Ok((lang, s1)) => match text_at(s1) {
                    Err(e) => Err(e),
                    Ok((format, s2)) => match text_at(s2) {
                        Err(e) => Err(e),
                        Ok((name, s3)) => match bytes_at(s3) {
                            Err(e) => Err(e),
                            Ok((data, s4)) => Ok(
                                (SectionView { kind, lang, format, name, data }, s4),
                            ),
                        },
                    },
                },
            },
        },
    }
}

pub open spec fn sections_at(n: nat, s: Seq<u8>) -> Parsed<Seq<SectionView>>
    decreases n,
{
    if n == 0 {
        Ok((Seq::empty(), s))
    } else {
        match section_at(s) {
            Err(e) => Err(e),
            Ok((x, rest)) => after(seq![x], sections_at((n - 1) as nat, rest)),
        }
    }
}

/// A count, and as many namespaces.
pub open spec fn namespace_list_at(s: Seq<u8>) -> Parsed<Seq<NamespaceView>> {
    match u32_at(s) {
        Err(e) => Err(e),
        Ok((n, rest)) => namespaces_at(n, rest),
    }
}

/// A count, and as many sections.
pub open spec fn section_list_at(s: Seq<u8>) -> Parsed<Seq<SectionView>> {
    match u32_at(s) {
        Err(e) => Err(e),
        Ok((n, rest)) => sections_at(n, rest),
    }
}

/// The manifest and the sections.
pub open spec fn body_at(s: Seq<u8>) -> Parsed<BundleView> {
    match text_at(s) {
        Err(e) => Err(e),
        Ok((name, s1)) => match text_at(s1) {
            Err(e) => Err(e),
            Ok((entry_lang, s2)) => match text_at(s2) {
                Err(e) => Err(e),
                Ok((entry_module, s3)) => match namespace_list_at(s3) {
                    Err(e) => Err(e),
                    Ok((namespaces, s4)) => match section_list_at(s4) {
                        Err(e) => Err(e),
                        Ok((sections, s5)) => Ok(
                            (
                                BundleView {
                                    name,
                                    entry_lang,
                                    entry_module,
                                    namespaces,
                                    sections,
                                },
                                s5,
                            ),
                        ),
                    },
                },
            },
        },
    }
}

/// The bundle in `bytes`: the first thing wrong with them, or what they hold.
/// Anything after the last section is not looked at.
pub open spec fn parsed(bytes: Seq<u8>) -> Result<BundleView, Error> {
    if !magic().is_prefix_of(bytes) {
        Err(Error::NotABundle)
    } else {
        match u32_at(bytes.skip(8)) {
            Err(e) => Err(e),
            Ok((version, s1)) => if version != 1 {
                Err(Error::Version(version as u32))
            } else {
                match u32_at(s1) {
                    Err(e) => Err(e),
                    Ok((flags, s2)) => if flags != 0 {
                        Err(Error::Flags(flags as u32))
                    } else {
                        match body_at(s2) {
                            Err(e) => Err(e),
                            Ok((b, _)) => Ok(b),
                        }
                    },
                }
            },
        }
    }
}

/// `String::from_utf8`: the text of the bytes when they are UTF-8, and
/// nothing otherwise.
#[verifier::external_body]
fn text_of_utf8(bytes: Vec<u8>) -> (r: Option<String>)
    ensures
        match r {
            Some(s) => valid_utf8(bytes@) && s@ == decode_utf8(bytes@),
            None => !valid_utf8(bytes@),
        },
{
    match String::from_utf8(bytes) {
        Ok(s) => Some(s),
        Err(_) => None,
    }
}

/// Bytes, and how far they have been read.
struct Reader<'a> {
    bytes: &'a [u8],
    at: usize,
}

impl<'a> Reader<'a> {
    spec fn inv(&self) -> bool {
        self.at <= self.bytes.len()
    }

    /// What is left to read.
    spec fn rest(&self) -> Seq<u8> {
        self.bytes@.skip(self.at as int)
    }

    fn take_u8(&mut self) -> (r: Result<u8, Error>)
        requires
            old(self).inv(),
        ensures
            final(self).inv(),
            match u8_at(old(self).rest()) {
                Ok((b, rest)) => r == Ok::<u8, Error>(b) && final(self).rest() == rest,
                Err(e) => r == Err::<u8, Error>(e),
            },
    {
        proof {
            reveal(u8_at);
        }
        if self.at == self.bytes.len() {
            return Err(Error::Truncated);
        }
        let b: u8 = self.bytes[self.at];
        self.at = self.at + 1;
        assert(self.rest() =~= old(self).rest().skip(1));
        Ok(b)
    }

    fn take_u32(&mut self) -> (r: Result<u32, Error>)
        requires
            old(self).inv(),
        ensures
            final(self).inv(),
            final(self).bytes == old(self).bytes,
            match u32_at(old(self).rest()) {
                Ok((n, rest)) => r matches Ok(v) && v == n && final(self).rest() == rest,
                Err(e) => r == Err::<u32, Error>(e),
            },
    {
        proof {
            reveal(u32_at);
        }
        if self.bytes.len() - self.at < 4 {
            return Err(Error::Truncated);
        }
        let b0: u32 = self.bytes[self.at] as u32;
        let b1: u32 = self.bytes[self.at + 1] as u32;
        let b2: u32 = self.bytes[self.at + 2] as u32;
        let b3: u32 = self.bytes[self.at + 3] as u32;
        self.at = self.at + 4;
        assert(self.rest() =~= old(self).rest().skip(4));
        Ok(b0 + 256 * b1 + 65536 * b2 + 16777216 * b3)
    }

    fn take_bytes(&mut self) -> (r: Result<Vec<u8>, Error>)
        requires
            old(self).inv(),
        ensures
            final(self).inv(),
            match bytes_at(old(self).rest()) {
                Ok((b, rest)) => r matches Ok(v) && v@ == b && final(self).rest() == rest,
                Err(e) => r matches Err(x) && x == e,
            },
    {
        proof {
            reveal(bytes_at);
        }
        let n: usize = match self.take_u32() {
            Ok(n) => n as usize,
            Err(e) => {
                return Err(e);
            },
        };
        let ghost rest = self.rest();
        if self.bytes.len() - self.at < n {
            return Err(Error::Truncated);
        }
        let from: usize = self.at;
        let mut out: Vec<u8> = Vec::new();
        while self.at < from + n
            invariant
                self.bytes == old(self).bytes,
                from + n <= self.bytes.len(),
                from <= self.at <= from + n,
                out@ == self.bytes@.subrange(from as int, self.at as int),
            decreases from + n - self.at,
        {
            out.push(self.bytes[self.at]);
            self.at = self.at + 1;
        }
        proof {
            assert(out@ =~= rest.take(n as int));
            assert(self.rest() =~= rest.skip(n as int));
        }
        Ok(out)
    }

    fn take_text(&mut self) -> (r: Result<String, Error>)
        requires
            old(self).inv(),
        ensures
            final(self).inv(),
            match text_at(old(self).rest()) {
                Ok((t, rest)) => r matches Ok(s) && s@ == t && final(self).rest() == rest,
                Err(e) => r matches Err(x) && x == e,
            },
    {
        proof {
            reveal(text_at);
        }
        match self.take_bytes() {
            Ok(b) => match text_of_utf8(b) {
                Some(s) => Ok(s),
                None => Err(Error::Text),
            },
            Err(e) => Err(e),
        }
    }

    fn take_texts(&mut self) -> (r: Result<Vec<String>, Error>)
        requires
            old(self).inv(),
        ensures
            final(self).inv(),
            match text_list_at(old(self).rest()) {
                Ok((list, rest)) => r matches Ok(v) && texts(v@) == list && final(self).rest()
                    == rest,
                Err(e) => r matches Err(x) && x == e,
            },
    {
        let n: u32 = match self.take_u32() {
            Ok(n) => n,
            Err(e) => {
                return Err(e);
            },
        };
        let ghost start = self.rest();
        let mut out: Vec<String> = Vec::new();
        let mut i: u32 = 0;
        assert(texts(out@) =~= Seq::<Seq<char>>::empty());
        proof {
            lemma_after_nothing(texts_at(n as nat, start));
        }
        while i < n
            invariant
                i <= n,
                self.inv(),
                texts_at(n as nat, start) == after(
                    texts(out@),
                    texts_at((n - i) as nat, self.rest()),
                ),
                text_list_at(old(self).rest()) == texts_at(n as nat, start),
            decreases n - i,
        {
            let ghost s = self.rest();
            let ghost left = (n - i - 1) as nat;
            match self.take_text() {
                Ok(t) => {
                    let ghost before = texts(out@);
                    let ghost text = t@;
                    out.push(t);
                    proof {
                        assert(texts(out@) =~= before + seq![text]);
                        lemma_after_more(before, seq![text], texts_at(left, self.rest()));
                    }
                },
                Err(e) => {
                    return Err(e);
                },
            }
            i = i + 1;
        }
        assert(texts(out@) + Seq::<Seq<char>>::empty() =~= texts(out@));
        Ok(out)
    }

    fn take_namespace(&mut self) -> (r: Result<Namespace, Error>)
        requires
            old(self).inv(),
        ensures
            final(self).inv(),
            match namespace_at(old(self).rest()) {
                Ok((ns, rest)) => r matches Ok(v) && v@ == ns && final(self).rest() == rest,
                Err(e) => r matches Err(x) && x == e,
            },
    {
        proof {
            reveal(namespace_at);
        }
        let name: String = match self.take_text() {
            Ok(s) => s,
            Err(e) => {
                return Err(e);
            },
        };
        let langs: Vec<String> = match self.take_texts() {
            Ok(v) => v,
            Err(e) => {
                return Err(e);
            },
        };
        let some: u8 = match self.take_u8() {
            Ok(b) => b,
            Err(e) => {
                return Err(e);
            },
        };
        let modules: Option<Vec<String>> = if some == 0 {
            None
        } else {
            match self.take_texts() {
                Ok(v) => Some(v),
                Err(e) => {
                    return Err(e);
                },
            }
        };
        Ok(Namespace { name, langs, modules })
    }

    fn take_namespaces(&mut self) -> (r: Result<Vec<Namespace>, Error>)
        requires
            old(self).inv(),
        ensures
            final(self).inv(),
            match namespace_list_at(old(self).rest()) {
                Ok((list, rest)) => r matches Ok(v) && v@.map_values(|x: Namespace| x@) == list
                    && final(self).rest() == rest,
                Err(e) => r matches Err(x) && x == e,
            },
    {
        let n: u32 = match self.take_u32() {
            Ok(n) => n,
            Err(e) => {
                return Err(e);
            },
        };
        let ghost start = self.rest();
        let mut out: Vec<Namespace> = Vec::new();
        let mut i: u32 = 0;
        let ghost view = |x: Namespace| x@;
        assert(out@.map_values(view) =~= Seq::<NamespaceView>::empty());
        proof {
            lemma_after_nothing(namespaces_at(n as nat, start));
        }
        while i < n
            invariant
                i <= n,
                self.inv(),
                view == (|x: Namespace| x@),
                namespaces_at(n as nat, start) == after(
                    out@.map_values(view),
                    namespaces_at((n - i) as nat, self.rest()),
                ),
                namespace_list_at(old(self).rest()) == namespaces_at(n as nat, start),
            decreases n - i,
        {
            let ghost left = (n - i - 1) as nat;
            match self.take_namespace() {
                Ok(x) => {
                    let ghost before = out@.map_values(view);
                    let ghost one = x@;
                    out.push(x);
                    proof {
                        assert(out@.map_values(view) =~= before + seq![one]);
                        lemma_after_more(before, seq![one], namespaces_at(left, self.rest()));
                    }
                },
                Err(e) => {
                    return Err(e);
                },
            }
            i = i + 1;
        }
        assert(out@.map_values(view) + Seq::<NamespaceView>::empty() =~= out@.map_values(view));
        Ok(out)
    }

    fn take_section(&mut self) -> (r: Result<Section, Error>)
        requires
            old(self).inv(),
        ensures
            final(self).inv(),
            match section_at(old(self).rest()) {
                Ok((s, rest)) => r matches Ok(v) && v@ == s && final(self).rest() == rest,
                Err(e) => r matches Err(x) && x == e,
            },
    {
        proof {
            reveal(section_at);
        }
        let b: u8 = match self.take_u8() {
            Ok(b) => b,
            Err(e) => {
                return Err(e);
            },
        };
        let kind: SectionKind = match SectionKind::from_byte(b) {
            Some(k) => k,
            None => {
                return Err(Error::Kind(b));
            },
        };
        let lang: String = match self.take_text() {
            Ok(s) => s,
            Err(e) => {
                return Err(e);
            },
        };
        let format: String = match self.take_text() {
            Ok(s) => s,
            Err(e) => {
                return Err(e);
            },
        };
        let name: String = match self.take_text() {
            Ok(s) => s,
            Err(e) => {
                return Err(e);
            },
        };
        match self.take_bytes() {
            Ok(data) => Ok(Section { kind, lang, format, name, data }),
            Err(e) => Err(e),
        }
    }

    fn take_sections(&mut self) -> (r: Result<Vec<Section>, Error>)
        requires
            old(self).inv(),
        ensures
            final(self).inv(),
            match section_list_at(old(self).rest()) {
                Ok((list, rest)) => r matches Ok(v) && v@.map_values(|x: Section| x@) == list
                    && final(self).rest() == rest,
                Err(e) => r matches Err(x) && x == e,
            },
    {
        let n: u32 = match self.take_u32() {
            Ok(n) => n,
            Err(e) => {
                return Err(e);
            },
        };
        let ghost start = self.rest();
        let mut out: Vec<Section> = Vec::new();
        let mut i: u32 = 0;
        let ghost view = |x: Section| x@;
        assert(out@.map_values(view) =~= Seq::<SectionView>::empty());
        proof {
            lemma_after_nothing(sections_at(n as nat, start));
        }
        while i < n
            invariant
                i <= n,
                self.inv(),
                view == (|x: Section| x@),
                sections_at(n as nat, start) == after(
                    out@.map_values(view),
                    sections_at((n - i) as nat, self.rest()),
                ),
                section_list_at(old(self).rest()) == sections_at(n as nat, start),
            decreases n - i,
        {
            let ghost left = (n - i - 1) as nat;
            match self.take_section() {
                Ok(x) => {
                    let ghost before = out@.map_values(view);
                    let ghost one = x@;
                    out.push(x);
                    proof {
                        assert(out@.map_values(view) =~= before + seq![one]);
                        lemma_after_more(before, seq![one], sections_at(left, self.rest()));
                    }
                },
                Err(e) => {
                    return Err(e);
                },
            }
            i = i + 1;
        }
        assert(out@.map_values(view) + Seq::<SectionView>::empty() =~= out@.map_values(view));
        Ok(out)
    }

    fn take_body(&mut self) -> (r: Result<Bundle, Error>)
        requires
            old(self).inv(),
        ensures
            match body_at(old(self).rest()) {
                Ok((b, _)) => r matches Ok(v) && v@ == b,
                Err(e) => r matches Err(x) && x == e,
            },
    {
        let name: String = match self.take_text() {
            Ok(s) => s,
            Err(e) => {
                return Err(e);
            },
        };
        let lang: String = match self.take_text() {
            Ok(s) => s,
            Err(e) => {
                return Err(e);
            },
        };
        let module: String = match self.take_text() {
            Ok(s) => s,
            Err(e) => {
                return Err(e);
            },
        };
        let namespaces: Vec<Namespace> = match self.take_namespaces() {
            Ok(v) => v,
            Err(e) => {
                return Err(e);
            },
        };
        let sections: Vec<Section> = match self.take_sections() {
            Ok(v) => v,
            Err(e) => {
                return Err(e);
            },
        };
        Ok(Bundle { manifest: Manifest { name, entry: Entry { lang, module }, namespaces }, sections })
    }
}

proof fn lemma_after_nothing<T>(r: Parsed<Seq<T>>)
    ensures
        after(Seq::empty(), r) == r,
{
    match r {
        Ok((list, _)) => {
            assert(Seq::<T>::empty() + list =~= list);
        },
        Err(_) => {},
    }
}

proof fn lemma_after_more<T>(first: Seq<T>, more: Seq<T>, r: Parsed<Seq<T>>)
    ensures
        after(first, after(more, r)) == after(first + more, r),
{
    match r {
        Ok((list, _)) => {
            assert(first + (more + list) =~= (first + more) + list);
        },
        Err(_) => {},
    }
}

/// The bundle in `bytes`.
pub fn load(bytes: &[u8]) -> (r: Result<Bundle, Error>)
    ensures
        match parsed(bytes@) {
            Ok(b) => r matches Ok(v) && v@ == b,
            Err(e) => r matches Err(x) && x == e,
        },
{
    if !looks_like(bytes) {
        return Err(Error::NotABundle);
    }
    let mut reader = Reader { bytes, at: 8 };
    let version: u32 = match reader.take_u32() {
        Ok(n) => n,
        Err(e) => {
            return Err(e);
        },
    };
    if version != VERSION {
        return Err(Error::Version(version));
    }
    let flags: u32 = match reader.take_u32() {
        Ok(n) => n,
        Err(e) => {
            return Err(e);
        },
    };
    if flags != 0 {
        return Err(Error::Flags(flags));
    }
    reader.take_body()
}

// What is written reads back.

/// A length or a count that four bytes hold.
pub open spec fn counts(n: nat) -> bool {
    n <= 0xffff_ffff
}

pub open spec fn text_fits(s: Seq<char>) -> bool {
    counts(encode_utf8(s).len())
}

pub open spec fn texts_fit(list: Seq<Seq<char>>) -> bool {
    counts(list.len()) && forall|i: int| 0 <= i < list.len() ==> text_fits(#[trigger] list[i])
}

pub open spec fn namespace_fits(ns: NamespaceView) -> bool {
    &&& text_fits(ns.name)
    &&& texts_fit(ns.langs)
    &&& ns.modules matches Some(list) ==> texts_fit(list)
}

pub open spec fn section_fits(s: SectionView) -> bool {
    text_fits(s.lang) && text_fits(s.format) && text_fits(s.name) && counts(s.data.len())
}

/// Every length and count in the bundle fits the four bytes it is written in.
pub open spec fn bundle_fits(b: BundleView) -> bool {
    &&& text_fits(b.name)
    &&& text_fits(b.entry_lang)
    &&& text_fits(b.entry_module)
    &&& counts(b.namespaces.len())
    &&& counts(b.sections.len())
    &&& forall|i: int| 0 <= i < b.namespaces.len() ==> namespace_fits(#[trigger] b.namespaces[i])
    &&& forall|i: int| 0 <= i < b.sections.len() ==> section_fits(#[trigger] b.sections[i])
}

proof fn lemma_u32(n: nat, rest: Seq<u8>)
    requires
        counts(n),
    ensures
        u32_at(le32(n) + rest) == Ok::<(nat, Seq<u8>), Error>((n, rest)),
{
    reveal(u32_at);
    reveal(le32);
    let s = le32(n) + rest;
    assert(s.skip(4) =~= rest);
    assert(s[0] == n % 256 && s[1] == n / 256 % 256 && s[2] == n / 65536 % 256 && s[3] == n
        / 16777216 % 256);
}

proof fn lemma_bytes(b: Seq<u8>, rest: Seq<u8>)
    requires
        counts(b.len()),
    ensures
        bytes_at(wire_bytes(b) + rest) == Ok::<(Seq<u8>, Seq<u8>), Error>((b, rest)),
{
    reveal(bytes_at);
    reveal(wire_bytes);
    assert(wire_bytes(b) + rest =~= le32(b.len()) + (b + rest));
    lemma_u32(b.len(), b + rest);
    assert((b + rest).take(b.len() as int) =~= b);
    assert((b + rest).skip(b.len() as int) =~= rest);
}

proof fn lemma_text(s: Seq<char>, rest: Seq<u8>)
    requires
        text_fits(s),
    ensures
        text_at(wire_text(s) + rest) == Ok::<(Seq<char>, Seq<u8>), Error>((s, rest)),
{
    reveal(text_at);
    reveal(wire_text);
    lemma_bytes(encode_utf8(s), rest);
    encode_utf8_valid_utf8(s);
    encode_utf8_decode_utf8(s);
}

proof fn lemma_texts(list: Seq<Seq<char>>, rest: Seq<u8>)
    requires
        forall|i: int| 0 <= i < list.len() ==> text_fits(#[trigger] list[i]),
    ensures
        texts_at(list.len(), wire_texts(list) + rest) == Ok::<(Seq<Seq<char>>, Seq<u8>), Error>(
            (list, rest),
        ),
    decreases list.len(),
{
    if list.len() == 0 {
        assert(wire_texts(list) + rest =~= rest);
        assert(list =~= Seq::<Seq<char>>::empty());
    } else {
        let tail = list.drop_first();
        assert forall|i: int| 0 <= i < tail.len() implies text_fits(#[trigger] tail[i]) by {
            assert(tail[i] == list[i + 1]);
        }
        assert(text_fits(list[0]));
        lemma_texts(tail, rest);
        assert(wire_texts(list) + rest =~= wire_text(list[0]) + (wire_texts(tail) + rest));
        lemma_text(list[0], wire_texts(tail) + rest);
        assert(seq![list[0]] + tail =~= list);
    }
}

proof fn lemma_text_list(list: Seq<Seq<char>>, rest: Seq<u8>)
    requires
        texts_fit(list),
    ensures
        text_list_at(le32(list.len()) + wire_texts(list) + rest) == Ok::<
            (Seq<Seq<char>>, Seq<u8>),
            Error,
        >((list, rest)),
{
    assert(le32(list.len()) + wire_texts(list) + rest =~= le32(list.len()) + (wire_texts(list)
        + rest));
    lemma_u32(list.len(), wire_texts(list) + rest);
    lemma_texts(list, rest);
}

/// Joining is associative.
proof fn lemma_two(a: Seq<u8>, b: Seq<u8>, c: Seq<u8>)
    ensures
        a + b + c == a + (b + c),
{
    assert(a + b + c =~= a + (b + c));
}

proof fn lemma_four(a: Seq<u8>, b: Seq<u8>, c: Seq<u8>, d: Seq<u8>, e: Seq<u8>)
    ensures
        a + b + c + d + e == a + (b + c + (d + e)),
{
    lemma_two(a + b + c, d, e);
    lemma_two(a, b, c);
    lemma_two(a, b + c, d + e);
}

proof fn lemma_byte(b: u8, rest: Seq<u8>)
    ensures
        u8_at(seq![b] + rest) == Ok::<(u8, Seq<u8>), Error>((b, rest)),
{
    reveal(u8_at);
    assert((seq![b] + rest).skip(1) =~= rest);
}

proof fn lemma_namespace(ns: NamespaceView, rest: Seq<u8>)
    requires
        namespace_fits(ns),
    ensures
        namespace_at(wire_namespace(ns) + rest) == Ok::<(NamespaceView, Seq<u8>), Error>(
            (ns, rest),
        ),
{
    reveal(namespace_at);
    reveal(wire_namespace);
    let langs = le32(ns.langs.len()) + wire_texts(ns.langs);
    match ns.modules {
        None => {
            let tail = seq![0u8] + rest;
            lemma_four(
                wire_text(ns.name),
                le32(ns.langs.len()),
                wire_texts(ns.langs),
                seq![0u8],
                rest,
            );
            lemma_text(ns.name, langs + tail);
            lemma_text_list(ns.langs, tail);
            lemma_byte(0, rest);
        },
        Some(list) => {
            let mods = le32(list.len()) + wire_texts(list);
            let flagged = seq![1u8] + le32(list.len()) + wire_texts(list);
            let tail = seq![1u8] + (mods + rest);
            assert(flagged + rest == tail) by {
                lemma_two(seq![1u8], le32(list.len()), wire_texts(list));
                lemma_two(seq![1u8], mods, rest);
            }
            lemma_four(
                wire_text(ns.name),
                le32(ns.langs.len()),
                wire_texts(ns.langs),
                flagged,
                rest,
            );
            lemma_text(ns.name, langs + tail);
            lemma_text_list(ns.langs, tail);
            lemma_byte(1, mods + rest);
            lemma_text_list(list, rest);
        },
    }
}

proof fn lemma_namespaces(list: Seq<NamespaceView>, rest: Seq<u8>)
    requires
        forall|i: int| 0 <= i < list.len() ==> namespace_fits(#[trigger] list[i]),
    ensures
        namespaces_at(list.len(), wire_namespaces(list) + rest) == Ok::<
            (Seq<NamespaceView>, Seq<u8>),
            Error,
        >((list, rest)),
    decreases list.len(),
{
    if list.len() == 0 {
        assert(wire_namespaces(list) + rest =~= rest);
        assert(list =~= Seq::<NamespaceView>::empty());
    } else {
        let tail = list.drop_first();
        assert forall|i: int| 0 <= i < tail.len() implies namespace_fits(#[trigger] tail[i]) by {
            assert(tail[i] == list[i + 1]);
        }
        assert(namespace_fits(list[0]));
        lemma_namespaces(tail, rest);
        lemma_two(wire_namespace(list[0]), wire_namespaces(tail), rest);
        lemma_namespace(list[0], wire_namespaces(tail) + rest);
        assert(seq![list[0]] + tail =~= list);
    }
}

proof fn lemma_section(s: SectionView, rest: Seq<u8>)
    requires
        section_fits(s),
    ensures
        section_at(wire_section(s) + rest) == Ok::<(SectionView, Seq<u8>), Error>((s, rest)),
{
    reveal(section_at);
    reveal(wire_section);
    let t4 = wire_bytes(s.data) + rest;
    let t3 = wire_text(s.name) + t4;
    let t2 = wire_text(s.format) + t3;
    let t1 = wire_text(s.lang) + t2;
    let kind = seq![s.kind.byte()];
    assert(wire_section(s) + rest == kind + t1) by {
        lemma_two(kind + wire_text(s.lang) + wire_text(s.format) + wire_text(s.name), wire_bytes(
            s.data,
        ), rest);
        lemma_two(kind + wire_text(s.lang) + wire_text(s.format), wire_text(s.name), t4);
        lemma_two(kind + wire_text(s.lang), wire_text(s.format), t3);
        lemma_two(kind, wire_text(s.lang), t2);
    }
    lemma_byte(s.kind.byte(), t1);
    lemma_text(s.lang, t2);
    lemma_text(s.format, t3);
    lemma_text(s.name, t4);
    lemma_bytes(s.data, rest);
}

proof fn lemma_sections(list: Seq<SectionView>, rest: Seq<u8>)
    requires
        forall|i: int| 0 <= i < list.len() ==> section_fits(#[trigger] list[i]),
    ensures
        sections_at(list.len(), wire_sections(list) + rest) == Ok::<
            (Seq<SectionView>, Seq<u8>),
            Error,
        >((list, rest)),
    decreases list.len(),
{
    if list.len() == 0 {
        assert(wire_sections(list) + rest =~= rest);
        assert(list =~= Seq::<SectionView>::empty());
    } else {
        let tail = list.drop_first();
        assert forall|i: int| 0 <= i < tail.len() implies section_fits(#[trigger] tail[i]) by {
            assert(tail[i] == list[i + 1]);
        }
        assert(section_fits(list[0]));
        lemma_sections(tail, rest);
        lemma_two(wire_section(list[0]), wire_sections(tail), rest);
        lemma_section(list[0], wire_sections(tail) + rest);
        assert(seq![list[0]] + tail =~= list);
    }
}

/// A bundle survives the round trip: what is emitted loads as what was
/// emitted, whatever comes after it.
pub proof fn law_bundle_round_trip(b: BundleView, rest: Seq<u8>)
    requires
        bundle_fits(b),
    ensures
        parsed(wire(b) + rest) == Ok::<BundleView, Error>(b),
{
    let t5 = wire_sections(b.sections) + rest;
    let t4 = le32(b.sections.len()) + t5;
    let spaces = wire_namespaces(b.namespaces) + t4;
    let t3 = le32(b.namespaces.len()) + spaces;
    let t2 = wire_text(b.entry_module) + t3;
    let t1 = wire_text(b.entry_lang) + t2;
    let body = wire_body(b) + rest;
    assert(body == wire_text(b.name) + t1) by {
        lemma_body(
            wire_text(b.name),
            wire_text(b.entry_lang),
            wire_text(b.entry_module),
            le32(b.namespaces.len()),
            wire_namespaces(b.namespaces),
            le32(b.sections.len()),
            wire_sections(b.sections),
            rest,
        );
    }
    lemma_head(wire_body(b), rest);
    lemma_text(b.name, t1);
    lemma_text(b.entry_lang, t2);
    lemma_text(b.entry_module, t3);
    lemma_u32(b.namespaces.len(), spaces);
    lemma_namespaces(b.namespaces, t4);
    lemma_u32(b.sections.len(), t5);
    lemma_sections(b.sections, rest);
}

proof fn lemma_body(
    a: Seq<u8>,
    b: Seq<u8>,
    c: Seq<u8>,
    d: Seq<u8>,
    e: Seq<u8>,
    f: Seq<u8>,
    g: Seq<u8>,
    h: Seq<u8>,
)
    ensures
        a + b + c + d + e + f + g + h == a + (b + (c + (d + (e + (f + (g + h)))))),
{
    lemma_two(a + b + c + d + e + f, g, h);
    lemma_two(a + b + c + d + e, f, g + h);
    lemma_two(a + b + c + d, e, f + (g + h));
    lemma_two(a + b + c, d, e + (f + (g + h)));
    lemma_two(a + b, c, d + (e + (f + (g + h))));
    lemma_two(a, b, c + (d + (e + (f + (g + h)))));
}

/// What follows the magic, the version and the flags is read as the body.
proof fn lemma_head(body: Seq<u8>, rest: Seq<u8>)
    ensures
        ({
            let whole = magic() + le32(1) + le32(0) + body + rest;
            &&& magic().is_prefix_of(whole)
            &&& u32_at(whole.skip(8)) == Ok::<(nat, Seq<u8>), Error>((1, le32(0) + (body + rest)))
            &&& u32_at(le32(0) + (body + rest)) == Ok::<(nat, Seq<u8>), Error>((0, body + rest))
        }),
{
    let s2 = le32(0) + (body + rest);
    let s1 = le32(1) + s2;
    let whole = magic() + le32(1) + le32(0) + body + rest;
    lemma_two(magic() + le32(1) + le32(0), body, rest);
    lemma_two(magic() + le32(1), le32(0), body + rest);
    lemma_two(magic(), le32(1), s2);
    assert(whole == magic() + s1);
    assert(whole.take(8) =~= magic());
    assert(whole.skip(8) =~= s1);
    lemma_u32(1, s2);
    lemma_u32(0, body + rest);
}

} // verus!
