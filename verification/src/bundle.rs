//! The bundle: one file carrying a program and the modules of every language
//! it uses, each in its language's own form.
//!
//! The manifest names the bundle, its entry module, the one the driver
//! starts, and the namespaces the project's layout gave. Then come the
//! sections. The bundle versions its own framing only; a module's format is
//! its language's to read and to refuse.
//!
//! Wire format, all integers little-endian:
//!
//! ```text
//! magic         "CARIBOU\0"     8 bytes
//! version       u32
//! flags         u32             none defined; a set bit is refused
//! manifest      name, entry language, entry module, namespaces
//! section_count u32
//! sections      kind u8, language, format, name, data
//! ```
//!
//! A string or a byte string is its length as a `u32` and the bytes; a list is
//! its count as a `u32` and the items; a namespace is its name, its languages
//! and, after a `u8` that says whether there are any, its modules.

use vstd::prelude::*;
use vstd::string::*;
use vstd::utf8::encode_utf8;

use crate::namespace::{texts, Namespace, NamespaceView};
use crate::text::{cat, decimal, decimal_text, hex, hex_text, same_text};

pub mod laws;
pub mod read;

pub use crate::bundle::read::load;

verus! {

pub const VERSION: u32 = 1;

pub const MAGIC: [u8; 8] = [67, 65, 82, 73, 66, 79, 85, 0];

/// What a bundle starts with: `CARIBOU` and a zero.
pub open spec fn magic() -> Seq<u8> {
    seq![67, 65, 82, 73, 66, 79, 85, 0]
}

/// What a section holds.
#[derive(Clone, Copy, Debug, PartialEq, Eq, Structural)]
pub enum SectionKind {
    Module,
    Resource,
    Source,
    NativeLib,
    Language,
}

impl SectionKind {
    /// The kind's byte.
    pub open spec fn byte(self) -> u8 {
        match self {
            SectionKind::Module => 1,
            SectionKind::Resource => 2,
            SectionKind::Source => 3,
            SectionKind::NativeLib => 4,
            SectionKind::Language => 5,
        }
    }

    /// The kind whose byte is `b`.
    pub open spec fn of(b: u8) -> Option<SectionKind> {
        if b == 1 {
            Some(SectionKind::Module)
        } else if b == 2 {
            Some(SectionKind::Resource)
        } else if b == 3 {
            Some(SectionKind::Source)
        } else if b == 4 {
            Some(SectionKind::NativeLib)
        } else if b == 5 {
            Some(SectionKind::Language)
        } else {
            None
        }
    }

    pub fn to_byte(self) -> (b: u8)
        ensures
            b == self.byte(),
    {
        match self {
            SectionKind::Module => 1,
            SectionKind::Resource => 2,
            SectionKind::Source => 3,
            SectionKind::NativeLib => 4,
            SectionKind::Language => 5,
        }
    }

    pub fn from_byte(b: u8) -> (k: Option<SectionKind>)
        ensures
            k == SectionKind::of(b),
    {
        match b {
            1 => Some(SectionKind::Module),
            2 => Some(SectionKind::Resource),
            3 => Some(SectionKind::Source),
            4 => Some(SectionKind::NativeLib),
            5 => Some(SectionKind::Language),
            _ => None,
        }
    }
}

/// One section: for a module, `lang` names the language, `format` the form of
/// `data` as the language versions it, `name` the module in its language; for
/// a source, `lang` and the module's `name`, `format` empty, `data` the text;
/// for a resource, `name` alone, `lang` and `format` empty; for a native
/// library, `format` the target, `name` the file name, `lang` the runtime
/// whose plugin form it is, or empty for a plugin on the shared ABI; for a
/// language, `lang` its name, `format` how it comes, `name` the file it came
/// from or empty, `data` the snapshot or empty.
#[derive(Clone, Debug, PartialEq, Eq)]
pub struct Section {
    pub kind: SectionKind,
    pub lang: String,
    pub format: String,
    pub name: String,
    pub data: Vec<u8>,
}

/// What a section holds.
#[verifier::ext_equal]
pub struct SectionView {
    pub kind: SectionKind,
    pub lang: Seq<char>,
    pub format: Seq<char>,
    pub name: Seq<char>,
    pub data: Seq<u8>,
}

impl View for Section {
    type V = SectionView;

    open spec fn view(&self) -> SectionView {
        SectionView {
            kind: self.kind,
            lang: self.lang@,
            format: self.format@,
            name: self.name@,
            data: self.data@,
        }
    }
}

/// The module the driver starts: its language and its module name.
#[derive(Clone, Debug, PartialEq, Eq)]
pub struct Entry {
    pub lang: String,
    pub module: String,
}

#[derive(Clone, Debug, PartialEq, Eq)]
pub struct Manifest {
    pub name: String,
    pub entry: Entry,
    pub namespaces: Vec<Namespace>,
}

#[derive(Clone, Debug, PartialEq, Eq)]
pub struct Bundle {
    pub manifest: Manifest,
    pub sections: Vec<Section>,
}

/// What a bundle holds.
#[verifier::ext_equal]
pub struct BundleView {
    pub name: Seq<char>,
    pub entry_lang: Seq<char>,
    pub entry_module: Seq<char>,
    pub namespaces: Seq<NamespaceView>,
    pub sections: Seq<SectionView>,
}

impl View for Bundle {
    type V = BundleView;

    open spec fn view(&self) -> BundleView {
        BundleView {
            name: self.manifest.name@,
            entry_lang: self.manifest.entry.lang@,
            entry_module: self.manifest.entry.module@,
            namespaces: self.manifest.namespaces@.map_values(|n: Namespace| n@),
            sections: self.sections@.map_values(|s: Section| s@),
        }
    }
}

/// The sections of `all` that hold `kind`.
pub open spec fn of_kind(all: Seq<Section>, kind: SectionKind) -> Seq<Section>
    decreases all.len(),
{
    if all.len() == 0 {
        Seq::empty()
    } else {
        let init = of_kind(all.drop_last(), kind);
        if all.last().kind == kind {
            init.push(all.last())
        } else {
            init
        }
    }
}

/// The sections of `all` whose format is `format`.
pub open spec fn of_format(all: Seq<Section>, format: Seq<char>) -> Seq<Section>
    decreases all.len(),
{
    if all.len() == 0 {
        Seq::empty()
    } else {
        let init = of_format(all.drop_last(), format);
        if all.last().format@ == format {
            init.push(all.last())
        } else {
            init
        }
    }
}

/// The sections a list of references is of.
pub open spec fn listed(list: Seq<&Section>) -> Seq<Section> {
    list.map_values(|s: &Section| *s)
}

impl Bundle {
    fn select(&self, kind: SectionKind) -> (r: Vec<&Section>)
        ensures
            listed(r@) == of_kind(self.sections@, kind),
    {
        let mut out: Vec<&Section> = Vec::new();
        let mut i: usize = 0;
        assert(self.sections@.take(0) =~= Seq::<Section>::empty());
        assert(listed(out@) =~= Seq::<Section>::empty());
        while i < self.sections.len()
            invariant
                i <= self.sections.len(),
                listed(out@) == of_kind(self.sections@.take(i as int), kind),
            decreases self.sections.len() - i,
        {
            assert(self.sections@.take(i + 1).drop_last() =~= self.sections@.take(i as int));
            let ghost before = out@;
            if self.sections[i].kind == kind {
                out.push(&self.sections[i]);
                assert(listed(out@) =~= listed(before).push(self.sections[i as int]));
            }
            i = i + 1;
        }
        assert(self.sections@.take(i as int) =~= self.sections@);
        out
    }

    /// The sections holding modules, in order.
    pub fn modules(&self) -> (r: Vec<&Section>)
        ensures
            listed(r@) == of_kind(self.sections@, SectionKind::Module),
    {
        self.select(SectionKind::Module)
    }

    /// The native libraries for `target`, in order.
    pub fn native_libs(&self, target: &str) -> (r: Vec<&Section>)
        ensures
            listed(r@) == of_format(of_kind(self.sections@, SectionKind::NativeLib), target@),
    {
        let libs: Vec<&Section> = self.select(SectionKind::NativeLib);
        let mut out: Vec<&Section> = Vec::new();
        let mut i: usize = 0;
        let ghost all = listed(libs@);
        assert(all.take(0) =~= Seq::<Section>::empty());
        assert(listed(out@) =~= Seq::<Section>::empty());
        while i < libs.len()
            invariant
                i <= libs.len(),
                all == listed(libs@),
                listed(out@) == of_format(all.take(i as int), target@),
            decreases libs.len() - i,
        {
            assert(all.take(i + 1).drop_last() =~= all.take(i as int));
            let ghost before = out@;
            if same_text(libs[i].format.as_str(), target) {
                out.push(libs[i]);
                assert(listed(out@) =~= listed(before).push(*libs[i as int]));
            }
            i = i + 1;
        }
        assert(all.take(i as int) =~= all);
        out
    }

    /// The languages a run brings up to read the modules, in order.
    pub fn languages(&self) -> (r: Vec<&Section>)
        ensures
            listed(r@) == of_kind(self.sections@, SectionKind::Language),
    {
        self.select(SectionKind::Language)
    }

    /// Whether section `i` is the manifest's entry module.
    pub open spec fn is_entry(&self, i: int) -> bool {
        &&& self.sections[i].kind == SectionKind::Module
        &&& self.sections[i].lang@ == self.manifest.entry.lang@
        &&& self.sections[i].name@ == self.manifest.entry.module@
    }

    /// The entry module's section, the first of them, when the bundle carries
    /// it.
    pub fn entry(&self) -> (r: Option<&Section>)
        ensures
            match r {
                Some(s) => exists|i: int|
                    0 <= i < self.sections.len() && *s == self.sections[i] && #[trigger]
                        self.is_entry(i) && forall|k: int|
                        0 <= k < i ==> !#[trigger] self.is_entry(k),
                None => forall|i: int|
                    0 <= i < self.sections.len() ==> !#[trigger] self.is_entry(i),
            },
    {
        let mut i: usize = 0;
        while i < self.sections.len()
            invariant
                i <= self.sections.len(),
                forall|k: int| 0 <= k < i ==> !#[trigger] self.is_entry(k),
            decreases self.sections.len() - i,
        {
            let s: &Section = &self.sections[i];
            if s.kind == SectionKind::Module && same_text(
                s.lang.as_str(),
                self.manifest.entry.lang.as_str(),
            ) && same_text(s.name.as_str(), self.manifest.entry.module.as_str()) {
                assert(self.is_entry(i as int));
                return Some(s);
            }
            i = i + 1;
        }
        None
    }
}

#[derive(Clone, Copy, Debug, PartialEq, Eq)]
pub enum Error {
    NotABundle,
    Version(u32),
    Flags(u32),
    Truncated,
    Text,
    Kind(u8),
}

impl Error {
    /// The error in words.
    pub open spec fn words(self) -> Seq<char> {
        match self {
            Error::NotABundle => "not a caribou bundle"@,
            Error::Version(v) => "bundle version "@ + decimal(v as nat) + "; this build reads "@
                + decimal(1),
            Error::Flags(bits) => "bundle flags 0x"@ + hex(bits as nat) + " are not known here"@,
            Error::Truncated => "the bundle ends early"@,
            Error::Text => "a bundle string is not UTF-8"@,
            Error::Kind(k) => "section kind "@ + decimal(k as nat) + " is not known here"@,
        }
    }

    /// The error in words.
    pub fn message(&self) -> (s: String)
        ensures
            s@ == self.words(),
    {
        match self {
            Error::NotABundle => "not a caribou bundle".to_owned(),
            Error::Version(v) => {
                let head = cat("bundle version ", decimal_text(*v as u64).as_str());
                let mid = cat(head.as_str(), "; this build reads ");
                cat(mid.as_str(), decimal_text(VERSION as u64).as_str())
            },
            Error::Flags(bits) => {
                let head = cat("bundle flags 0x", hex_text(*bits as u64).as_str());
                cat(head.as_str(), " are not known here")
            },
            Error::Truncated => "the bundle ends early".to_owned(),
            Error::Text => "a bundle string is not UTF-8".to_owned(),
            Error::Kind(k) => {
                let head = cat("section kind ", decimal_text(*k as u64).as_str());
                cat(head.as_str(), " is not known here")
            },
        }
    }
}

// The wire format.

/// `n` in four bytes, the lowest first.
#[verifier::opaque]
pub open spec fn le32(n: nat) -> Seq<u8> {
    seq![
        (n % 256) as u8,
        (n / 256 % 256) as u8,
        (n / 65536 % 256) as u8,
        (n / 16777216 % 256) as u8,
    ]
}

/// A byte string.
#[verifier::opaque]
pub open spec fn wire_bytes(b: Seq<u8>) -> Seq<u8> {
    le32(b.len()) + b
}

/// A string.
#[verifier::opaque]
pub open spec fn wire_text(s: Seq<char>) -> Seq<u8> {
    wire_bytes(encode_utf8(s))
}

/// The strings of a list, one after another.
pub open spec fn wire_texts(list: Seq<Seq<char>>) -> Seq<u8>
    decreases list.len(),
{
    if list.len() == 0 {
        Seq::empty()
    } else {
        wire_text(list[0]) + wire_texts(list.drop_first())
    }
}

#[verifier::opaque]
pub open spec fn wire_namespace(ns: NamespaceView) -> Seq<u8> {
    wire_text(ns.name) + le32(ns.langs.len()) + wire_texts(ns.langs) + match ns.modules {
        None => seq![0u8],
        Some(list) => seq![1u8] + le32(list.len()) + wire_texts(list),
    }
}

pub open spec fn wire_namespaces(list: Seq<NamespaceView>) -> Seq<u8>
    decreases list.len(),
{
    if list.len() == 0 {
        Seq::empty()
    } else {
        wire_namespace(list[0]) + wire_namespaces(list.drop_first())
    }
}

#[verifier::opaque]
pub open spec fn wire_section(s: SectionView) -> Seq<u8> {
    seq![s.kind.byte()] + wire_text(s.lang) + wire_text(s.format) + wire_text(s.name) + wire_bytes(
        s.data,
    )
}

pub open spec fn wire_sections(list: Seq<SectionView>) -> Seq<u8>
    decreases list.len(),
{
    if list.len() == 0 {
        Seq::empty()
    } else {
        wire_section(list[0]) + wire_sections(list.drop_first())
    }
}

/// What follows the magic, the version and the flags.
pub open spec fn wire_body(b: BundleView) -> Seq<u8> {
    wire_text(b.name) + wire_text(b.entry_lang) + wire_text(b.entry_module) + le32(
        b.namespaces.len(),
    ) + wire_namespaces(b.namespaces) + le32(b.sections.len()) + wire_sections(b.sections)
}

/// The bundle as bytes.
pub open spec fn wire(b: BundleView) -> Seq<u8> {
    magic() + le32(1) + le32(0) + wire_body(b)
}

/// Whether `bytes` start as a bundle does.
pub fn looks_like(bytes: &[u8]) -> (r: bool)
    ensures
        r == magic().is_prefix_of(bytes@),
{
    if bytes.len() < 8 {
        return false;
    }
    let r: bool = bytes[0] == 67 && bytes[1] == 65 && bytes[2] == 82 && bytes[3] == 73 && bytes[4]
        == 66 && bytes[5] == 79 && bytes[6] == 85 && bytes[7] == 0;
    proof {
        if r {
            assert(magic() =~= bytes@.take(8));
        } else {
            assert(magic()[0] == 67 && magic()[1] == 65 && magic()[2] == 82 && magic()[3] == 73
                && magic()[4] == 66 && magic()[5] == 79 && magic()[6] == 85 && magic()[7] == 0);
        }
    }
    r
}

fn put_all(out: &mut Vec<u8>, bytes: &[u8])
    ensures
        final(out)@ == old(out)@ + bytes@,
{
    let mut i: usize = 0;
    while i < bytes.len()
        invariant
            i <= bytes.len(),
            out@ == old(out)@ + bytes@.take(i as int),
        decreases bytes.len() - i,
    {
        out.push(bytes[i]);
        i = i + 1;
    }
    assert(bytes@.take(i as int) =~= bytes@);
}

fn put_u32(out: &mut Vec<u8>, n: usize)
    ensures
        final(out)@ == old(out)@ + le32(n as nat),
{
    proof {
        reveal(le32);
    }
    out.push((n % 256) as u8);
    out.push((n / 256 % 256) as u8);
    out.push((n / 65536 % 256) as u8);
    out.push((n / 16777216 % 256) as u8);
}

fn put_bytes(out: &mut Vec<u8>, bytes: &[u8])
    ensures
        final(out)@ == old(out)@ + wire_bytes(bytes@),
{
    proof {
        reveal(wire_bytes);
    }
    put_u32(out, bytes.len());
    put_all(out, bytes);
}

fn put_text(out: &mut Vec<u8>, s: &str)
    ensures
        final(out)@ == old(out)@ + wire_text(s@),
{
    proof {
        reveal(wire_text);
    }
    put_bytes(out, s.as_bytes());
}

fn put_texts(out: &mut Vec<u8>, list: &Vec<String>)
    ensures
        final(out)@ == old(out)@ + wire_texts(texts(list@)),
{
    let ghost all = texts(list@);
    let mut i: usize = 0;
    assert(all.skip(0) =~= all);
    while i < list.len()
        invariant
            i <= list.len(),
            all == texts(list@),
            out@ + wire_texts(all.skip(i as int)) == old(out)@ + wire_texts(all),
        decreases list.len() - i,
    {
        let ghost before = out@;
        put_text(out, list[i].as_str());
        proof {
            let tail = all.skip(i as int);
            assert(tail.drop_first() =~= all.skip(i + 1));
            assert(before + (wire_text(tail[0]) + wire_texts(all.skip(i + 1))) =~= (before
                + wire_text(tail[0])) + wire_texts(all.skip(i + 1)));
        }
        i = i + 1;
    }
    assert(all.skip(i as int) =~= Seq::<Seq<char>>::empty());
    assert(out@ + Seq::<u8>::empty() =~= out@);
}

fn put_namespace(out: &mut Vec<u8>, ns: &Namespace)
    ensures
        final(out)@ == old(out)@ + wire_namespace(ns@),
{
    proof {
        reveal(wire_namespace);
    }
    put_text(out, ns.name.as_str());
    put_u32(out, ns.langs.len());
    put_texts(out, &ns.langs);
    match &ns.modules {
        None => {
            out.push(0);
        },
        Some(list) => {
            out.push(1);
            put_u32(out, list.len());
            put_texts(out, list);
        },
    }
    assert(out@ =~= old(out)@ + wire_namespace(ns@));
}

fn put_section(out: &mut Vec<u8>, s: &Section)
    ensures
        final(out)@ == old(out)@ + wire_section(s@),
{
    proof {
        reveal(wire_section);
    }
    out.push(s.kind.to_byte());
    put_text(out, s.lang.as_str());
    put_text(out, s.format.as_str());
    put_text(out, s.name.as_str());
    put_bytes(out, s.data.as_slice());
    assert(out@ =~= old(out)@ + wire_section(s@));
}

fn put_namespaces(out: &mut Vec<u8>, list: &Vec<Namespace>)
    ensures
        final(out)@ == old(out)@ + wire_namespaces(list@.map_values(|n: Namespace| n@)),
{
    let ghost all = list@.map_values(|n: Namespace| n@);
    let mut i: usize = 0;
    assert(all.skip(0) =~= all);
    while i < list.len()
        invariant
            i <= list.len(),
            all == list@.map_values(|n: Namespace| n@),
            out@ + wire_namespaces(all.skip(i as int)) == old(out)@ + wire_namespaces(all),
        decreases list.len() - i,
    {
        let ghost before = out@;
        put_namespace(out, &list[i]);
        proof {
            let tail = all.skip(i as int);
            let rest = wire_namespaces(all.skip(i + 1));
            assert(tail.drop_first() =~= all.skip(i + 1));
            assert(before + (wire_namespace(tail[0]) + rest) =~= (before + wire_namespace(tail[0]))
                + rest);
        }
        i = i + 1;
    }
    assert(all.skip(i as int) =~= Seq::<NamespaceView>::empty());
    assert(out@ + Seq::<u8>::empty() =~= out@);
}

fn put_sections(out: &mut Vec<u8>, list: &Vec<Section>)
    ensures
        final(out)@ == old(out)@ + wire_sections(list@.map_values(|s: Section| s@)),
{
    let ghost all = list@.map_values(|s: Section| s@);
    let mut i: usize = 0;
    assert(all.skip(0) =~= all);
    while i < list.len()
        invariant
            i <= list.len(),
            all == list@.map_values(|s: Section| s@),
            out@ + wire_sections(all.skip(i as int)) == old(out)@ + wire_sections(all),
        decreases list.len() - i,
    {
        let ghost before = out@;
        put_section(out, &list[i]);
        proof {
            let tail = all.skip(i as int);
            let rest = wire_sections(all.skip(i + 1));
            assert(tail.drop_first() =~= all.skip(i + 1));
            assert(before + (wire_section(tail[0]) + rest) =~= (before + wire_section(tail[0]))
                + rest);
        }
        i = i + 1;
    }
    assert(all.skip(i as int) =~= Seq::<SectionView>::empty());
    assert(out@ + Seq::<u8>::empty() =~= out@);
}

fn put_body(out: &mut Vec<u8>, bundle: &Bundle)
    ensures
        final(out)@ == old(out)@ + wire_body(bundle@),
{
    let m: &Manifest = &bundle.manifest;
    put_text(out, m.name.as_str());
    put_text(out, m.entry.lang.as_str());
    put_text(out, m.entry.module.as_str());
    put_u32(out, m.namespaces.len());
    put_namespaces(out, &m.namespaces);
    put_u32(out, bundle.sections.len());
    put_sections(out, &bundle.sections);
    proof {
        let b = bundle@;
        let o = old(out)@;
        let p1 = wire_text(b.name);
        let p2 = wire_text(b.entry_lang);
        let p3 = wire_text(b.entry_module);
        let p4 = le32(b.namespaces.len());
        let p5 = wire_namespaces(b.namespaces);
        let p6 = le32(b.sections.len());
        let p7 = wire_sections(b.sections);
        assert(out@ == o + p1 + p2 + p3 + p4 + p5 + p6 + p7);
        lemma_seven(o, p1, p2, p3, p4, p5, p6, p7);
    }
}

proof fn lemma_seven(
    o: Seq<u8>,
    a: Seq<u8>,
    b: Seq<u8>,
    c: Seq<u8>,
    d: Seq<u8>,
    e: Seq<u8>,
    f: Seq<u8>,
    g: Seq<u8>,
)
    ensures
        o + a + b + c + d + e + f + g == o + (a + b + c + d + e + f + g),
{
    assert(o + a + b =~= o + (a + b));
    assert(o + (a + b) + c =~= o + (a + b + c));
    assert(o + (a + b + c) + d =~= o + (a + b + c + d));
    assert(o + (a + b + c + d) + e =~= o + (a + b + c + d + e));
    assert(o + (a + b + c + d + e) + f =~= o + (a + b + c + d + e + f));
    assert(o + (a + b + c + d + e + f) + g =~= o + (a + b + c + d + e + f + g));
}

/// The bundle as bytes.
pub fn emit(bundle: &Bundle) -> (out: Vec<u8>)
    ensures
        out@ == wire(bundle@),
{
    let mut out: Vec<u8> = Vec::new();
    put_all(&mut out, MAGIC.as_slice());
    assert(out@ =~= magic());
    put_u32(&mut out, VERSION as usize);
    put_u32(&mut out, 0);
    put_body(&mut out, bundle);
    out
}

} // verus!
