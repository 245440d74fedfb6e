//! What holds of a bundle's file, and of what is read from one.

use vstd::prelude::*;
use vstd::string::*;
use vstd::utf8::{encode_utf8, valid_utf8};

use crate::bundle::read::{
    body_at, bytes_at, modules_at, parsed, section_at, text_at, u32_at, u32_value, u8_at,
};
use crate::bundle::{
    le32, of_format, of_kind, wire, wire_body, wire_bytes, wire_namespace, wire_namespaces,
    wire_section, wire_sections, wire_text, wire_texts, Bundle, BundleView, Error, Section, SectionKind,
    SectionView,
};
use crate::namespace::NamespaceView;
use crate::text::{decimal, hex};

verus! {

// The file.

/// A number takes four bytes, the lowest first.
pub proof fn law_numbers_are_little_endian(n: nat)
    requires
        n <= 0xffff_ffff,
    ensures
        le32(n).len() == 4,
        n == le32(n)[0] + 256 * le32(n)[1] + 65536 * le32(n)[2] + 16777216 * le32(n)[3],
        n < 256 ==> le32(n) =~= seq![n as u8, 0, 0, 0],
{
    reveal(le32);
}

/// Bytes stand behind their number, and a text is its bytes.
pub proof fn law_bytes_stand_behind_their_number(b: Seq<u8>, s: Seq<char>)
    ensures
        wire_bytes(b).len() == 4 + b.len(),
        wire_bytes(b).take(4) =~= le32(b.len()),
        wire_bytes(b).skip(4) =~= b,
        wire_text(s).len() == 4 + encode_utf8(s).len(),
        wire_text(s).take(4) =~= le32(encode_utf8(s).len()),
        wire_text(s).skip(4) =~= encode_utf8(s),
{
    reveal(wire_bytes);
    reveal(wire_text);
    reveal(le32);
}

/// The kinds of section are numbered from one in the order of their list, and known by
/// their numbers.
pub proof fn law_kinds_of_section_are_numbered(k: SectionKind, b: u8)
    ensures
        1 <= SectionKind::Module.byte() < SectionKind::Resource.byte() < SectionKind::Source.byte(),
        SectionKind::Source.byte() < SectionKind::NativeLib.byte() < SectionKind::Language.byte(),
        SectionKind::Language.byte() <= 5,
        SectionKind::of(k.byte()) == Some(k),
        SectionKind::of(b) matches Some(x) ==> x.byte() == b,
        SectionKind::of(b) is None <==> b == 0 || b > 5,
{
}

/// A file begins with its name, the version and no flags.
pub proof fn law_a_file_begins(b: BundleView)
    ensures
        wire(b).take(8) =~= seq![67u8, 65, 82, 73, 66, 79, 85, 0],
        wire(b).subrange(8, 12) =~= seq![1u8, 0, 0, 0],
        wire(b).subrange(12, 16) =~= seq![0u8, 0, 0, 0],
        wire(b).skip(16) =~= wire_body(b),
{
    reveal(le32);
}

/// Then come the name of the program, the language and the module it begins in, its
/// namespaces behind their number, and its sections behind theirs.
pub proof fn law_a_body_is_laid_out(b: BundleView)
    ensures
        ({
            let name: int = (4 + encode_utf8(b.name).len()) as int;
            let lang: int = (name + 4 + encode_utf8(b.entry_lang).len()) as int;
            let module: int = (lang + 4 + encode_utf8(b.entry_module).len()) as int;
            let spaces: int = (module + 4 + wire_namespaces(b.namespaces).len()) as int;
            let w = wire_body(b);
            &&& w.subrange(4, name) =~= encode_utf8(b.name)
            &&& w.subrange(name + 4, lang) =~= encode_utf8(b.entry_lang)
            &&& w.subrange(lang + 4, module) =~= encode_utf8(b.entry_module)
            &&& w.subrange(module, module + 4) =~= le32(b.namespaces.len())
            &&& w.subrange(module + 4, spaces) =~= wire_namespaces(b.namespaces)
            &&& w.subrange(spaces, spaces + 4) =~= le32(b.sections.len())
            &&& w.skip(spaces + 4) =~= wire_sections(b.sections)
        }),
{
    reveal(wire_bytes);
    reveal(wire_text);
    reveal(le32);
}

/// A section is its kind, its language, its format, its name and its data, in this
/// order.
pub proof fn law_a_section_is_laid_out(s: SectionView)
    ensures
        ({
            let lang: int = (1 + 4 + encode_utf8(s.lang).len()) as int;
            let format: int = (lang + 4 + encode_utf8(s.format).len()) as int;
            let name: int = (format + 4 + encode_utf8(s.name).len()) as int;
            let w = wire_section(s);
            &&& w.len() == name + 4 + s.data.len()
            &&& w[0] == s.kind.byte()
            &&& w.subrange(5, lang) =~= encode_utf8(s.lang)
            &&& w.subrange(lang + 4, format) =~= encode_utf8(s.format)
            &&& w.subrange(format + 4, name) =~= encode_utf8(s.name)
            &&& w.subrange(name, name + 4) =~= le32(s.data.len())
            &&& w.skip(name + 4) =~= s.data
        }),
{
    reveal(wire_bytes);
    reveal(wire_text);
    reveal(wire_section);
    reveal(le32);
}

/// A namespace is its name, its languages behind their number, and a byte that says
/// whether it lists its modules; the list follows where it does.
pub proof fn law_a_namespace_is_laid_out(ns: NamespaceView)
    ensures
        ({
            let name: int = (4 + encode_utf8(ns.name).len()) as int;
            let langs: int = (name + 4 + wire_texts(ns.langs).len()) as int;
            let w = wire_namespace(ns);
            &&& w.subrange(4, name) =~= encode_utf8(ns.name)
            &&& w.subrange(name, name + 4) =~= le32(ns.langs.len())
            &&& w.subrange(name + 4, langs) =~= wire_texts(ns.langs)
            &&& ns.modules is None ==> w.len() == langs + 1 && w[langs] == 0
            &&& ns.modules matches Some(list) ==> {
                &&& w[langs] == 1
                &&& w.subrange(langs + 1, langs + 5) =~= le32(list.len())
                &&& w.skip(langs + 5) =~= wire_texts(list)
            }
        }),
{
    reveal(wire_bytes);
    reveal(wire_text);
    reveal(wire_namespace);
    reveal(le32);
}

/// Lists are written one after the other, in their order.
pub proof fn law_lists_are_written_in_order(
    t: Seq<Seq<char>>,
    u: Seq<Seq<char>>,
    m: Seq<NamespaceView>,
    n: Seq<NamespaceView>,
    a: Seq<SectionView>,
    b: Seq<SectionView>,
)
    ensures
        wire_texts(t + u) == wire_texts(t) + wire_texts(u),
        t.len() == 1 ==> wire_texts(t) == wire_text(t[0]),
        wire_namespaces(m + n) == wire_namespaces(m) + wire_namespaces(n),
        m.len() == 1 ==> wire_namespaces(m) == wire_namespace(m[0]),
        wire_sections(a + b) == wire_sections(a) + wire_sections(b),
        a.len() == 1 ==> wire_sections(a) == wire_section(a[0]),
    decreases t.len() + m.len() + a.len(),
{
    reveal_with_fuel(wire_texts, 2);
    reveal_with_fuel(wire_namespaces, 2);
    reveal_with_fuel(wire_sections, 2);
    if t.len() == 1 {
        assert(wire_text(t[0]) + Seq::<u8>::empty() =~= wire_text(t[0]));
    }
    if m.len() == 1 {
        assert(wire_namespace(m[0]) + Seq::<u8>::empty() =~= wire_namespace(m[0]));
    }
    if a.len() == 1 {
        assert(wire_section(a[0]) + Seq::<u8>::empty() =~= wire_section(a[0]));
    }
    if t.len() == 0 {
        assert(t + u =~= u);
        assert(Seq::<u8>::empty() + wire_texts(u) =~= wire_texts(u));
    } else {
        law_lists_are_written_in_order(t.drop_first(), u, m, n, a, b);
        assert((t + u).drop_first() =~= t.drop_first() + u);
        assert(wire_text(t[0]) + (wire_texts(t.drop_first()) + wire_texts(u)) =~= wire_text(t[0])
            + wire_texts(t.drop_first()) + wire_texts(u));
    }
    if m.len() == 0 {
        assert(m + n =~= n);
        assert(Seq::<u8>::empty() + wire_namespaces(n) =~= wire_namespaces(n));
    } else {
        law_lists_are_written_in_order(t, u, m.drop_first(), n, a, b);
        assert((m + n).drop_first() =~= m.drop_first() + n);
        assert(wire_namespace(m[0]) + (wire_namespaces(m.drop_first()) + wire_namespaces(n))
            =~= wire_namespace(m[0]) + wire_namespaces(m.drop_first()) + wire_namespaces(n));
    }
    if a.len() == 0 {
        assert(a + b =~= b);
        assert(Seq::<u8>::empty() + wire_sections(b) =~= wire_sections(b));
    } else {
        law_lists_are_written_in_order(t, u, m, n, a.drop_first(), b);
        assert((a + b).drop_first() =~= a.drop_first() + b);
        assert(wire_section(a[0]) + (wire_sections(a.drop_first()) + wire_sections(b))
            =~= wire_section(a[0]) + wire_sections(a.drop_first()) + wire_sections(b));
    }
}

// Reading.

/// What does not begin as a file does is none; what ends before its head does ends
/// early; another version, or a flag, is told.
pub proof fn law_a_file_is_refused(bytes: Seq<u8>)
    ensures
        ({
            let begins = bytes.len() >= 8 && bytes.take(8) == seq![67u8, 65, 82, 73, 66, 79, 85, 0];
            let at = |i: int|
                bytes[i] + 256 * bytes[i + 1] + 65536 * bytes[i + 2] + 16777216 * bytes[i + 3];
            &&& !begins <==> parsed(bytes) == Err::<BundleView, Error>(Error::NotABundle)
            &&& begins && bytes.len() < 12 ==> parsed(bytes) == Err::<BundleView, Error>(
                Error::Truncated,
            )
            &&& begins && bytes.len() >= 12 && at(8) != 1 ==> parsed(bytes) == Err::<
                BundleView,
                Error,
            >(Error::Version(at(8) as u32))
            &&& begins && bytes.len() >= 12 && at(8) == 1 && bytes.len() < 16 ==> parsed(bytes)
                == Err::<BundleView, Error>(Error::Truncated)
            &&& begins && bytes.len() >= 16 && at(8) == 1 && at(12) != 0 ==> parsed(bytes) == Err::<
                BundleView,
                Error,
            >(Error::Flags(at(12) as u32))
            &&& begins && bytes.len() >= 16 && at(8) == 1 && at(12) == 0 ==> match body_at(
                bytes.skip(16),
            ) {
                Ok((b, _)) => parsed(bytes) == Ok::<BundleView, Error>(b),
                Err(e) => parsed(bytes) == Err::<BundleView, Error>(e),
            }
        }),
{
    reveal(u32_at);
    let m = crate::bundle::magic();
    assert(m =~= seq![67u8, 65, 82, 73, 66, 79, 85, 0]);
    if m.is_prefix_of(bytes) {
        assert(bytes.take(8) =~= m);
        let s = bytes.skip(8);
        if s.len() >= 4 {
            assert(s.skip(4) =~= bytes.skip(12));
            if bytes.len() >= 16 {
                assert(bytes.skip(12).skip(4) =~= bytes.skip(16));
            }
        }
        lemma_body_is_no_head(bytes.skip(16));
    } else if bytes.len() >= 8 && bytes.take(8) == m {
        assert(m.is_prefix_of(bytes));
    }
}

proof fn lemma_body_is_no_head(s: Seq<u8>)
    ensures
        body_at(s) matches Err(e) ==> !(e is NotABundle),
{
    reveal(u32_at);
    reveal(bytes_at);
    reveal(text_at);
    if let Ok((_, s1)) = text_at(s) {
        if let Ok((_, s2)) = text_at(s1) {
            if let Ok((_, s3)) = text_at(s2) {
                if let Ok((n, rest)) = u32_at(s3) {
                    lemma_namespaces_are_no_head(n, rest);
                    if let Ok((_, s4)) = crate::bundle::read::namespaces_at(n, rest) {
                        if let Ok((k, more)) = u32_at(s4) {
                            lemma_sections_are_no_head(k, more);
                        }
                    }
                }
            }
        }
    }
}

proof fn lemma_texts_are_no_head(n: nat, s: Seq<u8>)
    ensures
        crate::bundle::read::texts_at(n, s) matches Err(e) ==> !(e is NotABundle),
    decreases n,
{
    reveal(u32_at);
    reveal(bytes_at);
    reveal(text_at);
    if n > 0 {
        if let Ok((_, rest)) = text_at(s) {
            lemma_texts_are_no_head((n - 1) as nat, rest);
        }
    }
}

proof fn lemma_namespaces_are_no_head(n: nat, s: Seq<u8>)
    ensures
        crate::bundle::read::namespaces_at(n, s) matches Err(e) ==> !(e is NotABundle),
    decreases n,
{
    reveal(u8_at);
    reveal(u32_at);
    reveal(bytes_at);
    reveal(text_at);
    reveal(crate::bundle::read::namespace_at);
    if n > 0 {
        if let Ok((_, s1)) = text_at(s) {
            if let Ok((k, rest)) = u32_at(s1) {
                lemma_texts_are_no_head(k, rest);
                if let Ok((_, s2)) = crate::bundle::read::texts_at(k, rest) {
                    if let Ok((_, s3)) = u8_at(s2) {
                        if let Ok((j, more)) = u32_at(s3) {
                            lemma_texts_are_no_head(j, more);
                        }
                    }
                }
            }
        }
        if let Ok((_, rest)) = crate::bundle::read::namespace_at(s) {
            lemma_namespaces_are_no_head((n - 1) as nat, rest);
        }
    }
}

proof fn lemma_sections_are_no_head(n: nat, s: Seq<u8>)
    ensures
        crate::bundle::read::sections_at(n, s) matches Err(e) ==> !(e is NotABundle),
    decreases n,
{
    reveal(u8_at);
    reveal(u32_at);
    reveal(bytes_at);
    reveal(text_at);
    reveal(section_at);
    if n > 0 {
        if let Ok((_, rest)) = section_at(s) {
            lemma_sections_are_no_head((n - 1) as nat, rest);
        }
    }
}

/// A length that reaches past the end ends early, and bytes that are no text are
/// refused as one.
pub proof fn law_what_is_missing_is_told(s: Seq<u8>)
    ensures
        s.len() == 0 ==> u8_at(s) == Err::<(u8, Seq<u8>), Error>(Error::Truncated),
        s.len() < 4 ==> bytes_at(s) == Err::<(Seq<u8>, Seq<u8>), Error>(Error::Truncated),
        s.len() >= 4 ==> {
            let n = s[0] + 256 * s[1] + 65536 * s[2] + 16777216 * s[3];
            &&& s.len() < 4 + n ==> bytes_at(s) == Err::<(Seq<u8>, Seq<u8>), Error>(
                Error::Truncated,
            ) && text_at(s) == Err::<(Seq<char>, Seq<u8>), Error>(Error::Truncated)
            &&& s.len() >= 4 + n ==> {
                &&& bytes_at(s) matches Ok((b, rest)) && b =~= s.subrange(4, 4 + n) && rest
                    =~= s.skip(4 + n)
                &&& !valid_utf8(s.subrange(4, 4 + n)) <==> text_at(s) == Err::<
                    (Seq<char>, Seq<u8>),
                    Error,
                >(Error::Text)
            }
        },
        u32_value(seq![1u8, 0, 0, 0]) == 1,
{
    reveal(u8_at);
    reveal(u32_at);
    reveal(bytes_at);
    reveal(text_at);
    if s.len() >= 4 {
        let n = s[0] + 256 * s[1] + 65536 * s[2] + 16777216 * s[3];
        if s.len() >= 4 + n {
            assert(s.skip(4).take(n) =~= s.subrange(4, 4 + n));
            assert(s.skip(4).skip(n) =~= s.skip(4 + n));
        }
    }
}

/// A section of a kind that is not known is refused by its number, and a namespace
/// that lists no modules says so with a nought.
pub proof fn law_unknown_kinds_are_told(s: Seq<u8>)
    requires
        s.len() > 0,
    ensures
        s[0] == 0 || s[0] > 5 ==> section_at(s) == Err::<(SectionView, Seq<u8>), Error>(
            Error::Kind(s[0]),
        ),
        section_at(s) matches Ok((x, _)) ==> x.kind.byte() == s[0],
        s[0] == 0 ==> (modules_at(s) matches Ok((m, rest)) && m is None && rest =~= s.skip(1)),
        s[0] != 0 ==> (modules_at(s) matches Ok((m, _)) ==> m is Some),
{
    reveal(u8_at);
    reveal(section_at);
}

/// An error says what it is about.
pub proof fn law_errors_say_what_they_are_about(n: u32, k: u8)
    ensures
        Error::Version(n).words() == "bundle version "@ + decimal(n as nat) + "; this build reads "@
            + decimal(1),
        Error::Flags(n).words() == "bundle flags 0x"@ + hex(n as nat) + " are not known here"@,
        Error::Kind(k).words() == "section kind "@ + decimal(k as nat) + " is not known here"@,
        Error::NotABundle.words() == "not a caribou bundle"@,
        Error::Truncated.words() == "the bundle ends early"@,
        Error::Text.words() == "a bundle string is not UTF-8"@,
{
}

/// The sections of a kind, or of a format, are those among all, in their order.
pub proof fn law_sections_are_selected(all: Seq<Section>, kind: SectionKind, format: Seq<char>)
    ensures
        of_kind(all, kind) == all.filter(|s: Section| s.kind == kind),
        of_format(all, format) == all.filter(|s: Section| s.format@ == format),
    decreases all.len(),
{
    reveal(Seq::filter);
    if all.len() > 0 {
        law_sections_are_selected(all.drop_last(), kind, format);
    }
}

/// The section a program begins in is a module, of the language and the name that the
/// manifest gives.
pub proof fn law_where_a_program_begins(b: &Bundle, i: int)
    requires
        0 <= i < b.sections.len(),
    ensures
        b.is_entry(i) <==> b.sections[i].kind is Module && b.sections[i].lang@
            == b.manifest.entry.lang@ && b.sections[i].name@ == b.manifest.entry.module@,
{
}

} // verus!
