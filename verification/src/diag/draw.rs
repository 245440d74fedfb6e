//! Drawing a diagnostic: which labels can be drawn, what is said in notes
//! instead, and the reports in the order of the causes.

use ariadne::Color::{self, Blue, BrightBlue, BrightRed, Cyan, Green, Magenta, Red, Yellow};
use ariadne::{sources, Config, Fmt, IndexType, Label, Report, ReportKind};
use vstd::prelude::*;
use vstd::utf8::{encode_utf8, is_char_boundary};

use crate::diag::{label_views, text_views, DiagLabel, DiagView, Diagnostic, LabelView};
use crate::error::{kind_name, kind_text};
use crate::text::{cat, decimal, decimal_text, same_text};
use crate::value::LangId;
use crate::world::{name_of_language, Languages};

verus! {

/// Resolves the source ids trace frames carry, a file path or module name, to
/// their text. Adapters implement it over their module tables.
pub trait SourceLookup {
    /// The text of a source.
    spec fn text(&self, id: Seq<char>) -> Option<Seq<char>>;

    fn source_text(&self, id: &str) -> (r: Option<String>)
        ensures
            match self.text(id@) {
                Some(t) => r matches Some(s) && s@ == t,
                None => r is None,
            },
    ;
}

/// Nothing resolves; every frame renders as a note.
pub struct NoSources;

impl SourceLookup for NoSources {
    open spec fn text(&self, id: Seq<char>) -> Option<Seq<char>> {
        None
    }

    fn source_text(&self, id: &str) -> (r: Option<String>) {
        None
    }
}

/// Sources by id; the first of an id counts.
pub struct SourceMap {
    pub list: Vec<(String, String)>,
}

pub open spec fn found_in(list: Seq<(String, String)>, id: Seq<char>) -> Option<Seq<char>>
    decreases list.len(),
{
    if list.len() == 0 {
        None
    } else if list[0].0@ == id {
        Some(list[0].1@)
    } else {
        found_in(list.drop_first(), id)
    }
}

impl SourceLookup for SourceMap {
    open spec fn text(&self, id: Seq<char>) -> Option<Seq<char>> {
        found_in(self.list@, id)
    }

    fn source_text(&self, id: &str) -> (r: Option<String>) {
        let mut i: usize = 0;
        assert(self.list@.skip(0) =~= self.list@);
        while i < self.list.len()
            invariant
                i <= self.list.len(),
                found_in(self.list@, id@) == found_in(self.list@.skip(i as int), id@),
            decreases self.list.len() - i,
        {
            assert(self.list@.skip(i as int).drop_first() =~= self.list@.skip(i + 1));
            if same_text(self.list[i].0.as_str(), id) {
                return Some(self.list[i].1.clone());
            }
            i = i + 1;
        }
        None
    }
}

/// What a language's labels are drawn in.
#[derive(Clone, Copy, Debug, PartialEq, Eq, Structural)]
pub enum Paint {
    Red,
    Blue,
    Green,
    Magenta,
    Cyan,
    Yellow,
    BrightRed,
    BrightBlue,
}

/// A fixed palette keyed by language, wrapping.
pub open spec fn paint_of(lang: LangId) -> Paint {
    let n = lang as int % 8;
    if n == 0 {
        Paint::Red
    } else if n == 1 {
        Paint::Blue
    } else if n == 2 {
        Paint::Green
    } else if n == 3 {
        Paint::Magenta
    } else if n == 4 {
        Paint::Cyan
    } else if n == 5 {
        Paint::Yellow
    } else if n == 6 {
        Paint::BrightRed
    } else {
        Paint::BrightBlue
    }
}

pub fn lang_color(lang: LangId) -> (p: Paint)
    ensures
        p == paint_of(lang),
{
    match lang % 8 {
        0 => Paint::Red,
        1 => Paint::Blue,
        2 => Paint::Green,
        3 => Paint::Magenta,
        4 => Paint::Cyan,
        5 => Paint::Yellow,
        6 => Paint::BrightRed,
        _ => Paint::BrightBlue,
    }
}

/// A label to draw: where, what it says, in which paint, and its place in the
/// order.
pub struct Drawn {
    pub source: String,
    pub start: usize,
    pub end: usize,
    pub message: String,
    pub paint: Paint,
    pub order: i32,
}

/// [`Drawn`], with its texts as sequences.
#[verifier::ext_equal]
pub ghost struct DrawnView {
    pub source: Seq<char>,
    pub start: usize,
    pub end: usize,
    pub message: Seq<char>,
    pub paint: Paint,
    pub order: i32,
}

impl View for Drawn {
    type V = DrawnView;

    open spec fn view(&self) -> DrawnView {
        DrawnView {
            source: self.source@,
            start: self.start,
            end: self.end,
            message: self.message@,
            paint: self.paint,
            order: self.order,
        }
    }
}

/// One report: its header, where it is, the labels and the notes of its source
/// sections, the sources, and the notes that follow it where there is no
/// section to hold them.
pub struct Page {
    pub code: String,
    pub message: String,
    pub at: String,
    pub from: usize,
    pub to: usize,
    pub labels: Vec<Drawn>,
    pub notes: Vec<String>,
    pub texts: Vec<(String, String)>,
    pub loose: Vec<String>,
}

/// [`Page`], with its contents as sequences.
#[verifier::ext_equal]
pub ghost struct PageView {
    pub code: Seq<char>,
    pub message: Seq<char>,
    pub at: Seq<char>,
    pub from: usize,
    pub to: usize,
    pub labels: Seq<DrawnView>,
    pub notes: Seq<Seq<char>>,
    pub texts: Seq<(Seq<char>, Seq<char>)>,
    pub loose: Seq<Seq<char>>,
}

pub open spec fn drawn_views(labels: Seq<Drawn>) -> Seq<DrawnView> {
    labels.map_values(|l: Drawn| l@)
}

pub open spec fn pair_views(texts: Seq<(String, String)>) -> Seq<(Seq<char>, Seq<char>)> {
    texts.map_values(|t: (String, String)| (t.0@, t.1@))
}

impl View for Page {
    type V = PageView;

    open spec fn view(&self) -> PageView {
        PageView {
            code: self.code@,
            message: self.message@,
            at: self.at@,
            from: self.from,
            to: self.to,
            labels: drawn_views(self.labels@),
            notes: text_views(self.notes@),
            texts: pair_views(self.texts@),
            loose: text_views(self.loose@),
        }
    }
}

// What can be drawn.

/// Whether a label can be drawn over its source's text: it does not end before
/// it starts, and both ends are between characters, or so far past the end that
/// it is left out. Where it is `counted`, the number of the character it starts
/// at must be a place between characters too.
pub open spec fn label_fits(text: Seq<char>, start: usize, end: usize, counted: bool) -> bool {
    let bytes = encode_utf8(text);
    &&& start <= end
    &&& start <= bytes.len() ==> {
        &&& is_char_boundary(bytes, start as int)
        &&& start == end || end > bytes.len() + 1 || (end <= bytes.len() && is_char_boundary(
            bytes,
            end as int,
        ))
        &&& counted ==> counted_fits(text, start)
    }
}

/// Whether the characters before byte `start`, as a number, are a place between
/// characters.
pub open spec fn counted_fits(text: Seq<char>, start: usize) -> bool {
    exists|c: int|
        0 <= c <= text.len() && #[trigger] encode_utf8(text.take(c)).len() == start
            && is_char_boundary(encode_utf8(text), c)
}

/// The text a page has of a source: the last of its id.
pub open spec fn page_text_of(texts: Seq<(Seq<char>, Seq<char>)>, id: Seq<char>) -> Option<Seq<char>>
    decreases texts.len(),
{
    if texts.len() == 0 {
        None
    } else if texts.last().0 == id {
        Some(texts.last().1)
    } else {
        page_text_of(texts.drop_last(), id)
    }
}

/// Whether a label over `text` is drawn at all: it lies inside the text.
pub open spec fn in_text(text: Seq<char>, l: DrawnView) -> bool {
    let n = encode_utf8(text).len();
    l.start <= n && (l.start == l.end || l.end <= n)
}

/// The last byte of a label, its start where it is empty.
pub open spec fn last_byte(l: DrawnView) -> int {
    if l.start < l.end {
        l.end - 1
    } else {
        l.start as int
    }
}

/// The characters that may end a line.
pub open spec fn ends_line(c: char) -> bool {
    let n = c as u32;
    0xA <= n <= 0xD || n == 0x85 || n == 0x2028 || n == 0x2029
}

/// Whether no line ends between the bytes `from` and `to` of `text`.
pub open spec fn one_line(text: Seq<char>, from: int, to: int) -> bool {
    forall|c: int|
        0 <= c < text.len() && encode_utf8(text.take(c + 1)).len() > from && encode_utf8(
            text.take(c),
        ).len() < to ==> !ends_line(#[trigger] text[c])
}

/// Whether label `i` is drawn in the section of an earlier one, `j`: in the same
/// source, on the same line or a later one, with none drawn between.
pub open spec fn continues(page: PageView, text: Seq<char>, j: int, i: int) -> bool {
    let a = page.labels[j];
    let l = page.labels[i];
    &&& a.source == l.source
    &&& in_text(text, a)
    &&& last_byte(a) <= last_byte(l) || one_line(text, last_byte(l), last_byte(a))
    &&& forall|k: int|
        j < k < i ==> (page_text_of(page.texts, (#[trigger] page.labels[k]).source) matches Some(t)
            && !in_text(t, page.labels[k]))
}

/// Whether label `i` begins a section: no earlier one is known to hold it. The
/// order of the labels is theirs on the page.
pub open spec fn begins_section(page: PageView, text: Seq<char>, i: int) -> bool {
    ||| exists|k: int| 0 <= k < page.labels.len() && (#[trigger] page.labels[k]).order != k
    ||| forall|j: int| 0 <= j < i ==> !#[trigger] continues(page, text, j, i)
}

/// Whether a page can be drawn, over texts of fewer than a thousand million
/// characters: each of its labels, and the place where it says the report is.
/// A section names a place too, which for a source that is not the report's own
/// is counted in characters from its first label.
pub open spec fn page_fits(page: PageView) -> bool {
    &&& forall|i: int|
        0 <= i < page.labels.len() ==> {
            let l = #[trigger] page.labels[i];
            page_text_of(page.texts, l.source) matches Some(t) && t.len() < 1000000000
                && label_fits(
                t,
                l.start,
                l.end,
                l.source != page.at && begins_section(page, t, i),
            )
        }
    &&& page_text_of(page.texts, page.at) matches Some(t) ==> page.from > encode_utf8(t).len()
        || is_char_boundary(encode_utf8(t), page.from as int)
}

/// Whether `part` stands somewhere in `whole`.
pub open spec fn holds_text(whole: Seq<char>, part: Seq<char>) -> bool {
    exists|before: Seq<char>, after: Seq<char>| whole == #[trigger] (before + part + after)
}

/// What a report looks like without colours.
pub uninterp spec fn drawing(page: PageView) -> Seq<char>;

/// `ariadne::Report::write`, of a report built from the page, byte spans and
/// all, into a buffer. A paint is the `ariadne::Color` of its name: they are
/// listed as [`Paint`] lists them. The report's message stands in its header.
/// Without colours the text depends on the page alone, and has a name. With
/// colours a switch of the whole process decides too whether any are written,
/// and no more is stated.
#[verifier::external_body]
fn draw(page: Page, color: bool) -> (s: String)
    requires
        page_fits(page@),
    ensures
        holds_text(s@, page@.message),
        !color ==> s@ == drawing(page@),
{
    let inks = [Red, Blue, Green, Magenta, Cyan, Yellow, BrightRed, BrightBlue];
    let mut report = Report::build(ReportKind::Error, (page.at, page.from..page.to))
        .with_code(page.code).with_message(page.message)
        .with_config(Config::default().with_color(color).with_index_type(IndexType::Byte))
        .with_labels(page.labels.into_iter().map(|l|
            Label::new((l.source, l.start..l.end))
                .with_message(l.message).with_color(inks[l.paint as usize]).with_order(l.order)));
    report.with_notes(page.notes);
    let mut buf = Vec::new();
    report.finish().write(sources(page.texts), &mut buf).ok();
    String::from_utf8(buf).unwrap_or_default()
}

/// The colour a note's keyword has, by its number.
pub const NOTE_SHADE: u8 = 115;

/// `ariadne::Fmt::fg` with the colour of a number: the text, between the escapes
/// of the colour. A switch of the whole process decides whether there are any,
/// so it is not stated what stands around the text.
#[verifier::external_body]
fn painted(text: &str, shade: u8) -> (s: String)
    ensures
        holds_text(s@, text@),
{
    text.fg(Color::Fixed(shade)).to_string()
}

// Which labels, which notes.

/// A label whose source does not resolve, as a note.
pub open spec fn lost_note(langs: Seq<Seq<char>>, l: LabelView) -> Seq<char> {
    "in "@ + name_of_language(langs, l.lang) + " "@ + l.name + " ("@ + l.source + ":"@ + decimal(
        l.span.0 as nat,
    ) + ".."@ + decimal(l.span.1 as nat) + ")"@
}

/// The labels whose source resolves, in order.
pub open spec fn resolved(
    labels: Seq<LabelView>,
    lookup: spec_fn(Seq<char>) -> Option<Seq<char>>,
) -> Seq<LabelView>
    decreases labels.len(),
{
    if labels.len() == 0 {
        Seq::empty()
    } else {
        let init = resolved(labels.drop_last(), lookup);
        if lookup(labels.last().source) is Some {
            init.push(labels.last())
        } else {
            init
        }
    }
}

/// The labels whose source does not resolve, as notes, in order.
pub open spec fn lost(
    labels: Seq<LabelView>,
    langs: Seq<Seq<char>>,
    lookup: spec_fn(Seq<char>) -> Option<Seq<char>>,
) -> Seq<Seq<char>>
    decreases labels.len(),
{
    if labels.len() == 0 {
        Seq::empty()
    } else {
        let init = lost(labels.drop_last(), langs, lookup);
        if lookup(labels.last().source) is Some {
            init
        } else {
            init.push(lost_note(langs, labels.last()))
        }
    }
}

/// A label as it is drawn, `i` in the order.
pub open spec fn drawn_as(l: LabelView, i: int) -> DrawnView {
    DrawnView {
        source: l.source,
        start: l.span.0,
        end: l.span.1,
        message: l.message,
        paint: paint_of(l.lang),
        order: i as i32,
    }
}

/// The report of one diagnostic, its causes aside.
pub open spec fn page_of(
    d: DiagView,
    message: Seq<char>,
    langs: Seq<Seq<char>>,
    lookup: spec_fn(Seq<char>) -> Option<Seq<char>>,
) -> PageView {
    let shown = resolved(d.labels, lookup);
    let notes = lost(d.labels, langs, lookup) + d.notes;
    PageView {
        code: kind_text(d.kind),
        message,
        at: if shown.len() > 0 {
            shown[0].source
        } else {
            Seq::empty()
        },
        from: if shown.len() > 0 {
            shown[0].span.0
        } else {
            0
        },
        to: if shown.len() > 0 {
            shown[0].span.1
        } else {
            0
        },
        labels: Seq::new(shown.len(), |i: int| drawn_as(shown[i], i)),
        notes: if shown.len() > 0 {
            notes
        } else {
            Seq::empty()
        },
        texts: Seq::new(shown.len(), |i: int| (shown[i].source, lookup(shown[i].source)->0)),
        loose: if shown.len() > 0 {
            Seq::empty()
        } else {
            notes
        },
    }
}

fn label_note(langs: &Languages, l: &DiagLabel) -> (s: String)
    ensures
        s@ == lost_note(langs@, l@),
{
    let mut s: String = cat("in ", langs.language_name(l.lang).as_str());
    s.append(" ");
    s.append(l.name.as_str());
    s.append(" (");
    s.append(l.source.as_str());
    s.append(":");
    s.append(decimal_text(l.span.0 as u64).as_str());
    s.append("..");
    s.append(decimal_text(l.span.1 as u64).as_str());
    s.append(")");
    s
}

/// The report of `d` under the header `message`.
pub fn page<S: SourceLookup>(
    d: &Diagnostic,
    message: String,
    langs: &Languages,
    found: &S,
) -> (p: Page)
    ensures
        p@ == page_of(d@, message@, langs@, |id: Seq<char>| found.text(id)),
{
    let ghost lookup = |id: Seq<char>| found.text(id);
    let ghost all = label_views(d.labels@);
    let mut labels: Vec<Drawn> = Vec::new();
    let mut texts: Vec<(String, String)> = Vec::new();
    let mut notes: Vec<String> = Vec::new();
    let mut i: usize = 0;
    assert(all.take(0) =~= Seq::<LabelView>::empty());
    assert(text_views(notes@) =~= Seq::<Seq<char>>::empty());
    while i < d.labels.len()
        invariant
            i <= d.labels.len(),
            all == label_views(d.labels@),
            lookup == |id: Seq<char>| found.text(id),
            labels.len() == resolved(all.take(i as int), lookup).len(),
            texts.len() == labels.len(),
            labels.len() <= i,
            forall|k: int|
                0 <= k < labels@.len() ==> (#[trigger] labels@[k])@ == drawn_as(
                    resolved(all.take(i as int), lookup)[k],
                    k,
                ),
            forall|k: int|
                0 <= k < texts@.len() ==> {
                    let l = resolved(all.take(i as int), lookup)[k];
                    (#[trigger] texts@[k]).0@ == l.source && Some(texts@[k].1@) == lookup(l.source)
                },
            text_views(notes@) == lost(all.take(i as int), langs@, lookup),
        decreases d.labels.len() - i,
    {
        assert(all.take(i + 1).drop_last() =~= all.take(i as int));
        let l: &DiagLabel = &d.labels[i];
        assert(all[i as int] == l@);
        match found.source_text(l.source.as_str()) {
            Some(text) => {
                let paint: Paint = lang_color(l.lang);
                let order: i32 = #[verifier::truncate] (labels.len() as i32);
                labels.push(
                    Drawn {
                        source: l.source.clone(),
                        start: l.span.0,
                        end: l.span.1,
                        message: l.message.clone(),
                        paint,
                        order,
                    },
                );
                texts.push((l.source.clone(), text));
            },
            None => {
                let ghost was = notes@;
                let note: String = label_note(langs, l);
                notes.push(note);
                assert(text_views(notes@) =~= text_views(was).push(note@));
            },
        }
        i = i + 1;
    }
    assert(all.take(i as int) =~= all);
    let ghost told = notes@;
    let mut k: usize = 0;
    while k < d.notes.len()
        invariant
            k <= d.notes.len(),
            text_views(notes@) == text_views(told) + text_views(d.notes@).take(k as int),
        decreases d.notes.len() - k,
    {
        let ghost was = notes@;
        notes.push(d.notes[k].clone());
        assert(text_views(notes@) =~= text_views(was).push(d.notes@[k as int]@));
        assert(text_views(d.notes@).take(k + 1) =~= text_views(d.notes@).take(k as int).push(
            text_views(d.notes@)[k as int],
        ));
        k = k + 1;
    }
    assert(text_views(d.notes@).take(k as int) =~= text_views(d.notes@));
    let ghost shown = resolved(all, lookup);
    assert(drawn_views(labels@) =~= Seq::new(shown.len(), |i: int| drawn_as(shown[i], i)));
    assert(pair_views(texts@) =~= Seq::new(
        shown.len(),
        |i: int| (shown[i].source, lookup(shown[i].source)->0),
    ));
    let code: String = kind_name(d.kind).to_owned();
    let none: Vec<String> = Vec::new();
    assert(text_views(none@) =~= Seq::<Seq<char>>::empty());
    if labels.len() == 0 {
        let at: String = String::new();
        assert(at@ =~= Seq::<char>::empty());
        return Page { code, message, at, from: 0, to: 0, labels, notes: none, texts, loose: notes };
    }
    let at: String = labels[0].source.clone();
    let from: usize = labels[0].start;
    let to: usize = labels[0].end;
    assert(labels@[0]@ == drawn_as(shown[0], 0));
    Page { code, message, at, from, to, labels, notes, texts, loose: none }
}

// The notes that follow a report.

/// The word a note begins with: numbered where there are several.
pub open spec fn keyword_of(i: nat, n: nat) -> Seq<char> {
    if n > 1 {
        "Note "@ + decimal(i + 1)
    } else {
        "Note"@
    }
}

pub open spec fn keywords_of(n: nat) -> Seq<Seq<char>> {
    Seq::new(n, |i: int| keyword_of(i as nat, n))
}

pub open spec fn note_line(keyword: Seq<char>, note: Seq<char>) -> Seq<char> {
    "   "@ + keyword + ": "@ + note + "\n"@
}

/// The notes, each a line under its keyword.
pub open spec fn note_lines(keywords: Seq<Seq<char>>, notes: Seq<Seq<char>>) -> Seq<char>
    decreases notes.len(),
{
    if notes.len() == 0 {
        Seq::empty()
    } else {
        note_lines(keywords.drop_last(), notes.drop_last()) + note_line(
            keywords.last(),
            notes.last(),
        )
    }
}

/// Whether each of the words is its keyword, with whatever colours it.
pub open spec fn words_told(words: Seq<Seq<char>>) -> bool {
    forall|i: int|
        0 <= i < words.len() ==> holds_text(#[trigger] words[i], keyword_of(i as nat, words.len()))
}

/// The keywords of `n` notes.
pub fn keywords(n: usize, color: bool) -> (r: Vec<String>)
    ensures
        r@.len() == n,
        words_told(text_views(r@)),
        !color ==> text_views(r@) == keywords_of(n as nat),
{
    let mut r: Vec<String> = Vec::new();
    let mut i: usize = 0;
    while i < n
        invariant
            i <= n,
            r@.len() == i,
            forall|k: int|
                0 <= k < i ==> holds_text((#[trigger] r@[k])@, keyword_of(k as nat, n as nat)),
            !color ==> forall|k: int|
                0 <= k < i ==> (#[trigger] r@[k])@ == keyword_of(k as nat, n as nat),
        decreases n - i,
    {
        let word: String = if n > 1 {
            cat("Note ", decimal_text(i as u64 + 1).as_str())
        } else {
            "Note".to_owned()
        };
        if color {
            r.push(painted(word.as_str(), NOTE_SHADE));
        } else {
            assert(word@ =~= Seq::<char>::empty() + word@ + Seq::<char>::empty());
            r.push(word);
        }
        i = i + 1;
    }
    proof {
        let words = text_views(r@);
        assert forall|k: int| 0 <= k < words.len() implies holds_text(
            #[trigger] words[k],
            keyword_of(k as nat, words.len()),
        ) by {
            assert(words[k] == r@[k]@);
        }
        if !color {
            assert(words =~= keywords_of(n as nat));
        }
    }
    r
}

/// A report's text: its drawing, then the notes that follow it.
pub fn page_text(drawn: String, keywords: &Vec<String>, loose: &Vec<String>) -> (s: String)
    requires
        keywords@.len() == loose@.len(),
    ensures
        s@ == drawn@ + note_lines(text_views(keywords@), text_views(loose@)),
{
    let mut s: String = drawn;
    let ghost head = s@;
    let ghost words = text_views(keywords@);
    let ghost notes = text_views(loose@);
    let mut i: usize = 0;
    assert(notes.take(0) =~= Seq::<Seq<char>>::empty());
    assert(head + Seq::<char>::empty() =~= head);
    while i < loose.len()
        invariant
            i <= loose.len(),
            keywords@.len() == loose@.len(),
            words == text_views(keywords@),
            notes == text_views(loose@),
            s@ == head + note_lines(words.take(i as int), notes.take(i as int)),
        decreases loose.len() - i,
    {
        assert(notes.take(i + 1).drop_last() =~= notes.take(i as int));
        assert(words.take(i + 1).drop_last() =~= words.take(i as int));
        let ghost was = s@;
        s.append("   ");
        s.append(keywords[i].as_str());
        s.append(": ");
        s.append(loose[i].as_str());
        s.append("\n");
        assert(s@ =~= was + note_line(words[i as int], notes[i as int]));
        assert(s@ =~= head + note_lines(words.take(i + 1), notes.take(i + 1)));
        i = i + 1;
    }
    assert(notes.take(i as int) =~= notes);
    assert(words.take(i as int) =~= words);
    s
}

// A diagnostic and its causes.

/// The header of a diagnostic: a cause's says so.
pub open spec fn header(d: DiagView, first: bool) -> Seq<char> {
    if first {
        d.message
    } else {
        "caused by: "@ + d.message
    }
}

/// Whether every report of a diagnostic and its causes can be drawn.
pub open spec fn drawable(
    d: DiagView,
    langs: Seq<Seq<char>>,
    lookup: spec_fn(Seq<char>) -> Option<Seq<char>>,
    first: bool,
) -> bool
    decreases d,
{
    &&& page_fits(page_of(d, header(d, first), langs, lookup))
    &&& match d.cause {
        Some(c) => drawable(*c, langs, lookup, false),
        None => true,
    }
}

/// What a diagnostic and its causes look like without colours.
pub open spec fn rendering(
    d: DiagView,
    langs: Seq<Seq<char>>,
    lookup: spec_fn(Seq<char>) -> Option<Seq<char>>,
    first: bool,
) -> Seq<char>
    decreases d,
{
    let page = page_of(d, header(d, first), langs, lookup);
    drawing(page) + note_lines(keywords_of(page.loose.len()), page.loose) + match d.cause {
        Some(c) => rendering(*c, langs, lookup, false),
        None => Seq::empty(),
    }
}

/// What holds of a rendering, coloured or not: for the diagnostic and each cause
/// in order, a drawing that holds its header, then its loose notes, each under
/// its keyword.
pub open spec fn rendered(
    s: Seq<char>,
    d: DiagView,
    langs: Seq<Seq<char>>,
    lookup: spec_fn(Seq<char>) -> Option<Seq<char>>,
    first: bool,
) -> bool
    decreases d,
{
    let page = page_of(d, header(d, first), langs, lookup);
    exists|drawn: Seq<char>, words: Seq<Seq<char>>, rest: Seq<char>|
        {
            &&& s == #[trigger] (drawn + note_lines(words, page.loose) + rest)
            &&& holds_text(drawn, page.message)
            &&& words.len() == page.loose.len()
            &&& words_told(words)
            &&& match d.cause {
                Some(c) => rendered(rest, *c, langs, lookup, false),
                None => rest == Seq::<char>::empty(),
            }
        }
}

/// Draw `d`, then each cause as a further report whose message begins
/// `caused by:`. A label whose source does not resolve is written as a note
/// instead.
pub fn render_string<S: SourceLookup>(
    d: &Diagnostic,
    langs: &Languages,
    found: &S,
    color: bool,
) -> (s: String)
    requires
        drawable(d@, langs@, |id: Seq<char>| found.text(id), true),
    ensures
        rendered(s@, d@, langs@, |id: Seq<char>| found.text(id), true),
        !color ==> s@ == rendering(d@, langs@, |id: Seq<char>| found.text(id), true),
{
    render_from(d, langs, found, color, true)
}

fn render_from<S: SourceLookup>(
    d: &Diagnostic,
    langs: &Languages,
    found: &S,
    color: bool,
    first: bool,
) -> (s: String)
    requires
        drawable(d@, langs@, |id: Seq<char>| found.text(id), first),
    ensures
        rendered(s@, d@, langs@, |id: Seq<char>| found.text(id), first),
        !color ==> s@ == rendering(d@, langs@, |id: Seq<char>| found.text(id), first),
    decreases d,
{
    let message: String = if first {
        d.message.clone()
    } else {
        cat("caused by: ", d.message.as_str())
    };
    let page: Page = page(d, message, langs, found);
    let loose: Vec<String> = page.loose.clone();
    assert(text_views(loose@) =~= page@.loose);
    let drawn: String = draw(page, color);
    let ghost head = drawn@;
    let words: Vec<String> = keywords(loose.len(), color);
    let mut s: String = page_text(drawn, &words, &loose);
    let ghost mut tail = Seq::<char>::empty();
    match &d.cause {
        Some(c) => {
            let rest: String = render_from(c, langs, found, color, false);
            s.append(rest.as_str());
            proof {
                tail = rest@;
            }
        },
        None => {
            assert(s@ + Seq::<char>::empty() =~= s@);
        },
    }
    assert(s@ == head + note_lines(text_views(words@), page@.loose) + tail);
    s
}

/// Every label of a diagnostic is drawn or told of in a note, and no note is
/// dropped.
pub proof fn law_nothing_is_dropped(
    d: DiagView,
    message: Seq<char>,
    langs: Seq<Seq<char>>,
    lookup: spec_fn(Seq<char>) -> Option<Seq<char>>,
)
    ensures
        ({
            let p = page_of(d, message, langs, lookup);
            &&& p.labels.len() + p.notes.len() + p.loose.len() == d.labels.len() + d.notes.len()
            &&& forall|i: int|
                0 <= i < d.notes.len() ==> p.notes.contains(#[trigger] d.notes[i])
                    || p.loose.contains(d.notes[i])
        }),
{
    lemma_split(d.labels, langs, lookup);
    let p = page_of(d, message, langs, lookup);
    let gone = lost(d.labels, langs, lookup);
    let notes = gone + d.notes;
    assert forall|i: int| 0 <= i < d.notes.len() implies p.notes.contains(#[trigger] d.notes[i])
        || p.loose.contains(d.notes[i]) by {
        assert(notes[gone.len() + i] == d.notes[i]);
    }
}

proof fn lemma_split(
    labels: Seq<LabelView>,
    langs: Seq<Seq<char>>,
    lookup: spec_fn(Seq<char>) -> Option<Seq<char>>,
)
    ensures
        resolved(labels, lookup).len() + lost(labels, langs, lookup).len() == labels.len(),
    decreases labels.len(),
{
    if labels.len() > 0 {
        lemma_split(labels.drop_last(), langs, lookup);
    }
}

} // verus!
