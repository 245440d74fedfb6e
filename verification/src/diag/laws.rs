//! What holds of what is told of an error, and of how it is drawn.

use vstd::prelude::*;
use vstd::string::*;
use vstd::utf8::{encode_utf8, is_char_boundary};

use crate::diag::draw::{
    continues, drawable, drawing, drawn_as, ends_line, found_in, header, holds_text, in_text,
    keyword_of, keywords_of, label_fits, last_byte, lost, lost_note, note_line, note_lines,
    one_line, page_fits, page_of, page_text_of, paint_of, rendered, rendering, resolved,
    words_told, DrawnView, PageView, Paint,
};
use crate::diag::{
    bare, causes, frames_of, label_of, labels_of, note_of, notes_of, reported, DiagView, LabelView,
};
use crate::error::{frame_for, frame_name, kind_text};
use crate::object::{error_of, text_of, ObjectSeq, TraceFrame};
use crate::text::decimal;
use crate::value::{LangId, Value};
use crate::world::name_of_language;

verus! {

// What is told.

/// A frame that has a source and a place is a label there, which says whether the
/// error was raised or only came through; another is a note.
pub proof fn law_a_frame_is_a_label_or_a_note(
    all: ObjectSeq,
    langs: Seq<Seq<char>>,
    lang: LangId,
    name: Value,
    source: Value,
    span: Option<(usize, usize)>,
    i: int,
)
    ensures
        ({
            let f = frame_for(lang, name, source, span);
            let who = frame_name(all, f);
            &&& label_of(all, langs, f, i) is Some <==> span is Some && text_of(all, source) is Some
            &&& label_of(all, langs, f, i) matches Some(l) ==> {
                &&& l.lang == lang
                &&& l.name == who
                &&& Some(l.source) == text_of(all, source)
                &&& Some(l.span) == span
                &&& i == 0 ==> l.message =~= "raised in "@ + who + " ("@ + name_of_language(
                    langs,
                    lang,
                ) + ")"@
                &&& i > 0 ==> l.message =~= "through "@ + who + " ("@ + name_of_language(langs, lang)
                    + ")"@
            }
            &&& text_of(all, source) is None ==> note_of(all, langs, f) =~= "in "@
                + name_of_language(langs, lang) + " "@ + who
            &&& text_of(all, source) matches Some(s) ==> note_of(all, langs, f) =~= "in "@
                + name_of_language(langs, lang) + " "@ + who + " ("@ + s + ")"@
        }),
{
}

/// A frame is told by the name that it has, and one without a name as what can be
/// called.
pub proof fn law_a_frame_has_a_name(all: ObjectSeq, f: TraceFrame)
    ensures
        text_of(all, f.name) matches Some(s) ==> s.len() > 0 ==> frame_name(all, f) == s,
        text_of(all, f.name) is None ==> frame_name(all, f) == "<callable>"@,
{
}

/// Each frame of an error is among its labels or its notes, in the order of the frames.
pub proof fn law_each_frame_is_told(
    all: ObjectSeq,
    langs: Seq<Seq<char>>,
    frames: Seq<TraceFrame>,
    i: int,
)
    requires
        0 <= i < frames.len(),
    ensures
        match label_of(all, langs, frames[i], i) {
            Some(l) => labels_of(all, langs, frames).contains(l),
            None => notes_of(all, langs, frames).contains(note_of(all, langs, frames[i])),
        },
        label_of(all, langs, frames[0], 0) matches Some(l) ==> labels_of(all, langs, frames)[0] == l,
    decreases frames.len(),
{
    let front = frames.drop_last();
    let labels = labels_of(all, langs, front);
    let notes = notes_of(all, langs, front);
    let all_labels = labels_of(all, langs, frames);
    let all_notes = notes_of(all, langs, frames);
    if front.len() > 0 {
        assert(front[0] == frames[0]);
        law_each_frame_is_told(all, langs, front, 0);
        if let Some(l) = label_of(all, langs, frames[0], 0) {
            assert(labels.contains(l));
            assert(all_labels[0] == labels[0]);
        }
    }
    if i < front.len() {
        assert(front[i] == frames[i]);
        law_each_frame_is_told(all, langs, front, i);
        match label_of(all, langs, frames[i], i) {
            Some(l) => {
                let k = choose|k: int| 0 <= k < labels.len() && labels[k] == l;
                assert(all_labels[k] == l);
            },
            None => {
                let n = note_of(all, langs, frames[i]);
                let k = choose|k: int| 0 <= k < notes.len() && notes[k] == n;
                assert(all_notes[k] == n);
            },
        }
    } else {
        match label_of(all, langs, frames[i], i) {
            Some(l) => {
                assert(all_labels[labels.len() as int] == l);
            },
            None => {
                assert(all_notes[notes.len() as int] == note_of(all, langs, frames[i]));
            },
        }
    }
}

/// An error is reported by its kind and message; a value of a language's own that it
/// carries, and that causes were left out, are noted after the frames; its cause is
/// reported in turn. Another value is reported as a user error, by its text or what it
/// is.
pub proof fn law_an_error_is_reported(
    all: ObjectSeq,
    langs: Seq<Seq<char>>,
    v: Value,
    depth: nat,
)
    requires
        depth < 16,
    ensures
        ({
            let d = reported(all, langs, v, depth);
            match error_of(all, v) {
                Some(e) => {
                    let told = notes_of(all, langs, frames_of(all, e));
                    let native = "carries a "@ + name_of_language(langs, e.origin) + " object"@;
                    let omitted = "further causes omitted"@;
                    &&& d.kind == e.kind
                    &&& text_of(all, e.message) matches Some(m) ==> d.message == m
                    &&& text_of(all, e.message) is None ==> d.message =~= Seq::<char>::empty()
                    &&& d.labels == labels_of(all, langs, frames_of(all, e))
                    &&& e.native is Null && e.cause is Null ==> d.notes =~= told && d.cause is None
                    &&& !(e.native is Null) ==> d.notes.len() > told.len() && d.notes[told.len() as int]
                        == native
                    &&& !(e.cause is Null) && depth < 15 ==> d.cause == Some(
                        Box::new(reported(all, langs, e.cause, depth + 1)),
                    )
                    &&& !(e.cause is Null) && depth == 15 ==> d.cause is None && d.notes.last()
                        == omitted
                    &&& d.notes.take(told.len() as int) =~= told
                },
                None => {
                    &&& d.kind is User
                    &&& text_of(all, v) matches Some(t) ==> d.message == t
                    &&& v is Null ==> d.message == "null"@
                    &&& d.labels.len() == 0
                    &&& d.notes.len() == 0
                    &&& d.cause is None
                },
            }
        }),
{
    reveal_strlit("");
}

/// A diagnostic has one cause more than its cause.
pub proof fn law_causes_are_counted(d: DiagView)
    ensures
        d.cause is None ==> causes(d) == 0,
        d.cause matches Some(c) ==> causes(d) == causes(*c) + 1,
        bare(d.kind, d.message).cause is None && bare(d.kind, d.message).labels.len() == 0 && bare(
            d.kind,
            d.message,
        ).notes.len() == 0 && bare(d.kind, d.message).kind == d.kind && bare(
            d.kind,
            d.message,
        ).message == d.message,
{
}

// How it is drawn.

/// Languages take the eight paints in turn.
pub proof fn law_languages_take_the_paints_in_turn(a: LangId, b: LangId)
    ensures
        paint_of(a) == paint_of(b) <==> a % 8 == b % 8,
        a % 8 == 0 ==> paint_of(a) == Paint::Red,
        a % 8 == 1 ==> paint_of(a) == Paint::Blue,
        a % 8 == 2 ==> paint_of(a) == Paint::Green,
        a % 8 == 3 ==> paint_of(a) == Paint::Magenta,
        a % 8 == 4 ==> paint_of(a) == Paint::Cyan,
        a % 8 == 5 ==> paint_of(a) == Paint::Yellow,
        a % 8 == 6 ==> paint_of(a) == Paint::BrightRed,
{
}

/// A source is found by its id, the first that has it.
pub proof fn law_a_source_is_found(list: Seq<(String, String)>, id: Seq<char>)
    ensures
        match found_in(list, id) {
            Some(t) => exists|i: int| #![trigger list[i]]
                0 <= i < list.len() && list[i].0@ == id && list[i].1@ == t && forall|k: int|
                    0 <= k < i ==> (#[trigger] list[k]).0@ != id,
            None => forall|k: int| 0 <= k < list.len() ==> (#[trigger] list[k]).0@ != id,
        },
    decreases list.len(),
{
    if list.len() > 0 {
        if list[0].0@ == id {
            let _ = list[0];
        } else {
            let rest = list.drop_first();
            law_a_source_is_found(rest, id);
            assert forall|k: int| 0 < k < list.len() implies #[trigger] list[k] == rest[k - 1] by {}
            if let Some(t) = found_in(rest, id) {
                let i = choose|i: int| #![trigger rest[i]]
                    0 <= i < rest.len() && rest[i].0@ == id && rest[i].1@ == t && forall|k: int|
                        0 <= k < i ==> (#[trigger] rest[k]).0@ != id;
                assert(list[i + 1] == rest[i]);
            }
        }
    }
}

/// A page's text is found by its id, the last that has it.
pub proof fn law_a_page_text_is_found(texts: Seq<(Seq<char>, Seq<char>)>, id: Seq<char>, i: int)
    requires
        0 <= i < texts.len(),
        texts[i].0 == id,
        forall|k: int| i < k < texts.len() ==> (#[trigger] texts[k]).0 != id,
    ensures
        page_text_of(texts, id) == Some(texts[i].1),
    decreases texts.len(),
{
    if i < texts.len() - 1 {
        let front = texts.drop_last();
        let _ = texts[texts.len() - 1];
        assert(front[i] == texts[i]);
        assert forall|k: int| i < k < front.len() implies (#[trigger] front[k]).0 != id by {
            assert(front[k] == texts[k]);
        }
        law_a_page_text_is_found(front, id, i);
    }
}

/// The labels whose source is found are drawn, in their order; of each other one a
/// note says where it was.
pub proof fn law_labels_are_drawn_or_noted(
    labels: Seq<LabelView>,
    langs: Seq<Seq<char>>,
    lookup: spec_fn(Seq<char>) -> Option<Seq<char>>,
    i: int,
)
    requires
        0 <= i < labels.len(),
    ensures
        resolved(labels, lookup) == labels.filter(|l: LabelView| lookup(l.source) is Some),
        lookup(labels[i].source) is None ==> lost(labels, langs, lookup).contains(
            "in "@ + name_of_language(langs, labels[i].lang) + " "@ + labels[i].name + " ("@
                + labels[i].source + ":"@ + decimal(labels[i].span.0 as nat) + ".."@ + decimal(
                labels[i].span.1 as nat,
            ) + ")"@,
        ),
{
    lemma_resolved(labels, lookup);
    lemma_lost(labels, langs, lookup, i);
}

proof fn lemma_resolved(labels: Seq<LabelView>, lookup: spec_fn(Seq<char>) -> Option<Seq<char>>)
    ensures
        resolved(labels, lookup) == labels.filter(|l: LabelView| lookup(l.source) is Some),
    decreases labels.len(),
{
    reveal(Seq::filter);
    if labels.len() > 0 {
        lemma_resolved(labels.drop_last(), lookup);
    }
}

proof fn lemma_lost(
    labels: Seq<LabelView>,
    langs: Seq<Seq<char>>,
    lookup: spec_fn(Seq<char>) -> Option<Seq<char>>,
    i: int,
)
    requires
        0 <= i < labels.len(),
    ensures
        lookup(labels[i].source) is None ==> lost(labels, langs, lookup).contains(
            lost_note(langs, labels[i]),
        ),
    decreases labels.len(),
{
    if lookup(labels[i].source) is None {
        let front = labels.drop_last();
        let init = lost(front, langs, lookup);
        let all = lost(labels, langs, lookup);
        let n = lost_note(langs, labels[i]);
        if i < front.len() {
            assert(front[i] == labels[i]);
            lemma_lost(front, langs, lookup, i);
            let k = choose|k: int| 0 <= k < init.len() && init[k] == n;
            assert(all[k] == n);
        } else {
            assert(all[init.len() as int] == n);
        }
    }
}

/// A page begins where its first label does, and draws each label over its span, in
/// the paint of its language, in order. Notes stand on a page that has a label, and
/// after it where it has none.
pub proof fn law_a_page_is_made_up(
    d: DiagView,
    message: Seq<char>,
    langs: Seq<Seq<char>>,
    lookup: spec_fn(Seq<char>) -> Option<Seq<char>>,
    i: int,
)
    ensures
        ({
            let p = page_of(d, message, langs, lookup);
            let shown = d.labels.filter(|l: LabelView| lookup(l.source) is Some);
            &&& p.code == kind_text(d.kind)
            &&& p.message == message
            &&& p.labels.len() == shown.len()
            &&& p.texts.len() == shown.len()
            &&& shown.len() > 0 ==> {
                &&& p.at == shown[0].source
                &&& p.from == shown[0].span.0
                &&& p.to == shown[0].span.1
                &&& p.loose.len() == 0
                &&& p.notes.len() == d.labels.len() - shown.len() + d.notes.len()
            }
            &&& shown.len() == 0 ==> {
                &&& p.notes.len() == 0
                &&& p.loose.len() == d.labels.len() + d.notes.len()
                &&& p.at.len() == 0
            }
            &&& 0 <= i < shown.len() ==> {
                &&& p.labels[i].source == shown[i].source
                &&& p.labels[i].start == shown[i].span.0
                &&& p.labels[i].end == shown[i].span.1
                &&& p.labels[i].message == shown[i].message
                &&& p.labels[i].paint == paint_of(shown[i].lang)
                &&& p.labels[i].order == i as i32
                &&& p.texts[i].0 == shown[i].source
                &&& Some(p.texts[i].1) == lookup(shown[i].source)
            }
        }),
{
    lemma_resolved(d.labels, lookup);
    crate::diag::draw::law_nothing_is_dropped(d, message, langs, lookup);
    let shown = resolved(d.labels, lookup);
    if 0 <= i < shown.len() {
        let keep = |l: LabelView| lookup(l.source) is Some;
        d.labels.lemma_filter_pred(keep, i);
        assert(page_of(d, message, langs, lookup).labels[i] == drawn_as(shown[i], i));
    }
}

/// A label fits a text where both its ends stand between characters, and one that
/// begins past the end fits any; one that ends before it begins, inside a character,
/// or one byte past the end, does not.
pub proof fn law_where_a_label_fits(text: Seq<char>, start: usize, end: usize)
    ensures
        ({
            let bytes = encode_utf8(text);
            &&& start <= end <= bytes.len() && is_char_boundary(bytes, start as int)
                && is_char_boundary(bytes, end as int) ==> label_fits(text, start, end, false)
            &&& bytes.len() < start <= end ==> label_fits(text, start, end, true)
            &&& start > end ==> !label_fits(text, start, end, false)
            &&& start <= bytes.len() && !is_char_boundary(bytes, start as int) ==> !label_fits(
                text,
                start,
                end,
                false,
            )
            &&& start < end <= bytes.len() && !is_char_boundary(bytes, end as int) ==> !label_fits(
                text,
                start,
                end,
                false,
            )
            &&& start <= bytes.len() && end == bytes.len() + 1 ==> !label_fits(text, start, end, false)
            &&& label_fits(text, start, end, true) ==> label_fits(text, start, end, false)
        }),
{
}

/// A label reaches to the byte before its end, or stands on its own start; it is in a
/// text that is as long as it reaches.
pub proof fn law_where_a_label_ends(text: Seq<char>, l: DrawnView)
    ensures
        l.start < l.end ==> last_byte(l) == l.end - 1,
        l.start >= l.end ==> last_byte(l) == l.start,
        l.start < l.end ==> (in_text(text, l) <==> l.end <= encode_utf8(text).len()),
        l.start == l.end ==> (in_text(text, l) <==> l.start <= encode_utf8(text).len()),
{
}

/// Lines end at the line feed, the vertical tab, the form feed, the carriage return,
/// the next line, and the separators of lines and paragraphs.
pub proof fn law_where_lines_end(c: char)
    ensures
        ends_line(c) <==> c == '\n' || c == '\u{B}' || c == '\u{C}' || c == '\r' || c == '\u{85}' || c
            == '\u{2028}' || c == '\u{2029}',
{
}

/// Notes that follow a page are numbered from one, where there is more than one; each
/// is a line.
pub proof fn law_notes_are_numbered(n: nat, i: nat, note: Seq<char>)
    requires
        i < n,
    ensures
        n > 1 ==> keyword_of(i, n) == "Note "@ + decimal(i + 1),
        n == 1 ==> keyword_of(i, n) == "Note"@,
        keywords_of(n).len() == n,
        keywords_of(n)[i as int] == keyword_of(i, n),
        note_line(keyword_of(i, n), note) == "   "@ + keyword_of(i, n) + ": "@ + note + "\n"@,
{
}

/// Notes are told one after the other, in their order.
pub proof fn law_notes_are_told_in_order(
    k: Seq<Seq<char>>,
    a: Seq<Seq<char>>,
    word: Seq<char>,
    note: Seq<char>,
)
    requires
        k.len() == a.len(),
    ensures
        note_lines(k.push(word), a.push(note)) == note_lines(k, a) + note_line(word, note),
        note_lines(Seq::empty(), Seq::empty()) == Seq::<char>::empty(),
{
    assert(k.push(word).drop_last() =~= k);
    assert(a.push(note).drop_last() =~= a);
}

/// A diagnostic is drawn, its loose notes follow, and then its cause, which says that it
/// is one.
pub proof fn law_causes_follow(
    d: DiagView,
    langs: Seq<Seq<char>>,
    lookup: spec_fn(Seq<char>) -> Option<Seq<char>>,
)
    ensures
        header(d, true) == d.message,
        header(d, false) == "caused by: "@ + d.message,
        ({
            let p = page_of(d, d.message, langs, lookup);
            let own = drawing(p) + note_lines(keywords_of(p.loose.len()), p.loose);
            &&& d.cause is None ==> rendering(d, langs, lookup, true) =~= own
            &&& d.cause matches Some(c) ==> rendering(d, langs, lookup, true) =~= own + rendering(
                *c,
                langs,
                lookup,
                false,
            )
        }),
        ({
            let q = page_of(d, "caused by: "@ + d.message, langs, lookup);
            d.cause is None ==> rendering(d, langs, lookup, false) =~= drawing(q) + note_lines(
                keywords_of(q.loose.len()),
                q.loose,
            )
        }),
{
}

/// What stands on one line holds no end of one; a shorter stretch of it does too.
pub proof fn law_what_stands_on_one_line(text: Seq<char>, from: int, to: int, c: int)
    ensures
        (forall|i: int| 0 <= i < text.len() ==> !ends_line(#[trigger] text[i])) ==> one_line(
            text,
            from,
            to,
        ),
        one_line(text, from, to) && 0 <= c < text.len() && encode_utf8(text.take(c + 1)).len() > from
            && encode_utf8(text.take(c)).len() < to ==> !ends_line(text[c]),
        one_line(text, from, to) ==> one_line(text, from + 1, to) && one_line(text, from, to - 1),
{
    if one_line(text, from, to) {
        assert(one_line(text, from + 1, to)) by {
            assert forall|i: int|
                0 <= i < text.len() && encode_utf8(text.take(i + 1)).len() > from + 1
                    && encode_utf8(text.take(i)).len() < to implies !ends_line(#[trigger] text[i]) by {}
        }
    }
}

/// A diagnostic can be drawn where its own page can, and its cause can.
pub proof fn law_when_it_can_be_drawn(
    d: DiagView,
    langs: Seq<Seq<char>>,
    lookup: spec_fn(Seq<char>) -> Option<Seq<char>>,
)
    ensures
        d.cause is None ==> (drawable(d, langs, lookup, true) <==> page_fits(
            page_of(d, d.message, langs, lookup),
        )),
        d.cause matches Some(c) ==> (drawable(d, langs, lookup, true) <==> page_fits(
            page_of(d, d.message, langs, lookup),
        ) && drawable(*c, langs, lookup, false)),
        d.cause is None ==> (drawable(d, langs, lookup, false) <==> page_fits(
            page_of(d, "caused by: "@ + d.message, langs, lookup),
        )),
{
}

/// A page fits where each of its labels does: its source is there, of less than a
/// thousand million characters, and its ends stand between characters; a page without
/// labels fits always.
pub proof fn law_when_a_page_fits(p: PageView, i: int)
    ensures
        p.labels.len() == 0 && p.texts.len() == 0 ==> page_fits(p),
        page_fits(p) && 0 <= i < p.labels.len() ==> {
            let l = p.labels[i];
            page_text_of(p.texts, l.source) matches Some(t) && t.len() < 1000000000 && label_fits(
                t,
                l.start,
                l.end,
                false,
            )
        },
{
}

/// A label goes on in the section of an earlier one only in the same source, where that
/// one is drawn.
pub proof fn law_where_a_section_goes_on(p: PageView, text: Seq<char>, j: int, i: int)
    requires
        continues(p, text, j, i),
    ensures
        p.labels[j].source == p.labels[i].source,
        in_text(text, p.labels[j]),
        last_byte(p.labels[j]) <= last_byte(p.labels[i]) || one_line(
            text,
            last_byte(p.labels[i]),
            last_byte(p.labels[j]),
        ),
{
}

/// What is drawn in colours or without holds the message, then the loose notes, as many
/// as there are, each with its keyword, and then the causes.
pub proof fn law_what_is_drawn_holds_the_message(
    s: Seq<char>,
    d: DiagView,
    langs: Seq<Seq<char>>,
    lookup: spec_fn(Seq<char>) -> Option<Seq<char>>,
    first: bool,
)
    requires
        rendered(s, d, langs, lookup, first),
        d.cause is None,
    ensures
        exists|drawn: Seq<char>, words: Seq<Seq<char>>| #![trigger note_lines(words, page_of(
            d,
            header(d, first),
            langs,
            lookup,
        ).loose), holds_text(drawn, header(d, first))]
            {
                let loose = page_of(d, header(d, first), langs, lookup).loose;
                &&& s == drawn + note_lines(words, loose)
                &&& holds_text(drawn, header(d, first))
                &&& words.len() == loose.len()
                &&& words_told(words)
            },
{
    let page = page_of(d, header(d, first), langs, lookup);
    let (drawn, words, rest) = choose|drawn: Seq<char>, words: Seq<Seq<char>>, rest: Seq<char>|
        {
            &&& s == #[trigger] (drawn + note_lines(words, page.loose) + rest)
            &&& holds_text(drawn, page.message)
            &&& words.len() == page.loose.len()
            &&& words_told(words)
            &&& rest == Seq::<char>::empty()
        };
    assert(s =~= drawn + note_lines(words, page.loose));
    assert(holds_text(drawn, header(d, first)));
}

} // verus!
