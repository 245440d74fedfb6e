//! Diagnostics in two steps: [`report`] turns an error value into a plain
//! [`Diagnostic`], and [`draw::render_string`] draws one. An adapter can take
//! the `Diagnostic` to its own renderer, or hand the core one of its own to
//! draw beside the core's.

use vstd::prelude::*;

use crate::bridge::plan::{describe, description};
use crate::error::{frame_name, Error};
use crate::object::{error_of, text_of, trace_of, ErrorBody, ObjectSeq, Objects, TraceFrame};
use crate::text::cat;
use crate::value::{ErrorKind, LangId, Value};
use crate::world::{name_of_language, Languages};

pub mod draw;
pub mod fits;
pub mod laws;

verus! {

/// A frame with a source span: one label in the report.
#[derive(Debug, PartialEq, Eq)]
pub struct DiagLabel {
    pub lang: LangId,
    pub name: String,
    pub source: String,
    /// Byte offsets into the source.
    pub span: (usize, usize),
    pub message: String,
}

/// [`DiagLabel`], with its texts as sequences.
#[verifier::ext_equal]
pub ghost struct LabelView {
    pub lang: LangId,
    pub name: Seq<char>,
    pub source: Seq<char>,
    pub span: (usize, usize),
    pub message: Seq<char>,
}

impl View for DiagLabel {
    type V = LabelView;

    open spec fn view(&self) -> LabelView {
        LabelView {
            lang: self.lang,
            name: self.name@,
            source: self.source@,
            span: self.span,
            message: self.message@,
        }
    }
}

/// A plain description of an error: what is drawn, and what an adapter's own
/// renderer can draw instead.
#[derive(Debug, PartialEq, Eq)]
pub struct Diagnostic {
    pub kind: ErrorKind,
    pub message: String,
    /// Frames that have a span, innermost first.
    pub labels: Vec<DiagLabel>,
    /// Frames without a span, in order, then anything else worth saying.
    pub notes: Vec<String>,
    pub cause: Option<Box<Diagnostic>>,
}

/// [`Diagnostic`], with its contents as sequences.
#[verifier::ext_equal]
pub ghost struct DiagView {
    pub kind: ErrorKind,
    pub message: Seq<char>,
    pub labels: Seq<LabelView>,
    pub notes: Seq<Seq<char>>,
    pub cause: Option<Box<DiagView>>,
}

pub open spec fn label_views(labels: Seq<DiagLabel>) -> Seq<LabelView> {
    labels.map_values(|l: DiagLabel| l@)
}

pub open spec fn text_views(texts: Seq<String>) -> Seq<Seq<char>> {
    texts.map_values(|s: String| s@)
}

pub open spec fn diag_view(d: Diagnostic) -> DiagView
    decreases d,
{
    DiagView {
        kind: d.kind,
        message: d.message@,
        labels: label_views(d.labels@),
        notes: text_views(d.notes@),
        cause: match d.cause {
            Some(c) => Some(Box::new(diag_view(*c))),
            None => None,
        },
    }
}

impl View for Diagnostic {
    type V = DiagView;

    open spec fn view(&self) -> DiagView {
        diag_view(*self)
    }
}

/// A diagnostic with nothing but its kind and its message.
pub open spec fn bare(kind: ErrorKind, message: Seq<char>) -> DiagView {
    DiagView { kind, message, labels: Seq::empty(), notes: Seq::empty(), cause: None }
}

impl Diagnostic {
    pub fn new(kind: ErrorKind, message: &str) -> (d: Diagnostic)
        ensures
            d@ == bare(kind, message@),
    {
        let d = Diagnostic {
            kind,
            message: message.to_owned(),
            labels: Vec::new(),
            notes: Vec::new(),
            cause: None,
        };
        assert(d@ =~= bare(kind, message@));
        d
    }

    pub fn with_label(self, label: DiagLabel) -> (d: Diagnostic)
        ensures
            d@ == (DiagView { labels: self@.labels.push(label@), ..self@ }),
    {
        let ghost was = self.labels@;
        let Diagnostic { kind, message, labels, notes, cause } = self;
        let mut labels: Vec<DiagLabel> = labels;
        labels.push(label);
        assert(label_views(labels@) =~= label_views(was).push(label@));
        Diagnostic { kind, message, labels, notes, cause }
    }

    pub fn with_note(self, note: &str) -> (d: Diagnostic)
        ensures
            d@ == (DiagView { notes: self@.notes.push(note@), ..self@ }),
    {
        let ghost was = self.notes@;
        let Diagnostic { kind, message, labels, notes, cause } = self;
        let mut notes: Vec<String> = notes;
        notes.push(note.to_owned());
        assert(text_views(notes@) =~= text_views(was).push(note@));
        Diagnostic { kind, message, labels, notes, cause }
    }

    pub fn with_cause(self, cause: Diagnostic) -> (d: Diagnostic)
        ensures
            d@ == (DiagView { cause: Some(Box::new(cause@)), ..self@ }),
    {
        let Diagnostic { kind, message, labels, notes, cause: _ } = self;
        Diagnostic { kind, message, labels, notes, cause: Some(Box::new(cause)) }
    }
}

/// Causes deeper than this are cut off; an error that is its own cause would
/// otherwise never end.
pub const MAX_CAUSE_DEPTH: usize = 16;

/// The label of frame `i`, when it has a source and a span.
pub open spec fn label_of(
    all: ObjectSeq,
    langs: Seq<Seq<char>>,
    frame: TraceFrame,
    i: int,
) -> Option<LabelView> {
    match (text_of(all, frame.source), frame.place()) {
        (Some(source), Some(span)) => Some(
            LabelView {
                lang: frame.lang,
                name: frame_name(all, frame),
                source,
                span,
                message: (if i == 0 {
                    "raised in "@
                } else {
                    "through "@
                }) + frame_name(all, frame) + " ("@ + name_of_language(langs, frame.lang) + ")"@,
            },
        ),
        _ => None,
    }
}

/// The note of a frame that has no label.
pub open spec fn note_of(all: ObjectSeq, langs: Seq<Seq<char>>, frame: TraceFrame) -> Seq<char> {
    "in "@ + name_of_language(langs, frame.lang) + " "@ + frame_name(all, frame) + match text_of(
        all,
        frame.source,
    ) {
        Some(source) => " ("@ + source + ")"@,
        None => Seq::empty(),
    }
}

/// The labels of `frames`, in order.
pub open spec fn labels_of(
    all: ObjectSeq,
    langs: Seq<Seq<char>>,
    frames: Seq<TraceFrame>,
) -> Seq<LabelView>
    decreases frames.len(),
{
    if frames.len() == 0 {
        Seq::empty()
    } else {
        let init = labels_of(all, langs, frames.drop_last());
        match label_of(all, langs, frames.last(), frames.len() - 1) {
            Some(l) => init.push(l),
            None => init,
        }
    }
}

/// The notes of `frames`, in order.
pub open spec fn notes_of(
    all: ObjectSeq,
    langs: Seq<Seq<char>>,
    frames: Seq<TraceFrame>,
) -> Seq<Seq<char>>
    decreases frames.len(),
{
    if frames.len() == 0 {
        Seq::empty()
    } else {
        let init = notes_of(all, langs, frames.drop_last());
        match label_of(all, langs, frames.last(), frames.len() - 1) {
            Some(_) => init,
            None => init.push(note_of(all, langs, frames.last())),
        }
    }
}

/// The frames of an error.
pub open spec fn frames_of(all: ObjectSeq, e: ErrorBody) -> Seq<TraceFrame> {
    match trace_of(all, e.trace) {
        Some((frames, _)) => frames,
        None => Seq::empty(),
    }
}

/// The note of an error that carries a language's own object.
pub open spec fn native_note(langs: Seq<Seq<char>>, e: ErrorBody) -> Seq<Seq<char>> {
    if e.native is Null {
        Seq::empty()
    } else {
        seq!["carries a "@ + name_of_language(langs, e.origin) + " object"@]
    }
}

/// The note of causes that are cut off.
pub open spec fn depth_note(e: ErrorBody, depth: nat) -> Seq<Seq<char>> {
    if e.cause is Null || depth + 1 < MAX_CAUSE_DEPTH {
        Seq::empty()
    } else {
        seq!["further causes omitted"@]
    }
}

/// The description of `v`, `depth` causes in.
pub open spec fn reported(
    all: ObjectSeq,
    langs: Seq<Seq<char>>,
    v: Value,
    depth: nat,
) -> DiagView
    decreases MAX_CAUSE_DEPTH - depth,
{
    match error_of(all, v) {
        None => bare(
            ErrorKind::User,
            match text_of(all, v) {
                Some(t) => t,
                None => description(all, v),
            },
        ),
        Some(e) => DiagView {
            kind: e.kind,
            message: match text_of(all, e.message) {
                Some(m) => m,
                None => ""@,
            },
            labels: labels_of(all, langs, frames_of(all, e)),
            notes: notes_of(all, langs, frames_of(all, e)) + native_note(langs, e) + depth_note(
                e,
                depth,
            ),
            cause: if !(e.cause is Null) && depth + 1 < MAX_CAUSE_DEPTH {
                Some(Box::new(reported(all, langs, e.cause, depth + 1)))
            } else {
                None
            },
        },
    }
}

/// Describe `v`. A value that is not an error is described as the payload of a
/// `User` error.
pub fn report(objects: &Objects, langs: &Languages, v: Value) -> (d: Diagnostic)
    ensures
        d@ == reported(objects@, langs@, v, 0),
{
    report_at(objects, langs, v, 0)
}

fn shown_name<'a>(objects: &'a Objects, frame: &TraceFrame) -> (s: &'a str)
    ensures
        s@ == frame_name(objects@, *frame),
{
    match objects.text(frame.name) {
        Some(s) => if s.is_empty() {
            "<callable>"
        } else {
            s
        },
        None => "<callable>",
    }
}

fn frame_label(objects: &Objects, langs: &Languages, frame: &TraceFrame, first: bool) -> (r: Option<
    DiagLabel,
>)
    ensures
        forall|i: int|
            (i == 0) == first ==> match #[trigger] label_of(objects@, langs@, *frame, i) {
                Some(l) => r matches Some(x) && x@ == l,
                None => r is None,
            },
{
    match objects.text(frame.source) {
        Some(source) => match frame.span() {
            Some(span) => {
                let name: &str = shown_name(objects, frame);
                let mut message: String = if first {
                    "raised in ".to_owned()
                } else {
                    "through ".to_owned()
                };
                message.append(name);
                message.append(" (");
                message.append(langs.language_name(frame.lang).as_str());
                message.append(")");
                Some(
                    DiagLabel {
                        lang: frame.lang,
                        name: name.to_owned(),
                        source: source.to_owned(),
                        span,
                        message,
                    },
                )
            },
            None => None,
        },
        None => None,
    }
}

fn frame_note(objects: &Objects, langs: &Languages, frame: &TraceFrame) -> (s: String)
    ensures
        s@ == note_of(objects@, langs@, *frame),
{
    let mut s: String = cat("in ", langs.language_name(frame.lang).as_str());
    s.append(" ");
    s.append(shown_name(objects, frame));
    let ghost head = s@;
    match objects.text(frame.source) {
        Some(source) => {
            s.append(" (");
            s.append(source);
            s.append(")");
            assert(s@ =~= head + (" ("@ + source@ + ")"@));
        },
        None => {
            assert(s@ =~= head + Seq::<char>::empty());
        },
    }
    s
}

fn report_at(objects: &Objects, langs: &Languages, v: Value, depth: usize) -> (d: Diagnostic)
    requires
        depth < MAX_CAUSE_DEPTH,
    ensures
        d@ == reported(objects@, langs@, v, depth as nat),
    decreases MAX_CAUSE_DEPTH - depth,
{
    let e: ErrorBody = match objects.error(v) {
        Some(e) => e,
        None => {
            return match objects.text(v) {
                Some(t) => Diagnostic::new(ErrorKind::User, t),
                None => Diagnostic::new(ErrorKind::User, describe(objects, v).as_str()),
            };
        },
    };
    let mut labels: Vec<DiagLabel> = Vec::new();
    let mut notes: Vec<String> = Vec::new();
    let ghost frames = frames_of(objects@, e);
    assert(label_views(labels@) =~= Seq::<LabelView>::empty());
    assert(text_views(notes@) =~= Seq::<Seq<char>>::empty());
    assert(frames.take(0) =~= Seq::<TraceFrame>::empty());
    match objects.trace(e.trace) {
        Some(list) => {
            let mut i: usize = 0;
            while i < list.len()
                invariant
                    i <= list.len(),
                    frames == list@,
                    label_views(labels@) == labels_of(objects@, langs@, frames.take(i as int)),
                    text_views(notes@) == notes_of(objects@, langs@, frames.take(i as int)),
                decreases list.len() - i,
            {
                assert(frames.take(i + 1).drop_last() =~= frames.take(i as int));
                let ghost old_labels = labels@;
                let ghost old_notes = notes@;
                match frame_label(objects, langs, &list[i], i == 0) {
                    Some(l) => {
                        labels.push(l);
                        assert(label_views(labels@) =~= label_views(old_labels).push(l@));
                    },
                    None => {
                        let note: String = frame_note(objects, langs, &list[i]);
                        notes.push(note);
                        assert(text_views(notes@) =~= text_views(old_notes).push(note@));
                    },
                }
                i = i + 1;
            }
            assert(frames.take(i as int) =~= frames);
        },
        None => {},
    }
    let ghost framed = notes@;
    if !e.native.is_null() {
        let mut note: String = cat("carries a ", langs.language_name(e.origin).as_str());
        note.append(" object");
        notes.push(note);
    }
    assert(text_views(notes@) =~= text_views(framed) + native_note(langs@, e));
    let ghost carried = notes@;
    let mut cause: Option<Box<Diagnostic>> = None;
    if !e.cause.is_null() {
        if depth + 1 < MAX_CAUSE_DEPTH {
            cause = Some(Box::new(report_at(objects, langs, e.cause, depth + 1)));
        } else {
            notes.push("further causes omitted".to_owned());
        }
    }
    assert(text_views(notes@) =~= text_views(carried) + depth_note(e, depth as nat));
    let message: String = Error::message_str(objects, &e).to_owned();
    Diagnostic { kind: e.kind, message, labels, notes, cause }
}

/// Every frame is told of once: as a label, or as a note.
pub proof fn law_every_frame_is_told(
    all: ObjectSeq,
    langs: Seq<Seq<char>>,
    frames: Seq<TraceFrame>,
)
    ensures
        labels_of(all, langs, frames).len() + notes_of(all, langs, frames).len() == frames.len(),
    decreases frames.len(),
{
    if frames.len() > 0 {
        law_every_frame_is_told(all, langs, frames.drop_last());
    }
}

/// How many causes a description has.
pub open spec fn causes(d: DiagView) -> nat
    decreases d,
{
    match d.cause {
        Some(c) => 1 + causes(*c),
        None => 0,
    }
}

/// A description ends, whatever causes what: it has fewer causes than the
/// limit.
pub proof fn law_causes_end(all: ObjectSeq, langs: Seq<Seq<char>>, v: Value, depth: nat)
    requires
        depth < MAX_CAUSE_DEPTH,
    ensures
        causes(reported(all, langs, v, depth)) < MAX_CAUSE_DEPTH - depth,
    decreases MAX_CAUSE_DEPTH - depth,
{
    match error_of(all, v) {
        Some(e) => {
            if !(e.cause is Null) && depth + 1 < MAX_CAUSE_DEPTH {
                law_causes_end(all, langs, e.cause, depth + 1);
            }
        },
        None => {},
    }
}

} // verus!
