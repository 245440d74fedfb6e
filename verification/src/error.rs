//! Strings, traces and errors: the value every error becomes at a language
//! boundary, and the frames it gathers there.

use vstd::prelude::*;
use vstd::string::*;
use vstd::utf8::encode_utf8;

use crate::object::{
    error_object, error_of, next_address, object_at, str_object, text_of, trace_object, trace_of,
    with_body, Body, BodyView, ErrorBody, Object, ObjectSeq, ObjectView, Objects, TraceFrame,
};
use crate::protocol::{Fault, Reply};
use crate::symbol::{is_table, name_of, Symbol, SymbolTable};
use crate::text::{cat, decimal, decimal_text, same_text};
use crate::value::{ErrorKind, LangId, Value, LANG_CORE};
use crate::world::{name_of_language, Languages};

verus! {

/// How many frames the first trace of an error holds.
pub const FIRST_CAPACITY: usize = 4;

/// A UTF-8 string.
pub struct Str;

/// The segments an error crossed.
pub struct Trace;

/// The value an error is at a boundary.
pub struct Error;

/// The kind in words.
pub open spec fn kind_text(kind: ErrorKind) -> Seq<char> {
    match kind {
        ErrorKind::Runtime => "Runtime"@,
        ErrorKind::Type => "Type"@,
        ErrorKind::NullAccess => "NullAccess"@,
        ErrorKind::Index => "Index"@,
        ErrorKind::Arithmetic => "Arithmetic"@,
        ErrorKind::User => "User"@,
        ErrorKind::Cancelled => "Cancelled"@,
        ErrorKind::StackOverflow => "StackOverflow"@,
        ErrorKind::OutOfMemory => "OutOfMemory"@,
        ErrorKind::Internal => "Internal"@,
    }
}

pub fn kind_name(kind: ErrorKind) -> (s: &'static str)
    ensures
        s@ == kind_text(kind),
{
    match kind {
        ErrorKind::Runtime => "Runtime",
        ErrorKind::Type => "Type",
        ErrorKind::NullAccess => "NullAccess",
        ErrorKind::Index => "Index",
        ErrorKind::Arithmetic => "Arithmetic",
        ErrorKind::User => "User",
        ErrorKind::Cancelled => "Cancelled",
        ErrorKind::StackOverflow => "StackOverflow",
        ErrorKind::OutOfMemory => "OutOfMemory",
        ErrorKind::Internal => "Internal",
    }
}

/// The FNV-1a hash of `bytes`.
pub open spec fn fnv(bytes: Seq<u8>) -> u64
    decreases bytes.len(),
{
    if bytes.len() == 0 {
        0xcbf2_9ce4_8422_2325
    } else {
        ((fnv(bytes.drop_last()) ^ (bytes.last() as u64)) * 0x0000_0100_0000_01b3int
            % 0x1_0000_0000_0000_0000int) as u64
    }
}

impl Str {
    /// A core string.
    pub fn new(objects: &mut Objects, s: &str) -> (v: Value)
        requires
            old(objects).room(1),
        ensures
            final(objects)@ == old(objects)@.push(str_object(s@)),
            v == Value::Object(next_address(old(objects)@)),
    {
        Value::Object(
            objects.add_object(
                Object {
                    lang: LANG_CORE,
                    ty_name: "caribou.Str".to_owned(),
                    body: Body::Str(s.to_owned()),
                },
            ),
        )
    }

    /// The text of `v` if it is a core string.
    pub fn text(objects: &Objects, v: Value) -> (r: Option<&str>)
        ensures
            match text_of(objects@, v) {
                Some(t) => r matches Some(s) && s@ == t,
                None => r is None,
            },
    {
        objects.text(v)
    }

    /// The length of `v` in bytes, if it is a core string.
    pub fn len(objects: &Objects, v: Value) -> (r: Option<usize>)
        ensures
            match text_of(objects@, v) {
                Some(t) => r matches Some(n) && n == encode_utf8(t).len(),
                None => r is None,
            },
    {
        match objects.text(v) {
            Some(s) => Some(s.as_bytes().len()),
            None => None,
        }
    }

    /// Whether `v` and `other` are core strings of one text.
    pub fn equals(objects: &Objects, v: Value, other: Value) -> (r: bool)
        ensures
            r == (text_of(objects@, v) is Some && text_of(objects@, v) == text_of(
                objects@,
                other,
            )),
    {
        match objects.text(v) {
            Some(a) => match objects.text(other) {
                Some(b) => same_text(a, b),
                None => false,
            },
            None => false,
        }
    }

    /// The hash of a core string's bytes: FNV-1a.
    pub fn hash(objects: &Objects, v: Value) -> (r: Option<u64>)
        ensures
            r == match text_of(objects@, v) {
                Some(t) => Some(fnv(encode_utf8(t))),
                None => None,
            },
    {
        match objects.text(v) {
            Some(s) => {
                let bytes: &[u8] = s.as_bytes();
                let mut h: u64 = 0xcbf2_9ce4_8422_2325;
                let mut i: usize = 0;
                assert(bytes@.take(0) =~= Seq::<u8>::empty());
                while i < bytes.len()
                    invariant
                        i <= bytes.len(),
                        h == fnv(bytes@.take(i as int)),
                    decreases bytes.len() - i,
                {
                    assert(bytes@.take(i + 1).drop_last() =~= bytes@.take(i as int));
                    h = (h ^ (bytes[i] as u64)).wrapping_mul(0x0000_0100_0000_01b3);
                    i = i + 1;
                }
                assert(bytes@.take(i as int) =~= bytes@);
                Some(h)
            },
            None => None,
        }
    }
}

/// A string for `s`, when it is not empty: the objects then, and the value.
pub open spec fn with_text(all: ObjectSeq, s: Seq<char>) -> (ObjectSeq, Value) {
    if s.len() == 0 {
        (all, Value::Null)
    } else {
        (all.push(str_object(s)), Value::Object(next_address(all)))
    }
}

fn add_text(objects: &mut Objects, s: &str) -> (v: Value)
    requires
        old(objects).room(1),
    ensures
        (final(objects)@, v) == with_text(old(objects)@, s@),
{
    if s.is_empty() {
        Value::Null
    } else {
        Str::new(objects, s)
    }
}

/// An error with nothing but its kind and its origin.
pub open spec fn bare_error(kind: ErrorKind, origin: LangId) -> ErrorBody {
    ErrorBody {
        kind,
        origin,
        message: Value::Null,
        cause: Value::Null,
        native: Value::Null,
        trace: Value::Null,
    }
}

/// The objects with a new error of this message at their end, and the text of
/// the message behind it.
pub open spec fn with_error(
    all: ObjectSeq,
    kind: ErrorKind,
    message: Seq<char>,
    origin: LangId,
) -> ObjectSeq {
    let bare = bare_error(kind, origin);
    let with = with_text(all.push(error_object(bare)), message);
    with_body(
        with.0,
        next_address(all),
        BodyView::Error(ErrorBody { message: with.1, ..bare }),
    )
}

/// [`with_error`] for a language's own error object.
pub open spec fn with_native_error(all: ObjectSeq, native: Value, origin: LangId) -> ObjectSeq {
    with_body(
        with_error(all, ErrorKind::User, Seq::empty(), origin),
        next_address(all),
        BodyView::Error(ErrorBody { native, ..bare_error(ErrorKind::User, origin) }),
    )
}

/// Twice a capacity.
pub open spec fn doubled(cap: nat) -> nat {
    if cap * 2 <= usize::MAX {
        cap * 2
    } else {
        usize::MAX as nat
    }
}

/// The objects with `frame` at the end of the trace at `t`: in place, or in a
/// larger copy when it is full. Also the address of the trace that holds it.
pub open spec fn with_frame(all: ObjectSeq, t: usize, frame: TraceFrame) -> (ObjectSeq, usize) {
    match all[t - 1].body {
        BodyView::Trace(frames, cap) => if frames.len() < cap {
            (with_body(all, t, BodyView::Trace(frames.push(frame), cap)), t)
        } else {
            (all.push(trace_object(frames.push(frame), doubled(cap))), next_address(all))
        },
        _ => (all, t),
    }
}

/// The objects with the trace of the error at `e`: its own, or a new one.
pub open spec fn with_trace(all: ObjectSeq, e: usize) -> (ObjectSeq, usize) {
    match all[e - 1].body {
        BodyView::Error(b) => if trace_of(all, b.trace) is Some {
            (all, b.trace.address()->0)
        } else {
            (all.push(trace_object(Seq::empty(), 4)), next_address(all))
        },
        _ => (all, e),
    }
}

/// The error at `e` with another trace.
pub open spec fn set_trace(all: ObjectSeq, e: usize, trace: Value) -> ObjectSeq {
    match all[e - 1].body {
        BodyView::Error(b) => with_body(all, e, BodyView::Error(ErrorBody { trace, ..b })),
        _ => all,
    }
}

/// The frame for a segment.
pub open spec fn frame_for(
    lang: LangId,
    name: Value,
    source: Value,
    span: Option<(usize, usize)>,
) -> TraceFrame {
    TraceFrame {
        lang,
        spanned: span is Some,
        name,
        source,
        start: match span {
            Some((s, _)) => s,
            None => 0,
        },
        end: match span {
            Some((_, e)) => e,
            None => 0,
        },
    }
}

/// The objects once the error at `e` has left a segment.
pub open spec fn framed(
    all: ObjectSeq,
    e: usize,
    lang: LangId,
    name: Seq<char>,
    source: Option<Seq<char>>,
    span: Option<(usize, usize)>,
) -> ObjectSeq {
    let named = with_text(all, name);
    let sourced = with_text(
        named.0,
        match source {
            Some(s) => s,
            None => Seq::empty(),
        },
    );
    let frame = frame_for(lang, named.1, sourced.1, span);
    let traced = with_trace(sourced.0, e);
    let pushed = with_frame(traced.0, traced.1, frame);
    set_trace(pushed.0, e, Value::Object(pushed.1))
}

impl Trace {
    /// An empty trace that holds `cap` frames, and at least one.
    pub fn with_capacity(objects: &mut Objects, cap: usize) -> (v: Value)
        requires
            old(objects).room(1),
        ensures
            final(objects)@ == old(objects)@.push(
                trace_object(
                    Seq::empty(),
                    if cap == 0 {
                        1
                    } else {
                        cap as nat
                    },
                ),
            ),
            v == Value::Object(next_address(old(objects)@)),
    {
        let room: usize = if cap == 0 {
            1
        } else {
            cap
        };
        let frames: Vec<TraceFrame> = Vec::new();
        Value::Object(
            objects.add_object(
                Object {
                    lang: LANG_CORE,
                    ty_name: "caribou.Trace".to_owned(),
                    body: Body::Trace(frames, room),
                },
            ),
        )
    }

    /// Append a frame; the address of the trace that now holds the frames.
    fn push(objects: &mut Objects, t: usize, frame: TraceFrame) -> (r: usize)
        requires
            old(objects).room(1),
            object_at(old(objects)@, t) matches Some(o) && o.body is Trace,
        ensures
            (final(objects)@, r) == with_frame(old(objects)@, t, frame),
    {
        let mut frames: Vec<TraceFrame> = Vec::new();
        let mut cap: usize = 0;
        match &objects.get(t).body {
            Body::Trace(f, c) => {
                frames = f.clone();
                assert(frames@ =~= f@);
                cap = *c;
            },
            _ => {},
        }
        let full: bool = frames.len() >= cap;
        frames.push(frame);
        if !full {
            objects.set_body(t, Body::Trace(frames, cap));
            t
        } else {
            let grown: usize = if cap <= usize::MAX / 2 {
                cap * 2
            } else {
                usize::MAX
            };
            objects.add_object(
                Object {
                    lang: LANG_CORE,
                    ty_name: "caribou.Trace".to_owned(),
                    body: Body::Trace(frames, grown),
                },
            )
        }
    }

    /// One line per frame, oldest first:
    /// `  at name (source:start..end) [language]`.
    pub fn render(objects: &Objects, langs: &Languages, v: Value) -> (s: String)
        ensures
            s@ == match trace_of(objects@, v) {
                Some((frames, _)) => rendered(objects@, langs@, frames),
                None => Seq::empty(),
            },
    {
        let mut out = String::new();
        match objects.trace(v) {
            Some(frames) => {
                let mut i: usize = 0;
                assert(frames@.take(0) =~= Seq::<TraceFrame>::empty());
                assert(out@ =~= Seq::<char>::empty());
                while i < frames.len()
                    invariant
                        i <= frames.len(),
                        out@ == rendered(objects@, langs@, frames@.take(i as int)),
                    decreases frames.len() - i,
                {
                    assert(frames@.take(i + 1).drop_last() =~= frames@.take(i as int));
                    let line = Trace::line(objects, langs, &frames[i]);
                    out.append(line.as_str());
                    i = i + 1;
                }
                assert(frames@.take(i as int) =~= frames@);
            },
            None => {
                assert(out@ =~= Seq::<char>::empty());
            },
        }
        out
    }

    fn line(objects: &Objects, langs: &Languages, frame: &TraceFrame) -> (s: String)
        ensures
            s@ == frame_line(objects@, langs@, *frame),
    {
        let mut out = "  at ".to_owned();
        let name: &str = match objects.text(frame.name) {
            Some(s) => s,
            None => "",
        };
        proof {
            reveal_strlit("");
        }
        if name.is_empty() {
            out.append("<callable>");
        } else {
            out.append(name);
        }
        let ghost head = out@;
        match objects.text(frame.source) {
            Some(source) => {
                out.append(" (");
                out.append(source);
                match frame.span() {
                    Some((start, end)) => {
                        out.append(":");
                        out.append(decimal_text(start as u64).as_str());
                        out.append("..");
                        out.append(decimal_text(end as u64).as_str());
                    },
                    None => {},
                }
                out.append(")");
            },
            None => {},
        }
        assert(out@ =~= head + frame_place(objects@, *frame));
        out.append(" [");
        out.append(langs.language_name(frame.lang).as_str());
        out.append("]\n");
        out
    }
}

/// The name a frame shows.
pub open spec fn frame_name(all: ObjectSeq, frame: TraceFrame) -> Seq<char> {
    match text_of(all, frame.name) {
        Some(s) => if s.len() == 0 {
            "<callable>"@
        } else {
            s
        },
        None => "<callable>"@,
    }
}

/// Where a frame was, when its source is known.
pub open spec fn frame_place(all: ObjectSeq, frame: TraceFrame) -> Seq<char> {
    match text_of(all, frame.source) {
        Some(source) => " ("@ + source + (match frame.place() {
            Some((start, end)) => ":"@ + decimal(start as nat) + ".."@ + decimal(end as nat),
            None => Seq::empty(),
        }) + ")"@,
        None => Seq::empty(),
    }
}

/// A frame as a line.
pub open spec fn frame_line(all: ObjectSeq, langs: Seq<Seq<char>>, frame: TraceFrame) -> Seq<char> {
    "  at "@ + frame_name(all, frame) + frame_place(all, frame) + " ["@ + name_of_language(
        langs,
        frame.lang,
    ) + "]\n"@
}

/// The lines of `frames`.
pub open spec fn rendered(
    all: ObjectSeq,
    langs: Seq<Seq<char>>,
    frames: Seq<TraceFrame>,
) -> Seq<char>
    decreases frames.len(),
{
    if frames.len() == 0 {
        Seq::empty()
    } else {
        rendered(all, langs, frames.drop_last()) + frame_line(all, langs, frames.last())
    }
}

/// `Kind: message`, or the kind alone.
pub open spec fn headline(all: ObjectSeq, e: ErrorBody) -> Seq<char> {
    match text_of(all, e.message) {
        Some(m) => if m.len() == 0 {
            kind_text(e.kind)
        } else {
            kind_text(e.kind) + ": "@ + m
        },
        None => kind_text(e.kind),
    }
}

/// The headline, then the trace one frame per line.
pub open spec fn described(all: ObjectSeq, langs: Seq<Seq<char>>, e: ErrorBody) -> Seq<char> {
    match trace_of(all, e.trace) {
        Some((frames, _)) => if frames.len() == 0 {
            headline(all, e)
        } else {
            headline(all, e) + "\n"@ + rendered(all, langs, frames).drop_last()
        },
        None => headline(all, e),
    }
}

/// A trace of any frames renders to lines: it ends with a line's end.
proof fn lemma_rendered_ends(all: ObjectSeq, langs: Seq<Seq<char>>, frames: Seq<TraceFrame>)
    requires
        frames.len() > 0,
    ensures
        rendered(all, langs, frames).len() > 0,
        rendered(all, langs, frames).last() == '\n',
{
    reveal_strlit("]\n");
    let line = frame_line(all, langs, frames.last());
    assert(line.len() >= 2);
    assert(line.last() == "]\n"@[1]);
}

impl Error {
    /// An error of this kind and message that started in `origin`.
    pub fn new(objects: &mut Objects, kind: ErrorKind, message: &str, origin: LangId) -> (v: Value)
        requires
            old(objects).room(2),
        ensures
            final(objects)@ == with_error(old(objects)@, kind, message@, origin),
            v == Value::Object(next_address(old(objects)@)),
    {
        let bare = ErrorBody {
            kind,
            origin,
            message: Value::Null,
            cause: Value::Null,
            native: Value::Null,
            trace: Value::Null,
        };
        let p: usize = objects.add_object(
            Object {
                lang: LANG_CORE,
                ty_name: "caribou.Error".to_owned(),
                body: Body::Error(bare),
            },
        );
        let text: Value = add_text(objects, message);
        objects.set_body(p, Body::Error(ErrorBody { message: text, ..bare }));
        Value::Object(p)
    }

    /// A `User` error carrying a language's own error object and nothing else.
    pub fn with_native(objects: &mut Objects, native: Value, origin: LangId) -> (v: Value)
        requires
            old(objects).room(2),
        ensures
            final(objects)@ == with_native_error(old(objects)@, native, origin),
            v == Value::Object(next_address(old(objects)@)),
    {
        let v: Value = Error::new(objects, ErrorKind::User, "", origin);
        proof {
            reveal_strlit("");
            assert(""@ =~= Seq::<char>::empty());
            let p = next_address(old(objects)@);
            let bare = bare_error(ErrorKind::User, origin);
            assert(objects@[p - 1].body == BodyView::Error(bare));
        }
        Error::set_native(objects, v, native);
        v
    }

    /// Give an error its cause.
    pub fn with_cause(objects: &mut Objects, v: Value, cause: Value)
        requires
            error_of(old(objects)@, v) is Some,
        ensures
            final(objects)@ == with_body(
                old(objects)@,
                v.address()->0,
                BodyView::Error(ErrorBody { cause, ..error_of(old(objects)@, v)->0 }),
            ),
    {
        if let Value::Object(p) = v {
            if let Some(e) = objects.error(v) {
                objects.set_body(p, Body::Error(ErrorBody { cause, ..e }));
            }
        }
    }

    /// Give an error the object its language knows it by.
    pub fn set_native(objects: &mut Objects, v: Value, native: Value)
        requires
            error_of(old(objects)@, v) is Some,
        ensures
            final(objects)@ == with_body(
                old(objects)@,
                v.address()->0,
                BodyView::Error(ErrorBody { native, ..error_of(old(objects)@, v)->0 }),
            ),
    {
        if let Value::Object(p) = v {
            if let Some(e) = objects.error(v) {
                objects.set_body(p, Body::Error(ErrorBody { native, ..e }));
            }
        }
    }

    /// Append the segment the error is leaving: the language, the callable's
    /// name, and if known the source it was in and a byte span into it.
    pub fn push_frame(
        objects: &mut Objects,
        v: Value,
        lang: LangId,
        name: &str,
        source: Option<&str>,
        span: Option<(usize, usize)>,
    )
        requires
            error_of(old(objects)@, v) is Some,
            old(objects).room(4),
        ensures
            final(objects)@ == framed(
                old(objects)@,
                v.address()->0,
                lang,
                name@,
                match source {
                    Some(s) => Some(s@),
                    None => None,
                },
                span,
            ),
            final(objects)@.len() <= old(objects)@.len() + 3,
    {
        let e: usize = match v.object_of() {
            Some(p) => p,
            None => 0,
        };
        let ghost all0 = objects@;
        let name_value: Value = add_text(objects, name);
        let ghost all1 = objects@;
        let source_value: Value = match source {
            Some(s) => add_text(objects, s),
            None => Value::Null,
        };
        let ghost all2 = objects@;
        let (start, end): (usize, usize) = match span {
            Some(p) => p,
            None => (0, 0),
        };
        let frame = TraceFrame {
            lang,
            spanned: span.is_some(),
            name: name_value,
            source: source_value,
            start,
            end,
        };
        assert(all2[e - 1] == all0[e - 1]);
        let body: ErrorBody = match &objects.get(e).body {
            Body::Error(b) => *b,
            _ => {
                return ;
            },
        };
        let t: usize = if objects.trace(body.trace).is_some() {
            match body.trace.object_of() {
                Some(p) => p,
                None => 0,
            }
        } else {
            match Trace::with_capacity(objects, FIRST_CAPACITY) {
                Value::Object(p) => p,
                _ => 0,
            }
        };
        let ghost all3 = objects@;
        assert((all3, t) == with_trace(all2, e));
        let holder: usize = Trace::push(objects, t, frame);
        let ghost all4 = objects@;
        assert(all4[e - 1].body == BodyView::Error(body));
        objects.set_body(e, Body::Error(ErrorBody { trace: Value::Object(holder), ..body }));
    }

    /// [`Self::push_frame`] for a segment whose source is unknown: what the
    /// bridge records at a boundary.
    pub fn push_segment(objects: &mut Objects, v: Value, lang: LangId, name: &str)
        requires
            error_of(old(objects)@, v) is Some,
            old(objects).room(4),
        ensures
            final(objects)@ == framed(old(objects)@, v.address()->0, lang, name@, None, None),
            final(objects)@.len() <= old(objects)@.len() + 3,
    {
        Error::push_frame(objects, v, lang, name, None, None);
    }

    /// The message text; empty when there is none.
    pub fn message_str<'a>(objects: &'a Objects, e: &ErrorBody) -> (s: &'a str)
        ensures
            s@ == match text_of(objects@, e.message) {
                Some(m) => m,
                None => ""@,
            },
    {
        match objects.text(e.message) {
            Some(m) => m,
            None => "",
        }
    }

    /// The headline and the frames of the error.
    pub fn describe(objects: &Objects, langs: &Languages, e: &ErrorBody) -> (s: String)
        ensures
            s@ == described(objects@, langs@, *e),
    {
        let mut out = Error::headline(objects, e);
        let lines = Trace::render(objects, langs, e.trace);
        proof {
            match trace_of(objects@, e.trace) {
                Some((frames, _)) => {
                    if frames.len() > 0 {
                        lemma_rendered_ends(objects@, langs@, frames);
                    }
                },
                None => {},
            }
        }
        if lines.as_str().is_empty() {
            return out;
        }
        out.append("\n");
        let n: usize = lines.as_str().unicode_len();
        out.append(lines.as_str().substring_char(0, n - 1));
        proof {
            assert(lines@.subrange(0, n - 1) =~= lines@.drop_last());
        }
        out
    }

    fn headline(objects: &Objects, e: &ErrorBody) -> (s: String)
        ensures
            s@ == headline(objects@, *e),
    {
        let kind: &str = kind_name(e.kind);
        match objects.text(e.message) {
            Some(m) => {
                if m.is_empty() {
                    kind.to_owned()
                } else {
                    let head = cat(kind, ": ");
                    cat(head.as_str(), m)
                }
            },
            None => kind.to_owned(),
        }
    }

    /// The member `name` of an error.
    pub fn get_member(e: &ErrorBody, table: &SymbolTable, name: Symbol) -> (r: Reply)
        requires
            is_table(table@),
        ensures
            r == member_of(*e, name_of(table@, name)),
    {
        let text: &str = table.name(name);
        if same_text(text, "kind") {
            Ok(Value::Int(e.kind.to_int()))
        } else if same_text(text, "message") {
            Ok(e.message)
        } else if same_text(text, "cause") {
            Ok(e.cause)
        } else if same_text(text, "native") {
            Ok(e.native)
        } else if same_text(text, "origin") {
            Ok(Value::Int(e.origin as i32))
        } else if same_text(text, "trace") {
            Ok(e.trace)
        } else {
            Err(Fault::Missing)
        }
    }
}

/// The member of an error by its name.
pub open spec fn member_of(e: ErrorBody, name: Seq<char>) -> Reply {
    if name == "kind"@ {
        Ok(Value::Int(e.kind.code()))
    } else if name == "message"@ {
        Ok(e.message)
    } else if name == "cause"@ {
        Ok(e.cause)
    } else if name == "native"@ {
        Ok(e.native)
    } else if name == "origin"@ {
        Ok(Value::Int(e.origin as i32))
    } else if name == "trace"@ {
        Ok(e.trace)
    } else {
        Err(Fault::Missing)
    }
}

/// A frame with its texts.
#[verifier::ext_equal]
pub struct FrameInfo {
    pub lang: LangId,
    pub name: Option<Seq<char>>,
    pub source: Option<Seq<char>>,
    pub span: Option<(usize, usize)>,
}

pub open spec fn frame_info(all: ObjectSeq, f: TraceFrame) -> FrameInfo {
    FrameInfo {
        lang: f.lang,
        name: text_of(all, f.name),
        source: text_of(all, f.source),
        span: f.place(),
    }
}

/// The frames of the error `v` so far, oldest first.
pub open spec fn error_frames(all: ObjectSeq, v: Value) -> Seq<FrameInfo> {
    match error_of(all, v) {
        Some(e) => match trace_of(all, e.trace) {
            Some((frames, _)) => frames.map_values(|f: TraceFrame| frame_info(all, f)),
            None => Seq::empty(),
        },
        None => Seq::empty(),
    }
}

/// A text or nothing.
pub open spec fn is_text(all: ObjectSeq, v: Value) -> bool {
    v is Null || text_of(all, v) is Some
}

/// Every frame of the error `v` names texts.
pub open spec fn frames_named(all: ObjectSeq, v: Value) -> bool {
    error_of(all, v) matches Some(e) ==> (trace_of(all, e.trace) matches Some((frames, _)) ==> (
    forall|i: int|
        0 <= i < frames.len() ==> is_text(all, (#[trigger] frames[i]).name) && is_text(
            all,
            frames[i].source,
        )))
}

/// `after` keeps every text of `before`.
pub open spec fn keeps_texts(before: ObjectSeq, after: ObjectSeq) -> bool {
    forall|v: Value|
        text_of(before, v) is Some ==> #[trigger] text_of(after, v) == text_of(before, v)
}

proof fn lemma_push_keeps(all: ObjectSeq, o: ObjectView)
    requires
        all.len() < usize::MAX,
    ensures
        keeps_texts(all, all.push(o)),
{
}

proof fn lemma_body_keeps(all: ObjectSeq, p: usize, body: BodyView)
    requires
        object_at(all, p) matches Some(o) && !(o.body is Str),
    ensures
        keeps_texts(all, with_body(all, p, body)),
{
}

/// A boundary adds one frame to the error that crosses it, at the end: the
/// language, the name and the place it left.
#[verifier::rlimit(60)]
#[verifier::spinoff_prover]
pub proof fn law_frame_added(
    all: ObjectSeq,
    v: Value,
    lang: LangId,
    name: Seq<char>,
    source: Option<Seq<char>>,
    span: Option<(usize, usize)>,
)
    requires
        error_of(all, v) is Some,
        frames_named(all, v),
        all.len() + 4 < usize::MAX,
    ensures
        ({
            let after = framed(all, v.address()->0, lang, name, source, span);
            &&& error_of(after, v) is Some
            &&& error_frames(after, v) == error_frames(all, v).push(
                FrameInfo {
                    lang,
                    name: if name.len() == 0 {
                        None
                    } else {
                        Some(name)
                    },
                    source: match source {
                        Some(s) => if s.len() == 0 {
                            None
                        } else {
                            Some(s)
                        },
                        None => None,
                    },
                    span,
                },
            )
            &&& frames_named(after, v)
            &&& keeps_texts(all, after)
        }),
{
    let e = v.address()->0;
    let body = error_of(all, v)->0;
    let named = with_text(all, name);
    let wanted = match source {
        Some(s) => s,
        None => Seq::empty(),
    };
    let sourced = with_text(named.0, wanted);
    let frame = frame_for(lang, named.1, sourced.1, span);
    let traced = with_trace(sourced.0, e);
    let t = traced.1;
    let pushed = with_frame(traced.0, t, frame);
    let after = set_trace(pushed.0, e, Value::Object(pushed.1));
    if name.len() > 0 {
        lemma_push_keeps(all, str_object(name));
    }
    if wanted.len() > 0 {
        lemma_push_keeps(named.0, str_object(wanted));
    }
    assert(sourced.0[e - 1] == all[e - 1]);
    assert(trace_of(all, body.trace) is Some ==> trace_of(sourced.0, body.trace) == trace_of(
        all,
        body.trace,
    ));
    let old_frames = match trace_of(sourced.0, body.trace) {
        Some((f, _)) => f,
        None => Seq::empty(),
    };
    if trace_of(sourced.0, body.trace) is None {
        lemma_push_keeps(sourced.0, trace_object(Seq::empty(), 4));
    }
    assert(traced.0[t - 1].body matches BodyView::Trace(f, _) && f == old_frames);
    assert(traced.0[e - 1] == all[e - 1]);
    assert(t != e);
    match traced.0[t - 1].body {
        BodyView::Trace(frames, cap) => {
            if frames.len() < cap {
                lemma_body_keeps(traced.0, t, BodyView::Trace(frames.push(frame), cap));
            } else {
                lemma_push_keeps(traced.0, trace_object(frames.push(frame), doubled(cap)));
            }
        },
        _ => {},
    }
    let h = pushed.1;
    assert(pushed.0[h - 1].body matches BodyView::Trace(f, _) && f == old_frames.push(frame));
    assert(pushed.0[e - 1].body == BodyView::Error(body));
    lemma_body_keeps(
        pushed.0,
        e,
        BodyView::Error(ErrorBody { trace: Value::Object(h), ..body }),
    );
    assert(keeps_texts(all, after)) by {
        assert forall|w: Value| text_of(all, w) is Some implies #[trigger] text_of(after, w)
            == text_of(all, w) by {
            assert(text_of(named.0, w) == text_of(all, w));
            assert(text_of(sourced.0, w) == text_of(all, w));
            assert(text_of(traced.0, w) == text_of(all, w));
            assert(text_of(pushed.0, w) == text_of(all, w));
        }
    }
    assert(h != e);
    assert(trace_of(after, Value::Object(h)) matches Some((f, _)) && f == old_frames.push(frame));
    assert(name.len() > 0 ==> text_of(named.0, named.1) == Some(name));
    assert(name.len() > 0 ==> text_of(after, named.1) == Some(name)) by {
        if name.len() > 0 {
            assert(text_of(sourced.0, named.1) == Some(name));
            assert(text_of(traced.0, named.1) == Some(name));
            assert(text_of(pushed.0, named.1) == Some(name));
        }
    }
    assert(wanted.len() > 0 ==> text_of(after, sourced.1) == Some(wanted)) by {
        if wanted.len() > 0 {
            assert(text_of(sourced.0, sourced.1) == Some(wanted));
            assert(text_of(traced.0, sourced.1) == Some(wanted));
            assert(text_of(pushed.0, sourced.1) == Some(wanted));
        }
    }
    let now = error_frames(after, v);
    let was = error_frames(all, v);
    assert(was.len() == old_frames.len());
    assert forall|i: int| 0 <= i < old_frames.len() implies now[i] == was[i] by {
        let f = old_frames[i];
        assert(is_text(all, f.name) && is_text(all, f.source));
        if f.name is Null {
        } else {
            assert(text_of(after, f.name) == text_of(all, f.name));
        }
        if f.source is Null {
        } else {
            assert(text_of(after, f.source) == text_of(all, f.source));
        }
    }
    assert(now[old_frames.len() as int] == frame_info(after, frame));
    assert(now =~= was.push(frame_info(after, frame)));
    assert(frames_named(after, v)) by {
        let grown = old_frames.push(frame);
        assert forall|i: int| 0 <= i < grown.len() implies is_text(after, (#[trigger] grown[i]).name)
            && is_text(after, grown[i].source) by {
            if i < old_frames.len() {
                let f = old_frames[i];
                assert(is_text(all, f.name) && is_text(all, f.source));
                if !(f.name is Null) {
                    assert(text_of(after, f.name) == text_of(all, f.name));
                }
                if !(f.source is Null) {
                    assert(text_of(after, f.source) == text_of(all, f.source));
                }
            }
        }
    }
}

} // verus!
