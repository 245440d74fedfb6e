//! What holds of values, and of the objects that they name.

use vstd::arithmetic::power2::pow2;
use vstd::prelude::*;
use vstd::string::*;

use crate::cell::{
    cell_of, cells_ok, entry_of, found, fronted, mapped_now, viewed, wrap_plan_of, CellEntry, Shadow,
    WrapPlan,
};
use crate::data::{
    buffer_at, byte_at, bytes_of, index_value, integer_value, is_buffer, step_of, store_of, stored,
};
use crate::error::{
    described, doubled, error_frames, fnv, frame_for, frame_info, frame_line, headline, kind_text,
    member_of, rendered, with_error, with_frame, with_native_error,
};
use crate::function::{function_at, Function};
use crate::hash::{folded, folded_bytes, rotated};
use crate::number::{exponent, integer, magnitude, place, FRACTION, SIGN};
use crate::object::{
    error_object, error_of, next_address, object_at, referent, str_object, text_of,
    trace_object, trace_of, with_body, BodyView, CellBody, CellView, ErrorBody, ObjectSeq,
    ObjectView, TraceFrame,
};
use crate::protocol::{Callable, Fault, Reply};
use crate::text::decimal;
use crate::value::{ErrorKind, LangId, Value};
use crate::world::{id_of_language, is_languages, name_of_language};

verus! {

// Values.

/// Only an object that is not null has an address.
pub proof fn law_objects_have_addresses(v: Value, p: usize)
    ensures
        v.address() == Some(p) <==> v == Value::Object(p) && p != 0,
{
}

/// The kinds of error are numbered from nought in the order of their list.
pub proof fn law_kinds_are_numbered()
    ensures
        0 <= ErrorKind::Runtime.code() < ErrorKind::Type.code() < ErrorKind::NullAccess.code(),
        ErrorKind::NullAccess.code() < ErrorKind::Index.code() < ErrorKind::Arithmetic.code(),
        ErrorKind::Arithmetic.code() < ErrorKind::User.code() < ErrorKind::Cancelled.code(),
        ErrorKind::Cancelled.code() < ErrorKind::StackOverflow.code(),
        ErrorKind::StackOverflow.code() < ErrorKind::OutOfMemory.code(),
        ErrorKind::OutOfMemory.code() < ErrorKind::Internal.code() <= 9,
{
}

/// A kind of error is told by its own name: initial and length tell them apart.
pub proof fn law_kinds_are_named(kind: ErrorKind)
    ensures
        kind_text(kind).len() == match kind {
            ErrorKind::Type | ErrorKind::User => 4nat,
            ErrorKind::Index => 5,
            ErrorKind::Runtime => 7,
            ErrorKind::Internal => 8,
            ErrorKind::Cancelled => 9,
            ErrorKind::NullAccess | ErrorKind::Arithmetic => 10,
            ErrorKind::OutOfMemory => 11,
            ErrorKind::StackOverflow => 13,
        },
        kind_text(kind)[0] == 'T' <==> kind is Type,
        kind_text(kind)[0] == 'U' <==> kind is User,
        kind_text(kind)[0] == 'N' <==> kind is NullAccess,
        kind_text(kind)[0] == 'A' <==> kind is Arithmetic,
{
    reveal_strlit("Runtime");
    reveal_strlit("Type");
    reveal_strlit("NullAccess");
    reveal_strlit("Index");
    reveal_strlit("Arithmetic");
    reveal_strlit("User");
    reveal_strlit("Cancelled");
    reveal_strlit("StackOverflow");
    reveal_strlit("OutOfMemory");
    reveal_strlit("Internal");
}

// Numbers.

/// The sign bit negates.
pub proof fn law_the_sign_negates(bits: u64)
    requires
        bits < SIGN,
    ensures
        match integer(bits) {
            Some(n) => n >= 0 && integer((bits + SIGN) as u64) == Some(-n),
            None => integer((bits + SIGN) as u64) is None,
        },
{
    let other = (bits + SIGN) as u64;
    let q = bits as int / FRACTION as int;
    assert(SIGN == 2048 * FRACTION);
    assert(other as int / FRACTION as int == q + 2048);
    assert(exponent(other) == exponent(bits));
    assert(other as int % FRACTION as int == bits as int % FRACTION as int);
    assert(magnitude(other) == magnitude(bits));
    if magnitude(bits) is Some {
        lemma_not_negative(bits);
    }
}

proof fn lemma_not_negative(bits: u64)
    requires
        magnitude(bits) is Some,
    ensures
        magnitude(bits)->0 >= 0,
{
    let s = crate::number::significand(bits);
    let e = crate::number::scale(bits);
    assert(s >= 0);
    if e >= 0 {
        assert(s * pow2(e as nat) >= 0) by (nonlinear_arith)
            requires
                s >= 0,
        ;
    } else {
        vstd::arithmetic::power2::lemma_pow2_pos((-e) as nat);
        vstd::arithmetic::div_mod::lemma_div_pos_is_pos(s, pow2((-e) as nat) as int);
    }
}

/// One more in the exponent doubles.
pub proof fn law_the_exponent_doubles(bits: u64)
    requires
        1075 <= exponent(bits) < 2046,
    ensures
        bits + FRACTION <= u64::MAX,
        magnitude(bits) is Some,
        magnitude((bits + FRACTION) as u64) == Some(2 * magnitude(bits)->0),
{
    let q = bits as int / FRACTION as int;
    assert(bits as int / FRACTION as int <= 4095);
    assert(q % 2048 < 2046);
    assert(q + 1 <= 4095);
    assert(bits + FRACTION < 4096 * FRACTION);
    let other = (bits + FRACTION) as u64;
    assert(other as int / FRACTION as int == q + 1);
    assert(exponent(other) == exponent(bits) + 1);
    assert(other as int % FRACTION as int == bits as int % FRACTION as int);
    let s = crate::number::significand(bits);
    let e = crate::number::scale(bits);
    vstd::arithmetic::power2::lemma_pow2_unfold((e + 1) as nat);
    let a = pow2(e as nat) as int;
    let b = pow2((e + 1) as nat) as int;
    assert(b == 2 * a);
    assert(s * b == 2 * (s * a)) by (nonlinear_arith)
        requires
            b == 2 * a,
    ;
}

/// A whole number from two to the 52nd up to its double is written with its own
/// excess as the fraction.
pub proof fn law_the_fraction_counts(bits: u64)
    requires
        exponent(bits) == 1075,
        bits < SIGN,
    ensures
        integer(bits) == Some(FRACTION + bits as int % FRACTION as int),
        integer(0) == Some(0int),
{
    vstd::arithmetic::power2::lemma2_to64();
    let s = crate::number::significand(bits);
    assert(crate::number::scale(bits) == 0);
    assert(pow2(0) == 1);
    assert(s * pow2(0) == s);
    assert(magnitude(bits) == Some(s));
    assert(integer(0) == Some(0int)) by {
        vstd::arithmetic::power2::lemma_pow2_pos(1074);
        vstd::arithmetic::div_mod::lemma_small_mod(0, pow2(1074));
        vstd::arithmetic::div_mod::lemma_div_of0(pow2(1074) as int);
    }
}

/// A number names a place if it is whole and not negative, and one too large names
/// the last.
pub proof fn law_a_number_names_a_place(bits: u64, n: int)
    requires
        integer(bits) == Some(n),
    ensures
        n < 0 ==> place(bits) is None,
        0 <= n <= usize::MAX ==> place(bits) == Some(n as usize),
        n > usize::MAX ==> place(bits) == Some(usize::MAX),
{
}

/// An index is a whole number that is not negative, however it is written; an
/// integer is any whole number that fits.
pub proof fn law_integers_in_both_forms(n: i32, bits: u64)
    requires
        integer(bits) == Some(n as int),
    ensures
        integer_value(Value::Int(n)) == Some(n as i64),
        integer_value(Value::Number(bits)) == Some(n as i64),
        index_value(Value::Number(bits)) == index_value(Value::Int(n)),
        index_value(Value::Int(n)) == if n < 0 {
            None
        } else {
            Some(n as usize)
        },
        index_value(Value::Null) is None,
        integer_value(Value::Null) is None,
{
}

// Hashes.

/// Folding in what is there already clears it, into nothing it is a multiple, and the
/// low bits of the state come out on top.
pub proof fn law_the_state_is_folded(state: u64, n: u64)
    ensures
        folded(state, state) == 0,
        folded(0, n) == n * 0x9E37_79B9_7F4A_7C15int % 0x1_0000_0000_0000_0000int,
        rotated(n) == (n % 0x400_0000) * 0x40_0000_0000 + n / 0x400_0000,
{
    assert(state ^ state == 0) by (bit_vector);
    assert(0u64 ^ n == n) by (bit_vector);
    assert((n >> 26) | (n << 38) == (n % 0x400_0000) * 0x40_0000_0000 + n / 0x400_0000)
        by (bit_vector);
}

/// Bytes are folded in one by one, in their order.
pub proof fn law_bytes_fold_in_order(state: u64, a: Seq<u8>, b: Seq<u8>)
    ensures
        folded_bytes(state, a + b) == folded_bytes(folded_bytes(state, a), b),
        a.len() == 1 ==> folded_bytes(state, a) == folded(state, a[0] as u64),
    decreases b.len(),
{
    reveal_with_fuel(folded_bytes, 2);
    if b.len() == 0 {
        assert(a + b =~= a);
    } else {
        law_bytes_fold_in_order(state, a, b.drop_last());
        assert((a + b).drop_last() =~= a + b.drop_last());
    }
}

/// The last byte can be taken out of a text's hash again, and what is left is the
/// hash of the bytes before it.
pub proof fn law_a_text_hash_can_be_undone(bytes: Seq<u8>, last: u8)
    ensures
        fnv(bytes.push(last)) * 0xce96_5057_aff6_957bint % 0x1_0000_0000_0000_0000int == fnv(bytes)
            ^ (last as u64),
        fnv(Seq::empty()) == 0xcbf2_9ce4_8422_2325,
{
    assert(bytes.push(last).drop_last() =~= bytes);
    let x = fnv(bytes) ^ (last as u64);
    let m = 0x1_0000_0000_0000_0000int;
    let p = 0x0000_0100_0000_01b3int;
    let i = 0xce96_5057_aff6_957bint;
    vstd::arithmetic::div_mod::lemma_mul_mod_noop_left(x * p, i, m);
    assert(x * p * i == x + m * (x * ((p * i - 1) / m))) by (nonlinear_arith)
        requires
            m == 0x1_0000_0000_0000_0000int,
            p == 0x0000_0100_0000_01b3int,
            i == 0xce96_5057_aff6_957bint,
    ;
    vstd::arithmetic::div_mod::lemma_mod_multiples_vanish(x * ((p * i - 1) / m), x as int, m);
    vstd::arithmetic::div_mod::lemma_small_mod(x as nat, m as nat);
}

// Objects.

/// An object that is added is found at its address, and the others where they were.
pub proof fn law_an_object_is_where_it_was_put(all: ObjectSeq, o: ObjectView, p: usize)
    requires
        all.len() + 1 < usize::MAX,
    ensures
        next_address(all) != 0,
        object_at(all, next_address(all)) is None,
        object_at(all.push(o), next_address(all)) == Some(o),
        referent(all.push(o), Value::Object(next_address(all))) == Some(o),
        object_at(all, p) is Some ==> object_at(all.push(o), p) == object_at(all, p),
        object_at(all, 0) is None,
        !(forall|q: usize| object_at(all, q) is None) ==> all.len() > 0,
{
}

/// A body that is set is found at its address; the object keeps its language and its
/// type, and the others stay as they are.
pub proof fn law_a_body_is_set_in_place(all: ObjectSeq, p: usize, body: BodyView, q: usize)
    requires
        object_at(all, p) is Some,
    ensures
        object_at(with_body(all, p, body), p) matches Some(o) && o.body == body && o.lang
            == all[p - 1].lang && o.ty_name == all[p - 1].ty_name,
        q != p ==> object_at(with_body(all, p, body), q) == object_at(all, q),
        with_body(all, p, body).len() == all.len(),
{
}

/// Texts, errors and traces are read from what they were made of, and from nothing
/// else.
pub proof fn law_bodies_are_read_by_kind(all: ObjectSeq, o: ObjectView, s: Seq<char>)
    requires
        all.len() + 1 < usize::MAX,
    ensures
        ({
            let v = Value::Object(next_address(all));
            let after = all.push(o);
            &&& text_of(after, v) == Some(s) <==> o.body == BodyView::Str(s)
            &&& text_of(after, v) is Some <==> o.body is Str
            &&& error_of(after, v) is Some <==> o.body is Error
            &&& o.body matches BodyView::Error(e) ==> error_of(after, v) == Some(e)
            &&& trace_of(after, v) is Some <==> o.body is Trace
            &&& o.body matches BodyView::Trace(f, c) ==> trace_of(after, v) == Some((f, c))
            &&& function_at(after, next_address(all)) is Some <==> o.body is Function
            &&& o.body matches BodyView::Function { callable, name, arity } ==> function_at(
                after,
                next_address(all),
            ) == Some(Function { callable, name, arity })
            &&& cell_of(after, v) is Some <==> o.body is Cell
            &&& o.body matches BodyView::Cell(c) ==> cell_of(after, v) == Some(c)
        }),
        text_of(all, Value::Null) is None,
        error_of(all, Value::Null) is None,
{
}

/// The library's own objects are of its own language, and say what they are.
pub proof fn law_own_objects_say_what_they_are(
    s: Seq<char>,
    e: ErrorBody,
    frames: Seq<TraceFrame>,
    cap: nat,
)
    ensures
        str_object(s).lang == 0 && error_object(e).lang == 0 && trace_object(frames, cap).lang == 0,
        str_object(s).body == BodyView::Str(s),
        error_object(e).body == BodyView::Error(e),
        trace_object(frames, cap).body == BodyView::Trace(frames, cap),
        str_object(s).ty_name == "caribou.Str"@,
        error_object(e).ty_name == "caribou.Error"@,
        trace_object(frames, cap).ty_name == "caribou.Trace"@,
{
}

/// A function holds the value that it calls, or the class whose method it is.
pub proof fn law_a_function_holds_what_it_calls(f: Function, v: Value)
    ensures
        f.callable == Callable::Dynamic(v) ==> f.held_value() == Some(v),
        f.callable matches Callable::WrenMethod { class, .. } ==> f.held_value() == Some(class),
        !(f.callable is Dynamic) && !(f.callable is WrenMethod) ==> f.held_value() is None,
{
}

/// A language is known by its name and its name by its id, and one that is added is
/// the last.
pub proof fn law_a_language_is_known(names: Seq<Seq<char>>, name: Seq<char>, id: LangId)
    requires
        is_languages(names),
        names.len() < u32::MAX,
        !names.contains(name),
    ensures
        id_of_language(names, name) is None,
        id_of_language(names.push(name), name) == Some(names.len() as u32),
        name_of_language(names.push(name), names.len() as u32) == name,
        id < names.len() ==> name_of_language(names.push(name), id) == names[id as int],
        id >= names.len() ==> name_of_language(names, id) == "lang "@ + decimal(id as nat),
        id_of_language(names, "core"@) == Some(0u32),
{
    let more = names.push(name);
    assert(more[names.len() as int] == name);
    assert forall|i: int, j: int| 0 <= i < more.len() && 0 <= j < more.len() && i != j implies more[i]
        != more[j] by {
        if i < names.len() && j < names.len() {
            assert(names[i] != names[j]);
        } else if i < names.len() {
            assert(names.contains(names[i]));
        } else {
            assert(names.contains(names[j]));
        }
    }
    assert(more.contains(name));
    assert(more[more.index_of(name)] == name);
    assert(names.contains(names[0]));
    assert(names[names.index_of("core"@)] == names[0]);
}

// Errors.

/// An error tells what it was made with: its kind, where it comes from, and its
/// message, none where it is empty. It has no cause, no value of a language's own and
/// no frames yet.
pub proof fn law_an_error_tells_what_it_was_made_with(
    all: ObjectSeq,
    kind: ErrorKind,
    message: Seq<char>,
    origin: LangId,
)
    requires
        all.len() + 2 < usize::MAX,
    ensures
        ({
            let after = with_error(all, kind, message, origin);
            let v = Value::Object(next_address(all));
            &&& error_of(after, v) matches Some(e) && {
                &&& e.kind == kind
                &&& e.origin == origin
                &&& e.cause is Null
                &&& e.native is Null
                &&& e.trace is Null
                &&& message.len() == 0 ==> e.message is Null
                &&& message.len() > 0 ==> text_of(after, e.message) == Some(message)
            }
            &&& error_frames(after, v).len() == 0
        }),
{
    let after = with_error(all, kind, message, origin);
    let p = next_address(all);
    if message.len() > 0 {
        assert(after[p as int] == str_object(message));
    }
}

/// An error of a language's own is a user error that holds the value, without a
/// message.
pub proof fn law_a_foreign_error_holds_its_value(all: ObjectSeq, native: Value, origin: LangId)
    requires
        all.len() + 2 < usize::MAX,
    ensures
        error_of(with_native_error(all, native, origin), Value::Object(next_address(all))) matches Some(
            e,
        ) && e.kind is User && e.origin == origin && e.native == native && e.message is Null
            && e.cause is Null && e.trace is Null,
{
}

/// A trace never holds more frames than it has room for: one that is full grows to
/// twice its room, with the frames it had and the new one last.
pub proof fn law_a_trace_grows(
    all: ObjectSeq,
    t: usize,
    frame: TraceFrame,
    frames: Seq<TraceFrame>,
    cap: nat,
)
    requires
        object_at(all, t) matches Some(o) && o.body == BodyView::Trace(frames, cap),
        frames.len() <= cap,
        0 < cap,
        all.len() + 1 < usize::MAX,
        cap < usize::MAX,
    ensures
        ({
            let (after, now) = with_frame(all, t, frame);
            object_at(after, now) matches Some(o) && o.body matches BodyView::Trace(f, c) && {
                &&& f == frames.push(frame)
                &&& f.len() <= c
                &&& frames.len() < cap ==> now == t && c == cap
                &&& frames.len() == cap ==> now != t && object_at(after, t) == object_at(all, t)
                &&& frames.len() == cap && 2 * cap <= usize::MAX ==> c == 2 * cap
            }
        }),
        doubled(cap) <= usize::MAX,
{
}

/// A frame is told by its language, its texts and its place.
pub proof fn law_a_frame_is_told(
    all: ObjectSeq,
    lang: LangId,
    name: Value,
    source: Value,
    span: Option<(usize, usize)>,
)
    ensures
        ({
            let info = frame_info(all, frame_for(lang, name, source, span));
            &&& info.lang == lang
            &&& info.name == text_of(all, name)
            &&& info.source == text_of(all, source)
            &&& info.span == span
        }),
{
}

/// A frame is one line: its name, its source and its place if it has them, and its
/// language.
pub proof fn law_a_frame_is_one_line(
    all: ObjectSeq,
    langs: Seq<Seq<char>>,
    lang: LangId,
    name: Value,
    source: Value,
    start: usize,
    end: usize,
)
    ensures
        ({
            let at = frame_for(lang, name, source, Some((start, end)));
            let bare = frame_for(lang, name, source, None);
            let told = " ["@ + name_of_language(langs, lang) + "]\n"@;
            &&& text_of(all, name) matches Some(n) ==> n.len() > 0 ==> match text_of(all, source) {
                None => frame_line(all, langs, at) =~= "  at "@ + n + told && frame_line(
                    all,
                    langs,
                    bare,
                ) =~= "  at "@ + n + told,
                Some(s) => frame_line(all, langs, bare) =~= "  at "@ + n + " ("@ + s + ")"@ + told
                    && frame_line(all, langs, at) =~= "  at "@ + n + " ("@ + s + ":"@ + decimal(
                    start as nat,
                ) + ".."@ + decimal(end as nat) + ")"@ + told,
            }
            &&& (text_of(all, name) is None || text_of(all, name)->0.len() == 0) && text_of(
                all,
                source,
            ) is None ==> frame_line(all, langs, bare) =~= "  at <callable>"@ + told
        }),
{
    reveal_strlit("  at ");
    reveal_strlit("<callable>");
    reveal_strlit("  at <callable>");
}

/// A trace is told frame by frame, in order.
pub proof fn law_a_trace_is_told_in_order(
    all: ObjectSeq,
    langs: Seq<Seq<char>>,
    a: Seq<TraceFrame>,
    b: Seq<TraceFrame>,
)
    ensures
        rendered(all, langs, a + b) == rendered(all, langs, a) + rendered(all, langs, b),
        a.len() == 1 ==> rendered(all, langs, a) == frame_line(all, langs, a[0]),
    decreases b.len(),
{
    reveal_with_fuel(rendered, 2);
    if b.len() == 0 {
        assert(a + b =~= a);
    } else {
        law_a_trace_is_told_in_order(all, langs, a, b.drop_last());
        assert((a + b).drop_last() =~= a + b.drop_last());
    }
    if a.len() == 1 {
        assert(a.drop_last() =~= Seq::<TraceFrame>::empty());
        assert(Seq::<char>::empty() + frame_line(all, langs, a[0]) =~= frame_line(
            all,
            langs,
            a[0],
        ));
    }
}

/// An error is told by its kind and message, and its frames on lines of their own.
pub proof fn law_an_error_is_described(
    all: ObjectSeq,
    langs: Seq<Seq<char>>,
    e: ErrorBody,
    m: Seq<char>,
)
    ensures
        text_of(all, e.message) == Some(m) && m.len() > 0 ==> headline(all, e) == kind_text(e.kind)
            + ": "@ + m,
        e.message is Null ==> headline(all, e) == kind_text(e.kind),
        trace_of(all, e.trace) is None ==> described(all, langs, e) == headline(all, e),
        trace_of(all, e.trace) matches Some((frames, _)) ==> frames.len() > 0 ==> described(
            all,
            langs,
            e,
        ) + "\n"@ =~= headline(all, e) + "\n"@ + rendered(all, langs, frames),
{
    let (frames, _) = trace_of(all, e.trace)->0;
    if trace_of(all, e.trace) is Some && frames.len() > 0 {
        let r = rendered(all, langs, frames);
        reveal_strlit("\n");
        reveal_strlit("]\n");
        let line = frame_line(all, langs, frames.last());
        assert(line.last() == '\n');
        assert(r.last() == '\n');
        assert(r.drop_last() + "\n"@ =~= r);
    }
}

/// An error's members are its parts, by their names.
pub proof fn law_an_error_has_its_members(e: ErrorBody, name: Seq<char>)
    ensures
        member_of(e, "kind"@) == Reply::Ok(Value::Int(e.kind.code())),
        member_of(e, "message"@) == Reply::Ok(e.message),
        member_of(e, "cause"@) == Reply::Ok(e.cause),
        member_of(e, "native"@) == Reply::Ok(e.native),
        member_of(e, "origin"@) == Reply::Ok(Value::Int(e.origin as i32)),
        member_of(e, "trace"@) == Reply::Ok(e.trace),
        name != "kind"@ && name != "message"@ && name != "cause"@ && name != "native"@ && name
            != "origin"@ && name != "trace"@ ==> member_of(e, name) == Reply::Err(Fault::Missing),
{
    reveal_strlit("kind");
    reveal_strlit("message");
    reveal_strlit("cause");
    reveal_strlit("native");
    reveal_strlit("origin");
    reveal_strlit("trace");
    assert("kind"@[0] == 'k' && "message"@[0] == 'm' && "cause"@[0] == 'c');
    assert("native"@[0] == 'n' && "origin"@[0] == 'o' && "trace"@[0] == 't');
}

// Cells.

/// An object's entry is found by the object.
pub proof fn law_a_cell_is_found(all: ObjectSeq, entries: Seq<CellEntry>, p: usize, c: usize)
    requires
        cells_ok(all, entries),
    ensures
        entry_of(entries, p) == Some(c) <==> entries.contains(CellEntry { object: p, cell: c }),
    decreases entries.len(),
{
    if entries.len() > 0 {
        let front = entries.drop_last();
        let last = entries[entries.len() - 1];
        let x = CellEntry { object: p, cell: c };
        assert(cells_ok(all, front)) by {
            assert forall|i: int, j: int|
                #![trigger front[i], front[j]]
                0 <= i < j < front.len() implies front[i].object != front[j].object by {
                assert(front[i] == entries[i] && front[j] == entries[j]);
            }
            assert forall|i: int| 0 <= i < front.len() implies crate::cell::is_mapped(
                all,
                #[trigger] front[i],
            ) by {
                assert(front[i] == entries[i]);
            }
        }
        law_a_cell_is_found(all, front, p, c);
        if entries.contains(x) {
            let i = choose|i: int| 0 <= i < entries.len() && entries[i] == x;
            if i < front.len() {
                assert(front[i] == x);
                assert(entries[i].object != last.object);
            }
        }
        if entry_of(entries, p) == Some(c) {
            if last.object == p {
                assert(entries[entries.len() - 1] == x);
            } else {
                let i = choose|i: int| 0 <= i < front.len() && front[i] == x;
                assert(entries[i] == x);
            }
        }
    }
}

/// What an object keeps as its shadow is its cell; one that could keep one and has
/// none is given one to keep; one that cannot is looked up, and is entered where it is
/// not there. What has no address needs no cell.
pub proof fn law_an_object_keeps_its_cell(entries: Seq<CellEntry>, p: usize, c: usize)
    requires
        p != 0,
    ensures
        wrap_plan_of(entries, Value::Object(p), Shadow::Kept(c)) == WrapPlan::Have(
            Value::Object(c),
        ),
        found(entries, Value::Object(p), Shadow::Kept(c)) == Some(Value::Object(c)),
        wrap_plan_of(entries, Value::Object(p), Shadow::Absent) is MakeKept,
        found(entries, Value::Object(p), Shadow::Absent) is None,
        entry_of(entries, p) == Some(c) ==> wrap_plan_of(
            entries,
            Value::Object(p),
            Shadow::Unsupported,
        ) == WrapPlan::Have(Value::Object(c)) && found(
            entries,
            Value::Object(p),
            Shadow::Unsupported,
        ) == Some(Value::Object(c)),
        entry_of(entries, p) is None ==> wrap_plan_of(entries, Value::Object(p), Shadow::Unsupported)
            is MakeMapped && found(entries, Value::Object(p), Shadow::Unsupported) is None,
        forall|v: Value, s: Shadow|
            v.address() is None ==> #[trigger] wrap_plan_of(entries, v, s) == WrapPlan::Have(v),
        forall|v: Value, s: Shadow| v.address() is None ==> #[trigger] found(entries, v, s) is None,
{
}

/// A cell is shown as the language that views it, and keeps its object, its front and
/// how it is kept; a front that is set changes nothing else; and a cell that is
/// entered is only marked so.
pub proof fn law_a_cell_keeps_its_object(
    all: ObjectSeq,
    v: Value,
    c: CellBody,
    view: CellView,
    name: Seq<char>,
    p: usize,
    q: usize,
)
    requires
        cell_of(all, v) == Some(c),
    ensures
        cell_of(viewed(all, v, view, name), v) == Some(
            CellBody { view, object: c.object, front: c.front, mapped: c.mapped },
        ),
        referent(viewed(all, v, view, name), v) matches Some(o) && o.lang == view.lang && o.ty_name
            == name,
        cell_of(fronted(all, v, p), v) == Some(
            CellBody { view: c.view, object: c.object, front: p, mapped: c.mapped },
        ),
        cell_of(mapped_now(all, v.address()->0), v) == Some(
            CellBody { view: c.view, object: c.object, front: c.front, mapped: true },
        ),
        Some(q) != v.address() ==> {
            &&& object_at(viewed(all, v, view, name), q) == object_at(all, q)
            &&& object_at(fronted(all, v, p), q) == object_at(all, q)
            &&& object_at(mapped_now(all, v.address()->0), q) == object_at(all, q)
        },
{
    let a = v.address()->0;
    assert(v == Value::Object(a));
}

// Buffers.

/// A byte that is stored is read at its place and nowhere else; what is no byte, or
/// has no place, is refused.
pub proof fn law_a_stored_byte_is_read(all: ObjectSeq, p: usize, i: i32, n: i32, j: i32)
    requires
        is_buffer(all, p),
        buffer_at(all, p) matches Some(b) && b.storage != p,
    ensures
        match store_of(all, p, Value::Int(i), Value::Int(n)) {
            Some((at, byte)) => {
                &&& 0 <= i < bytes_of(all, p).len()
                &&& 0 <= n <= 255
                &&& byte_at(stored(all, p, at, byte), p, Value::Int(i)) == Reply::Ok(Value::Int(n))
                &&& j != i ==> byte_at(stored(all, p, at, byte), p, Value::Int(j)) == byte_at(
                    all,
                    p,
                    Value::Int(j),
                )
            },
            None => i < 0 || i >= bytes_of(all, p).len() || n < 0 || n > 255,
        },
        match byte_at(all, p, Value::Int(j)) {
            Ok(v) => 0 <= j < bytes_of(all, p).len() && v == Value::Int(
                bytes_of(all, p)[j as int] as i32,
            ),
            Err(f) => f is Missing && (j < 0 || j >= bytes_of(all, p).len()),
        },
{
    let b = buffer_at(all, p)->0;
    let bytes = crate::data::storage_at(all, b.storage)->0;
    if let Some((at, byte)) = store_of(all, p, Value::Int(i), Value::Int(n)) {
        let after = stored(all, p, at, byte);
        assert(buffer_at(after, p) == buffer_at(all, p));
        assert(crate::data::storage_at(after, b.storage) == Some(bytes.update(at as int, byte)));
    }
}

/// A walk begins at the first byte and goes on at the next one.
pub proof fn law_a_buffer_is_walked(all: ObjectSeq, p: usize, i: i32)
    requires
        is_buffer(all, p),
    ensures
        step_of(all, p, Value::Null) == if bytes_of(all, p).len() > 0 {
            Some((0int, bytes_of(all, p)[0]))
        } else {
            None
        },
        i >= 0 ==> step_of(all, p, Value::Int(i)) == if i + 1 < bytes_of(all, p).len() {
            Some((i + 1, bytes_of(all, p)[i + 1]))
        } else {
            None
        },
{
}

} // verus!
