//! What holds of every word that crosses to native code and back.

use vstd::prelude::*;

use crate::bridge::typed::{HBOOL, HBYTES, HDYN, HF32, HF64, HI32, HI64, HUI16, HUI8, HVOID};
use crate::native::{
    dispatch_of, passed_as, result_of, type_of_kind, word, words_of, Result64, Word,
};
use crate::object::{text_of, ObjectSeq};
use crate::registry::TypeRef;
use crate::value::Value;

verus! {

/// A double comes back as the number it is, whatever its bits.
pub proof fn law_a_double_comes_back(all: ObjectSeq, bits: u64)
    ensures
        word(all, Value::Number(bits), HF64) == Some(Word::Double(bits)),
        result_of(bits as i64, HF64) == Result64::Value(Value::Number(bits)),
{
    assert((bits as i64) as u64 == bits) by (bit_vector);
}

/// A 32-bit integer comes back from the word it is passed as.
pub proof fn law_an_int_comes_back(all: ObjectSeq, n: i32)
    ensures
        word(all, Value::Int(n), HI32) matches Some(Word::Int(w)) && w == n && result_of(w, HI32)
            == Result64::Value(Value::Int(n)),
        word(all, Value::Int(n), HI64) matches Some(Word::Int(w)) && w == n && result_of(w, HI64)
            == Result64::Int64(n as i64),
{
    let w = n as i64;
    assert(w as i32 == n) by (bit_vector)
        requires
            w == n as i64,
    ;
}

/// A bool comes back from the word it is passed as.
pub proof fn law_a_bool_comes_back(all: ObjectSeq, b: bool)
    ensures
        word(all, Value::Bool(b), HBOOL) matches Some(Word::Int(w)) && result_of(w, HBOOL)
            == Result64::Value(Value::Bool(b)),
{
    assert(1i64 & 1 != 0 && 0i64 & 1 == 0) by (bit_vector);
}

/// A string comes back as the object it was borrowed from.
pub proof fn law_a_string_comes_back(all: ObjectSeq, p: usize)
    requires
        p != 0,
        text_of(all, Value::Object(p)) is Some,
    ensures
        word(all, Value::Object(p), HBYTES) == Some(Word::Text(p)),
        result_of(p as i64, HBYTES) == Result64::Value(Value::Object(p)),
{
    assert((p as i64) as usize == p && (p != 0 ==> p as i64 != 0)) by (bit_vector);
}

/// A narrow result is the low bits of its word, without sign: whatever stands
/// above them is not part of it.
pub proof fn law_a_narrow_result_is_its_low_bits(w: i64)
    ensures
        result_of(w, HUI8) matches Result64::Value(Value::Int(n)) && 0 <= n < 256 && (w - n) % 256
            == 0,
        result_of(w, HUI16) matches Result64::Value(Value::Int(n)) && 0 <= n < 65536 && (w - n)
            % 65536 == 0,
        result_of(w, HI32) matches Result64::Value(Value::Int(n)) && (w - n) % 4294967296 == 0,
        result_of(w, HF32) matches Result64::Single(n) && (w - n) % 4294967296 == 0,
        result_of(w, HI64) == Result64::Int64(w),
        result_of(w, HBOOL) == Result64::Value(Value::Bool(w % 2 != 0)),
{
    let a = w as u8;
    let b = w as u16;
    let c = w as i32;
    let d = w as u32;
    assert(w == (w >> 8) * 256 + a && w == (w >> 16) * 65536 + b && w == (w >> 32) * 4294967296 + d
        && (c == d || c == d - 4294967296) && w == (w >> 1) * 2 + (w & 1) && 0 <= (w & 1) <= 1)
        by (bit_vector)
        requires
            a == w as u8,
            b == w as u16,
            c == w as i32,
            d == w as u32,
    ;
}

/// A result is of the type its kind declares: an integer, a number, a bool, a
/// string or nothing; any value for the dynamic kind; and nothing for no result.
pub proof fn law_a_result_is_of_its_type(w: i64, kind: u32)
    ensures
        match type_of_kind(kind) {
            TypeRef::Int => result_of(w, kind) is Int64 || (result_of(w, kind) matches
                Result64::Value(v) && v is Int),
            TypeRef::Float => result_of(w, kind) is Single || (result_of(w, kind) matches
                Result64::Value(v) && v is Number),
            TypeRef::Bool => result_of(w, kind) matches Result64::Value(v) && v is Bool,
            TypeRef::Str => result_of(w, kind) matches Result64::Value(v) && (v is Object
                || v is Null),
            TypeRef::Void => result_of(w, kind) == Result64::Value(Value::Null),
            _ => result_of(w, kind) is Dyn || result_of(w, kind) == Result64::Value(Value::Null),
        },
        kind == HVOID ==> type_of_kind(kind) == TypeRef::Void,
        kind == HUI8 || kind == HUI16 || kind == HI32 || kind == HI64 ==> type_of_kind(kind)
            == TypeRef::Int,
        kind == HF32 || kind == HF64 ==> type_of_kind(kind) == TypeRef::Float,
        kind == HBOOL ==> type_of_kind(kind) == TypeRef::Bool,
        kind == HBYTES ==> type_of_kind(kind) == TypeRef::Str,
        kind == HDYN ==> type_of_kind(kind) == TypeRef::Dyn && result_of(w, kind) is Dyn,
        kind > HDYN ==> type_of_kind(kind) == TypeRef::Dyn,
{
}

/// An argument is taken exactly where its value is of the kind's type: an integer
/// or a whole number by the integer kinds, a number or an integer by the floating
/// ones, a bool by its own, a core string by the bytes, and anything by the
/// dynamic kind.
pub proof fn law_an_argument_is_of_its_type(all: ObjectSeq, v: Value, kind: u32)
    ensures
        match type_of_kind(kind) {
            TypeRef::Int => (v is Int ==> word(all, v, kind) is Some) && (word(
                all,
                v,
                kind,
            ) is Some ==> (v is Int || v is Number) && word(all, v, kind)->0 is Int),
            TypeRef::Float => word(all, v, kind) is Some <==> v is Number || v is Int,
            TypeRef::Bool => word(all, v, kind) is Some <==> v is Bool,
            TypeRef::Str => word(all, v, kind) is Some <==> text_of(all, v) is Some,
            TypeRef::Void => word(all, v, kind) is None,
            _ => word(all, v, kind) == if kind == HDYN {
                Some(Word::Dyn(v))
            } else {
                None
            },
        },
        v matches Value::Int(n) ==> (type_of_kind(kind) == TypeRef::Int ==> word(all, v, kind)
            == Some(Word::Int(n as i64))),
        v matches Value::Number(b) ==> {
            &&& kind == HF64 ==> word(all, v, kind) == Some(Word::Double(b))
            &&& kind == HF32 ==> word(all, v, kind) == Some(Word::Single(b))
        },
        v matches Value::Int(n) ==> {
            &&& kind == HF64 ==> word(all, v, kind) == Some(Word::Widened(n))
            &&& kind == HF32 ==> word(all, v, kind) == Some(Word::SingleOf(n))
        },
        v matches Value::Bool(b) ==> (kind == HBOOL ==> (word(all, v, kind) matches Some(
            Word::Int(n),
        ) && (b <==> n == 1) && (!b <==> n == 0))),
{
}

/// A word is passed as a single or a double exactly where a number becomes one.
pub proof fn law_a_word_is_passed_as_it_is_made(all: ObjectSeq, bits: u64, kind: u32)
    ensures
        passed_as(kind) == 2 <==> word(all, Value::Number(bits), kind) == Some(Word::Double(bits)),
        passed_as(kind) == 1 <==> word(all, Value::Number(bits), kind) == Some(Word::Single(bits)),
        passed_as(kind) <= 2,
{
}

/// A call passes a word for each argument, in order, each made of its own value
/// by its own kind.
pub proof fn law_words_are_in_order(all: ObjectSeq, kinds: Seq<u32>, args: Seq<Value>)
    requires
        kinds.len() == args.len(),
    ensures
        match words_of(all, kinds, args) {
            Ok(words) => words.len() == args.len() && forall|i: int|
                0 <= i < args.len() ==> word(all, args[i], kinds[i]) == Some(#[trigger] words[i]),
            Err(_) => exists|i: int|
                0 <= i < args.len() && word(all, #[trigger] args[i], kinds[i]) is None,
        },
    decreases kinds.len(),
{
    if kinds.len() > 0 {
        let k = kinds.drop_last();
        let a = args.drop_last();
        law_words_are_in_order(all, k, a);
        match words_of(all, k, a) {
            Err(_) => {
                let i = choose|i: int|
                    0 <= i < a.len() && word(all, #[trigger] a[i], k[i]) is None;
                assert(args[i] == a[i] && kinds[i] == k[i]);
            },
            Ok(words) => match word(all, args.last(), kinds.last()) {
                Some(w) => {
                    let out = words.push(w);
                    assert forall|i: int| 0 <= i < args.len() implies word(all, args[i], kinds[i])
                        == Some(#[trigger] out[i]) by {
                        if i < a.len() {
                            assert(words[i] == out[i]);
                            assert(word(all, a[i], k[i]) == Some(words[i]));
                        }
                    }
                },
                None => {
                    let i = args.len() - 1;
                    assert(word(all, args[i], kinds[i]) is None);
                },
            },
        }
    }
}

/// A call with another number of arguments than its signature has is refused,
/// and one with the right number only for an argument its kind cannot take.
pub proof fn law_a_call_is_refused_for_a_cause(all: ObjectSeq, kinds: Seq<u32>, args: Seq<Value>)
    ensures
        kinds.len() != args.len() ==> dispatch_of(all, kinds, args) is Err,
        kinds.len() == args.len() ==> (dispatch_of(all, kinds, args) is Err <==> exists|i: int|
            0 <= i < args.len() && word(all, #[trigger] args[i], kinds[i]) is None),
{
    if kinds.len() == args.len() {
        law_words_are_in_order(all, kinds, args);
        if dispatch_of(all, kinds, args) is Ok {
            let words = dispatch_of(all, kinds, args)->Ok_0;
            assert forall|i: int| 0 <= i < args.len() implies word(
                all,
                #[trigger] args[i],
                kinds[i],
            ) is Some by {
                assert(word(all, args[i], kinds[i]) == Some(words[i]));
            }
        }
    }
}

} // verus!
