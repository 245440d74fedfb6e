//! Calling native code by a signature known at run time: a value crosses as the
//! word of its kind, and the result comes back the same way. Nothing is boxed.

use vstd::prelude::*;

use crate::bridge::plan::{describe, description, Signature};
use crate::bridge::typed::{HBOOL, HBYTES, HDYN, HF32, HF64, HI32, HI64, HUI16, HUI8, HVOID};
use crate::data::{int64_of, integer_value};
use crate::object::{text_of, ObjectSeq, Objects};
use crate::registry::TypeRef;
use crate::text::{cat, decimal, decimal_text};
use crate::value::Value;

pub mod laws;

verus! {

/// The signatures in use, one per distinct signature; one is known by its
/// place.
pub struct Signatures {
    pub list: Vec<Signature>,
}

/// Whether `s` takes `args` and gives `ret`.
pub open spec fn is_signature(s: Signature, args: Seq<u32>, ret: u32) -> bool {
    s.args@ == args && s.ret == ret
}

impl Signatures {
    /// No signature is there twice.
    pub open spec fn inv(&self) -> bool {
        forall|i: int, j: int|
            #![trigger self.list@[i], self.list@[j]]
            0 <= i < j < self.list@.len() ==> !is_signature(
                self.list@[i],
                self.list@[j].args@,
                self.list@[j].ret,
            )
    }

    pub fn new() -> (s: Signatures)
        ensures
            s.inv(),
            s.list@.len() == 0,
    {
        Signatures { list: Vec::new() }
    }

    /// The signature for `args` and `ret`, the same one for the same kinds.
    pub fn signature(&mut self, args: Vec<u32>, ret: u32) -> (k: usize)
        requires
            old(self).inv(),
        ensures
            final(self).inv(),
            k < final(self).list@.len(),
            is_signature(final(self).list@[k as int], args@, ret),
            final(self).list@ == if k < old(self).list@.len() {
                old(self).list@
            } else {
                old(self).list@.push(Signature { args, ret })
            },
            (exists|i: int|
                0 <= i < old(self).list@.len() && is_signature(
                    #[trigger] old(self).list@[i],
                    args@,
                    ret,
                )) ==> k < old(self).list@.len(),
    {
        let mut i: usize = 0;
        while i < self.list.len()
            invariant
                *self == *old(self),
                old(self).inv(),
                i <= self.list.len(),
                forall|k: int|
                    0 <= k < i ==> !is_signature(#[trigger] self.list@[k], args@, ret),
            decreases self.list.len() - i,
        {
            if self.list[i].ret == ret && same_kinds(&self.list[i].args, &args) {
                return i;
            }
            i = i + 1;
        }
        let ghost was = self.list@;
        self.list.push(Signature { args, ret });
        proof {
            let now = self.list@;
            assert forall|a: int, b: int|
                #![trigger now[a], now[b]]
                0 <= a < b < now.len() implies !is_signature(now[a], now[b].args@, now[b].ret) by {
                assert(now[a] == was[a]);
                if b < was.len() {
                    assert(now[b] == was[b]);
                }
            }
        }
        i
    }
}

fn same_kinds(a: &Vec<u32>, b: &Vec<u32>) -> (r: bool)
    ensures
        r == (a@ == b@),
{
    if a.len() != b.len() {
        return false;
    }
    let mut i: usize = 0;
    while i < a.len()
        invariant
            i <= a.len(),
            a.len() == b.len(),
            forall|k: int| 0 <= k < i ==> a@[k] == b@[k],
        decreases a.len() - i,
    {
        if a[i] != b[i] {
            assert(a@[i as int] != b@[i as int]);
            return false;
        }
        i = i + 1;
    }
    assert(a@ =~= b@);
    true
}

/// The same kinds are one signature: distinct places hold distinct signatures.
pub proof fn law_signatures_are_shared(s: &Signatures, i: int, j: int)
    requires
        s.inv(),
        0 <= i < s.list@.len(),
        0 <= j < s.list@.len(),
        s.list@[i].args@ == s.list@[j].args@,
        s.list@[i].ret == s.list@[j].ret,
    ensures
        i == j,
{
    if i < j {
        assert(!is_signature(s.list@[i], s.list@[j].args@, s.list@[j].ret));
    } else if j < i {
        assert(!is_signature(s.list@[j], s.list@[i].args@, s.list@[i].ret));
    }
}

/// The registry's type for a scalar kind.
pub open spec fn type_of_kind(kind: u32) -> TypeRef {
    if kind == HVOID {
        TypeRef::Void
    } else if kind == HUI8 || kind == HUI16 || kind == HI32 || kind == HI64 {
        TypeRef::Int
    } else if kind == HF32 || kind == HF64 {
        TypeRef::Float
    } else if kind == HBOOL {
        TypeRef::Bool
    } else if kind == HBYTES {
        TypeRef::Str
    } else {
        TypeRef::Dyn
    }
}

/// [`type_of_kind`].
pub fn type_ref(kind: u32) -> (t: TypeRef)
    ensures
        t == type_of_kind(kind),
{
    if kind == HVOID {
        TypeRef::Void
    } else if kind == HUI8 || kind == HUI16 || kind == HI32 || kind == HI64 {
        TypeRef::Int
    } else if kind == HF32 || kind == HF64 {
        TypeRef::Float
    } else if kind == HBOOL {
        TypeRef::Bool
    } else if kind == HBYTES {
        TypeRef::Str
    } else {
        TypeRef::Dyn
    }
}

/// How a word of `kind` is passed.
pub open spec fn passed_as(kind: u32) -> u8 {
    if kind == HF32 {
        1
    } else if kind == HF64 {
        2
    } else {
        0
    }
}

/// How the table passes a word of `kind`: 0 an integer or pointer, 1 a single,
/// 2 a double.
pub fn word_kind(kind: u32) -> (k: u8)
    ensures
        k == passed_as(kind),
{
    if kind == HF32 {
        1
    } else if kind == HF64 {
        2
    } else {
        0
    }
}

/// An argument's word. A number where a single is wanted is narrowed, and an
/// integer where a number is wanted is widened, by whoever makes the call.
#[derive(Clone, Copy, Debug, PartialEq, Eq, Structural)]
pub enum Word {
    Int(i64),
    /// The bits of a double.
    Double(u64),
    /// The bits of a double, to be narrowed to a single.
    Single(u64),
    /// An integer, to be widened to a double.
    Widened(i32),
    /// An integer, to become a single.
    SingleOf(i32),
    /// A value's own bits.
    Dyn(Value),
    /// The address of a core string, borrowed for the call.
    Text(usize),
}

/// The word for `v` as an argument of `kind`; nothing for a value the kind
/// cannot take.
pub open spec fn word(all: ObjectSeq, v: Value, kind: u32) -> Option<Word> {
    if kind == HUI8 || kind == HUI16 || kind == HI32 || kind == HI64 {
        match integer_value(v) {
            Some(n) => Some(Word::Int(n)),
            None => None,
        }
    } else if kind == HF32 {
        match v {
            Value::Number(bits) => Some(Word::Single(bits)),
            Value::Int(n) => Some(Word::SingleOf(n)),
            _ => None,
        }
    } else if kind == HF64 {
        match v {
            Value::Number(bits) => Some(Word::Double(bits)),
            Value::Int(n) => Some(Word::Widened(n)),
            _ => None,
        }
    } else if kind == HBOOL {
        match v {
            Value::Bool(b) => Some(
                Word::Int(
                    if b {
                        1
                    } else {
                        0
                    },
                ),
            ),
            _ => None,
        }
    } else if kind == HDYN {
        Some(Word::Dyn(v))
    } else if kind == HBYTES {
        if text_of(all, v) is Some {
            Some(Word::Text(v.address()->0))
        } else {
            None
        }
    } else {
        None
    }
}

/// [`word`].
pub fn word_of(objects: &Objects, v: Value, kind: u32) -> (r: Option<Word>)
    ensures
        r == word(objects@, v, kind),
{
    if kind == HUI8 || kind == HUI16 || kind == HI32 || kind == HI64 {
        match int64_of(v) {
            Some(n) => Some(Word::Int(n)),
            None => None,
        }
    } else if kind == HF32 {
        match v {
            Value::Number(bits) => Some(Word::Single(bits)),
            Value::Int(n) => Some(Word::SingleOf(n)),
            _ => None,
        }
    } else if kind == HF64 {
        match v {
            Value::Number(bits) => Some(Word::Double(bits)),
            Value::Int(n) => Some(Word::Widened(n)),
            _ => None,
        }
    } else if kind == HBOOL {
        match v {
            Value::Bool(b) => if b {
                Some(Word::Int(1))
            } else {
                Some(Word::Int(0))
            },
            _ => None,
        }
    } else if kind == HDYN {
        Some(Word::Dyn(v))
    } else if kind == HBYTES {
        match objects.text(v) {
            Some(_) => match v.object_of() {
                Some(p) => Some(Word::Text(p)),
                None => None,
            },
            None => None,
        }
    } else {
        None
    }
}

/// What a result word is. A 64-bit integer, a single and a value's own bits are
/// for whoever made the call to make a value of.
#[derive(Clone, Copy, Debug, PartialEq, Eq, Structural)]
pub enum Result64 {
    Value(Value),
    Int64(i64),
    /// The bits of a single.
    Single(u32),
    /// A value's own bits.
    Dyn(u64),
}

/// What a result word of `kind` is.
pub open spec fn result_of(word: i64, kind: u32) -> Result64 {
    if kind == HUI8 {
        Result64::Value(Value::Int(word as u8 as i32))
    } else if kind == HUI16 {
        Result64::Value(Value::Int(word as u16 as i32))
    } else if kind == HI32 {
        Result64::Value(Value::Int(word as i32))
    } else if kind == HI64 {
        Result64::Int64(word)
    } else if kind == HF32 {
        Result64::Single(word as u32)
    } else if kind == HF64 {
        Result64::Value(Value::Number(word as u64))
    } else if kind == HBOOL {
        Result64::Value(Value::Bool(word & 1 != 0))
    } else if kind == HDYN {
        Result64::Dyn(word as u64)
    } else if kind == HBYTES && word != 0 {
        Result64::Value(Value::Object(word as usize))
    } else {
        Result64::Value(Value::Null)
    }
}

/// [`result_of`].
pub fn value_of(word: i64, kind: u32) -> (r: Result64)
    ensures
        r == result_of(word, kind),
{
    if kind == HUI8 {
        Result64::Value(Value::Int(#[verifier::truncate] (word as u8) as i32))
    } else if kind == HUI16 {
        Result64::Value(Value::Int(#[verifier::truncate] (word as u16) as i32))
    } else if kind == HI32 {
        Result64::Value(Value::Int(#[verifier::truncate] (word as i32)))
    } else if kind == HI64 {
        Result64::Int64(word)
    } else if kind == HF32 {
        Result64::Single(#[verifier::truncate] (word as u32))
    } else if kind == HF64 {
        Result64::Value(Value::Number(#[verifier::truncate] (word as u64)))
    } else if kind == HBOOL {
        Result64::Value(Value::Bool(word & 1 != 0))
    } else if kind == HDYN {
        Result64::Dyn(#[verifier::truncate] (word as u64))
    } else if kind == HBYTES && word != 0 {
        Result64::Value(Value::Object(#[verifier::truncate] (word as usize)))
    } else {
        Result64::Value(Value::Null)
    }
}

/// The refusal of a call with the wrong number of arguments.
pub open spec fn wrong_count(takes: nat, given: nat) -> Seq<char> {
    "the function takes "@ + decimal(takes) + " arguments, not "@ + decimal(given)
}

/// The refusal of an argument its kind cannot take, counted from one.
pub open spec fn wrong_argument(all: ObjectSeq, i: nat, v: Value) -> Seq<char> {
    "argument "@ + decimal(i) + " of the function cannot be "@ + description(all, v)
}

/// The refusal of a signature the table has no entry for.
pub open spec fn not_callable() -> Seq<char> {
    "the function's signature is not one the core can call"@
}

/// The words of the first arguments, or why one has none.
pub open spec fn words_of(all: ObjectSeq, kinds: Seq<u32>, args: Seq<Value>) -> Result<
    Seq<Word>,
    Seq<char>,
>
    decreases kinds.len(),
{
    if kinds.len() == 0 {
        Ok(Seq::empty())
    } else {
        match words_of(all, kinds.drop_last(), args.drop_last()) {
            Err(m) => Err(m),
            Ok(words) => match word(all, args.last(), kinds.last()) {
                Some(w) => Ok(words.push(w)),
                None => Err(wrong_argument(all, kinds.len(), args.last())),
            },
        }
    }
}

/// The words of a call, or why it is refused.
pub open spec fn dispatch_of(all: ObjectSeq, kinds: Seq<u32>, args: Seq<Value>) -> Result<
    Seq<Word>,
    Seq<char>,
> {
    if kinds.len() != args.len() {
        Err(wrong_count(kinds.len(), args.len()))
    } else {
        words_of(all, kinds, args)
    }
}

/// A refusal among the first stays.
proof fn lemma_refusal_stays(all: ObjectSeq, kinds: Seq<u32>, args: Seq<Value>, n: int)
    requires
        0 <= n <= kinds.len(),
        kinds.len() == args.len(),
        words_of(all, kinds.take(n), args.take(n)) is Err,
    ensures
        words_of(all, kinds, args) == words_of(all, kinds.take(n), args.take(n)),
    decreases kinds.len() - n,
{
    if n == kinds.len() {
        assert(kinds.take(n) =~= kinds);
        assert(args.take(n) =~= args);
    } else {
        assert(kinds.take(n + 1).drop_last() =~= kinds.take(n));
        assert(args.take(n + 1).drop_last() =~= args.take(n));
        lemma_refusal_stays(all, kinds, args, n + 1);
    }
}

/// The words a call by `sig` passes, in order: each argument as the word of its
/// kind. A refusal is raised as a `Type` error of the core.
pub fn dispatch(objects: &Objects, sig: &Signature, args: &Vec<Value>) -> (r: Result<
    Vec<Word>,
    String,
>)
    ensures
        match dispatch_of(objects@, sig.args@, args@) {
            Ok(words) => r matches Ok(w) && w@ == words,
            Err(m) => r matches Err(e) && e@ == m,
        },
{
    if sig.args.len() != args.len() {
        let mut m: String = cat("the function takes ", decimal_text(sig.args.len() as u64).as_str());
        m.append(" arguments, not ");
        m.append(decimal_text(args.len() as u64).as_str());
        return Err(m);
    }
    let mut words: Vec<Word> = Vec::new();
    let mut i: usize = 0;
    assert(sig.args@.take(0) =~= Seq::<u32>::empty());
    assert(words@ =~= Seq::<Word>::empty());
    while i < args.len()
        invariant
            i <= args.len(),
            sig.args@.len() == args@.len(),
            words_of(objects@, sig.args@.take(i as int), args@.take(i as int)) == Ok::<
                Seq<Word>,
                Seq<char>,
            >(words@),
        decreases args.len() - i,
    {
        assert(sig.args@.take(i + 1).drop_last() =~= sig.args@.take(i as int));
        assert(args@.take(i + 1).drop_last() =~= args@.take(i as int));
        match word_of(objects, args[i], sig.args[i]) {
            Some(w) => {
                words.push(w);
            },
            None => {
                proof {
                    lemma_refusal_stays(objects@, sig.args@, args@, i + 1);
                }
                let mut m: String = cat("argument ", decimal_text(i as u64 + 1).as_str());
                m.append(" of the function cannot be ");
                m.append(describe(objects, args[i]).as_str());
                return Err(m);
            },
        }
        i = i + 1;
    }
    assert(sig.args@.take(i as int) =~= sig.args@);
    assert(args@.take(i as int) =~= args@);
    Ok(words)
}

/// What a call by a signature comes to.
#[derive(Debug)]
pub enum Dispatched {
    Returned(Result64),
    /// An error is pending.
    Raised,
    /// Raise a `Type` error with this message.
    Refused(String),
}

/// What comes of the word a call gave back: none where the table has no entry
/// for its shape; and an error that is pending is the answer whatever came
/// back.
pub fn dispatched(word: Option<i64>, pending: bool, ret: u32) -> (r: Dispatched)
    ensures
        match word {
            None => r matches Dispatched::Refused(m) && m@ == not_callable(),
            Some(w) => if pending {
                r is Raised
            } else {
                r == Dispatched::Returned(result_of(w, ret))
            },
        },
{
    match word {
        None => Dispatched::Refused(
            "the function's signature is not one the core can call".to_owned(),
        ),
        Some(w) => if pending {
            Dispatched::Raised
        } else {
            Dispatched::Returned(value_of(w, ret))
        },
    }
}

} // verus!
