//! The core's own dispatcher: how values become the words of a signature, and
//! a result word becomes a value.

use vstd::prelude::*;

use crate::bridge::plan::{describe, description, Signature};
use crate::object::{ObjectSeq, Objects};
use crate::text::{cat, decimal, decimal_text};
use crate::value::Value;

verus! {

// The kinds of a signature.

pub const HVOID: u32 = 0;

pub const HUI8: u32 = 1;

pub const HUI16: u32 = 2;

pub const HI32: u32 = 3;

pub const HI64: u32 = 4;

pub const HF32: u32 = 5;

pub const HF64: u32 = 6;

pub const HBOOL: u32 = 7;

pub const HBYTES: u32 = 8;

pub const HDYN: u32 = 9;

/// How many arguments the core dispatcher takes.
pub const CORE_MAX_ARGS: usize = 4;

/// How an argument travels: an integer-class word, a floating-point one, or
/// the value itself. A number where an integer is wanted is cut to one, and an
/// integer where a number is wanted is widened, by whoever makes the call.
#[derive(Clone, Copy, Debug, PartialEq, Eq, Structural)]
pub enum Slot {
    Int(i64),
    /// The bits of a double.
    Float(u64),
    /// The bits of a double, to be cut to a 32-bit integer.
    Cut(u64),
    /// An integer, to be widened to a double.
    Widened(i32),
    Dyn(Value),
}

/// How a result travels.
#[derive(Clone, Copy, Debug, PartialEq, Eq, Structural)]
pub enum Ret {
    Void,
    Int,
    Float,
}

/// What the code returned, before its kind shapes it.
#[derive(Clone, Copy, Debug, PartialEq, Eq, Structural)]
pub enum Raw {
    Void,
    Int(i64),
    /// The bits of a double.
    Float(u64),
    Dyn(Value),
}

/// Whether the core dispatcher marshals arguments of `kind`.
pub open spec fn takes_kind(kind: u32) -> bool {
    kind == 3 || kind == 7 || kind == 6 || kind == 9
}

/// How `v` travels as an argument of `kind`: nothing for a value the kind
/// cannot take.
pub open spec fn slot_of(kind: u32, v: Value) -> Option<Slot> {
    if kind == 3 {
        match v {
            Value::Int(n) => Some(Slot::Int(n as i64)),
            Value::Number(b) => Some(Slot::Cut(b)),
            _ => None,
        }
    } else if kind == 7 {
        match v {
            Value::Bool(b) => Some(
                Slot::Int(
                    if b {
                        1
                    } else {
                        0
                    },
                ),
            ),
            _ => None,
        }
    } else if kind == 6 {
        match v {
            Value::Number(b) => Some(Slot::Float(b)),
            Value::Int(n) => Some(Slot::Widened(n)),
            _ => None,
        }
    } else if kind == 9 {
        Some(Slot::Dyn(v))
    } else {
        None
    }
}

/// The message for an argument whose kind is not marshalled.
pub open spec fn not_marshalled(i: nat, kind: u32) -> Seq<char> {
    "argument "@ + decimal(i) + " has kind "@ + decimal(kind as nat)
        + ", which the core dispatcher does not marshal"@
}

/// The message for a value its kind cannot take.
pub open spec fn not_taken(all: ObjectSeq, i: nat, kind: u32, v: Value) -> Seq<char> {
    "argument "@ + decimal(i) + " expects kind "@ + decimal(kind as nat) + ", got "@ + description(
        all,
        v,
    )
}

/// The slots of the first `n` arguments, or what is wrong with the first that
/// cannot be marshalled.
pub open spec fn marshalled(
    all: ObjectSeq,
    kinds: Seq<u32>,
    args: Seq<Value>,
    n: nat,
) -> Result<Seq<Slot>, Seq<char>>
    decreases n,
{
    if n == 0 {
        Ok(Seq::empty())
    } else {
        match marshalled(all, kinds, args, (n - 1) as nat) {
            Err(m) => Err(m),
            Ok(slots) => {
                let kind = kinds[n - 1];
                let v = args[n - 1];
                if !takes_kind(kind) {
                    Err(not_marshalled((n - 1) as nat, kind))
                } else {
                    match slot_of(kind, v) {
                        Some(s) => Ok(slots.push(s)),
                        None => Err(not_taken(all, (n - 1) as nat, kind, v)),
                    }
                }
            },
        }
    }
}

/// How a result of `kind` travels: nothing for one that is not marshalled.
pub open spec fn ret_of(kind: u32) -> Option<Ret> {
    if kind == 0 {
        Some(Ret::Void)
    } else if kind == 3 || kind == 7 || kind == 9 {
        Some(Ret::Int)
    } else if kind == 6 {
        Some(Ret::Float)
    } else {
        None
    }
}

/// What the core dispatcher hands to the code, or the message of the `Type`
/// error it raises: the first thing wrong, the arguments before the result.
pub open spec fn dispatch_plan_of(
    all: ObjectSeq,
    kinds: Option<(Seq<u32>, u32)>,
    args: Seq<Value>,
) -> Result<(Seq<Slot>, Ret), Seq<char>> {
    match kinds {
        None => Err("signature is not a function type"@),
        Some((kinds, ret)) => if kinds.len() != args.len() || args.len() > 4 {
            Err(
                "the core dispatcher takes at most "@ + decimal(4) + " arguments, not "@ + decimal(
                    args.len(),
                ),
            )
        } else {
            match marshalled(all, kinds, args, args.len()) {
                Err(m) => Err(m),
                Ok(slots) => match ret_of(ret) {
                    Some(r) => Ok((slots, r)),
                    None => Err(
                        "return kind "@ + decimal(ret as nat)
                            + " is not one the core dispatcher marshals"@,
                    ),
                },
            }
        },
    }
}

fn slot_for(kind: u32, v: Value) -> (r: Option<Slot>)
    ensures
        r == slot_of(kind, v),
{
    if kind == HI32 {
        match v {
            Value::Int(n) => Some(Slot::Int(n as i64)),
            Value::Number(b) => Some(Slot::Cut(b)),
            _ => None,
        }
    } else if kind == HBOOL {
        match v {
            Value::Bool(b) => if b {
                Some(Slot::Int(1))
            } else {
                Some(Slot::Int(0))
            },
            _ => None,
        }
    } else if kind == HF64 {
        match v {
            Value::Number(b) => Some(Slot::Float(b)),
            Value::Int(n) => Some(Slot::Widened(n)),
            _ => None,
        }
    } else if kind == HDYN {
        Some(Slot::Dyn(v))
    } else {
        None
    }
}

/// The core's own dispatcher, up to the call: up to four arguments of kinds
/// `HI32`, `HBOOL`, `HF64` and `HDYN`, returning `HVOID`, `HI32`, `HBOOL`,
/// `HF64` or `HDYN`.
pub fn core_dispatch(
    objects: &Objects,
    signature: Option<&Signature>,
    args: &Vec<Value>,
) -> (r: Result<(Vec<Slot>, Ret), String>)
    ensures
        match dispatch_plan_of(
            objects@,
            match signature {
                Some(s) => Some((s.args@, s.ret)),
                None => None,
            },
            args@,
        ) {
            Ok((slots, ret)) => r matches Ok((s, t)) && s@ == slots && t == ret,
            Err(m) => r matches Err(s) && s@ == m,
        },
{
    let sig: &Signature = match signature {
        Some(s) => s,
        None => {
            return Err("signature is not a function type".to_owned());
        },
    };
    if sig.args.len() != args.len() || args.len() > CORE_MAX_ARGS {
        let head = cat(
            "the core dispatcher takes at most ",
            decimal_text(CORE_MAX_ARGS as u64).as_str(),
        );
        let with = cat(head.as_str(), " arguments, not ");
        return Err(cat(with.as_str(), decimal_text(args.len() as u64).as_str()));
    }
    let mut slots: Vec<Slot> = Vec::new();
    let mut i: usize = 0;
    assert(slots@ =~= Seq::<Slot>::empty());
    while i < args.len()
        invariant
            i <= args.len(),
            args.len() == sig.args.len(),
            args.len() <= 4,
            signature == Some(sig),
            marshalled(objects@, sig.args@, args@, i as nat) == Ok::<Seq<Slot>, Seq<char>>(slots@),
        decreases args.len() - i,
    {
        let kind: u32 = sig.args[i];
        let v: Value = args[i];
        if kind != HI32 && kind != HBOOL && kind != HF64 && kind != HDYN {
            let head = cat("argument ", decimal_text(i as u64).as_str());
            let with = cat(head.as_str(), " has kind ");
            let more = cat(with.as_str(), decimal_text(kind as u64).as_str());
            proof {
                lemma_marshal_stops(
                    objects@,
                    sig.args@,
                    args@,
                    (i + 1) as nat,
                    args.len() as nat,
                    not_marshalled(i as nat, kind),
                );
            }
            return Err(
                cat(more.as_str(), ", which the core dispatcher does not marshal"),
            );
        }
        match slot_for(kind, v) {
            Some(s) => {
                slots.push(s);
            },
            None => {
                let head = cat("argument ", decimal_text(i as u64).as_str());
                let with = cat(head.as_str(), " expects kind ");
                let more = cat(with.as_str(), decimal_text(kind as u64).as_str());
                let got = cat(more.as_str(), ", got ");
                proof {
                    lemma_marshal_stops(
                        objects@,
                        sig.args@,
                        args@,
                        (i + 1) as nat,
                        args.len() as nat,
                        not_taken(objects@, i as nat, kind, v),
                    );
                }
                return Err(cat(got.as_str(), describe(objects, v).as_str()));
            },
        }
        i = i + 1;
    }
    let kind: u32 = sig.ret;
    let ret: Ret = if kind == HVOID {
        Ret::Void
    } else if kind == HI32 || kind == HBOOL || kind == HDYN {
        Ret::Int
    } else if kind == HF64 {
        Ret::Float
    } else {
        let head = cat("return kind ", decimal_text(kind as u64).as_str());
        return Err(cat(head.as_str(), " is not one the core dispatcher marshals"));
    };
    Ok((slots, ret))
}

/// Once an argument is refused, the whole call is, with that message.
proof fn lemma_marshal_stops(
    all: ObjectSeq,
    kinds: Seq<u32>,
    args: Seq<Value>,
    at: nat,
    n: nat,
    m: Seq<char>,
)
    requires
        at <= n,
        marshalled(all, kinds, args, at) == Err::<Seq<Slot>, Seq<char>>(m),
    ensures
        marshalled(all, kinds, args, n) == Err::<Seq<Slot>, Seq<char>>(m),
    decreases n,
{
    if n > at {
        lemma_marshal_stops(all, kinds, args, at, (n - 1) as nat, m);
    }
}

/// The value a result is, by its kind.
pub open spec fn shaped(raw: Raw, kind: u32) -> Value {
    match raw {
        Raw::Int(n) => if kind == 3 {
            Value::Int(n as i32)
        } else if kind == 7 {
            Value::Bool(n as u8 != 0)
        } else {
            Value::Null
        },
        Raw::Float(b) => Value::Number(b),
        Raw::Dyn(v) => v,
        Raw::Void => Value::Null,
    }
}

/// [`shaped`].
pub fn shape(raw: Raw, kind: u32) -> (v: Value)
    ensures
        v == shaped(raw, kind),
{
    match raw {
        Raw::Int(n) => if kind == HI32 {
            Value::Int(#[verifier::truncate] (n as i32))
        } else if kind == HBOOL {
            Value::Bool(#[verifier::truncate] (n as u8) != 0)
        } else {
            Value::Null
        },
        Raw::Float(b) => Value::Number(b),
        Raw::Dyn(v) => v,
        Raw::Void => Value::Null,
    }
}

/// A result comes back as the argument it would be: an integer and a bool
/// survive their words.
pub proof fn law_words_round_trip(v: Value, kind: u32)
    requires
        kind == 3 && v is Int || kind == 7 && v is Bool,
    ensures
        slot_of(kind, v) matches Some(Slot::Int(n)) && shaped(Raw::Int(n), kind) == v,
{
    match v {
        Value::Int(n) => {
            let w = n as i64;
            assert(w as i32 == n) by (bit_vector)
                requires
                    w == n as i64,
            ;
        },
        Value::Bool(b) => {
            assert(1i64 as u8 == 1 && 0i64 as u8 == 0) by (bit_vector);
        },
        _ => {},
    }
}

} // verus!
