//! The messages every object answers, whichever language made it, and the
//! callable the bridge invokes.

use vstd::prelude::*;

use crate::symbol::Symbol;
use crate::value::{LangId, Value};

verus! {

/// Why a message did not produce a value.
#[derive(Clone, Copy, Debug, PartialEq, Eq, Structural)]
pub enum Fault {
    /// The object does not answer this message.
    Unsupported,
    /// No such member, index or key.
    Missing,
    /// The callee raised; the error value is pending on the current task.
    Raised,
}

pub type Reply = Result<Value, Fault>;

/// Reply codes an entry returns.
pub const REPLY_OK: u8 = 0;

pub const REPLY_UNSUPPORTED: u8 = 1;

pub const REPLY_MISSING: u8 = 2;

pub const REPLY_RAISED: u8 = 3;

/// What a reply code and an out-value say: a code that is none of these is
/// `Unsupported`.
pub open spec fn replied(code: u8, out: Value) -> Reply {
    if code == 0 {
        Ok(out)
    } else if code == 2 {
        Err(Fault::Missing)
    } else if code == 3 {
        Err(Fault::Raised)
    } else {
        Err(Fault::Unsupported)
    }
}

/// A reply code and an out-value into a `Reply`.
pub fn reply(code: u8, out: Value) -> (r: Reply)
    ensures
        r == replied(code, out),
{
    if code == REPLY_OK {
        Ok(out)
    } else if code == REPLY_MISSING {
        Err(Fault::Missing)
    } else if code == REPLY_RAISED {
        Err(Fault::Raised)
    } else {
        Err(Fault::Unsupported)
    }
}

impl Fault {
    /// The code a fault is answered with.
    pub open spec fn code(self) -> u8 {
        match self {
            Fault::Unsupported => 1,
            Fault::Missing => 2,
            Fault::Raised => 3,
        }
    }

    /// [`Self::code`].
    pub fn to_code(self) -> (c: u8)
        ensures
            c == self.code(),
    {
        match self {
            Fault::Unsupported => REPLY_UNSUPPORTED,
            Fault::Missing => REPLY_MISSING,
            Fault::Raised => REPLY_RAISED,
        }
    }
}

/// A message forwarded by its code comes back as what it was.
pub proof fn law_reply_round_trip(r: Reply, out: Value)
    ensures
        match r {
            Ok(v) => replied(0, v) == r,
            Err(f) => replied(f.code(), out) == r,
        },
{
}

/// What the bridge invokes.
#[allow(inconsistent_fields)]
#[derive(Clone, Copy, Debug, PartialEq, Eq, Structural)]
pub enum Callable {
    /// Machine code and the address of its signature. The dispatcher
    /// registered for `lang` marshals values in and out by it; `lang` also
    /// names the segment in the trace.
    Typed { func: usize, signature: usize, lang: LangId },
    /// [`Callable::Typed`] whose code is read from a cell at each call.
    Cell { cell: usize, signature: usize, lang: LangId },
    /// An object that answers `call`. Its language is its descriptor's.
    Dynamic(Value),
    /// A member sent by its signature: to the first argument, or to the class
    /// for a static one.
    WrenMethod { class: Value, signature: Symbol, is_static: bool },
    /// A member every object of the core's own class answers by name.
    ProtocolMethod { name: Symbol },
    /// A function of the core itself.
    Core(CoreFn),
}

/// The core's own functions that an interface names.
#[derive(Clone, Copy, Debug, PartialEq, Eq, Structural)]
pub enum CoreFn {
    /// A future, not settled.
    NewFuture,
}

/// The messages a type answers. Every entry may be absent.
#[derive(Clone, Copy, Debug, PartialEq, Eq, Structural)]
pub enum Message {
    GetMember,
    SetMember,
    Invoke,
    Call,
    Index,
    SetIndex,
    Len,
    Arity,
    Iterate,
    ToText,
    Hash,
    Equals,
    UnwrapNative,
    IsError,
    ErrorMessage,
    ErrorKind,
    ErrorCause,
    ErrorTrace,
    TypeName,
    Shadow,
}

} // verus!
