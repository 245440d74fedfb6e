//! The value every language can hold: a scalar, or the address of an object.

use vstd::prelude::*;

verus! {

/// A language, by the order it was registered in.
pub type LangId = u32;

/// The core's own language.
pub const LANG_CORE: u32 = 0;

/// What kind of error crossed a boundary.
#[derive(Clone, Copy, Debug, PartialEq, Eq, Structural)]
pub enum ErrorKind {
    Runtime,
    Type,
    NullAccess,
    Index,
    Arithmetic,
    User,
    Cancelled,
    StackOverflow,
    OutOfMemory,
    Internal,
}

impl ErrorKind {
    /// The kind as a number, in declaration order.
    pub open spec fn code(self) -> i32 {
        match self {
            ErrorKind::Runtime => 0,
            ErrorKind::Type => 1,
            ErrorKind::NullAccess => 2,
            ErrorKind::Index => 3,
            ErrorKind::Arithmetic => 4,
            ErrorKind::User => 5,
            ErrorKind::Cancelled => 6,
            ErrorKind::StackOverflow => 7,
            ErrorKind::OutOfMemory => 8,
            ErrorKind::Internal => 9,
        }
    }

    /// [`Self::code`].
    pub fn to_int(self) -> (n: i32)
        ensures
            n == self.code(),
    {
        match self {
            ErrorKind::Runtime => 0,
            ErrorKind::Type => 1,
            ErrorKind::NullAccess => 2,
            ErrorKind::Index => 3,
            ErrorKind::Arithmetic => 4,
            ErrorKind::User => 5,
            ErrorKind::Cancelled => 6,
            ErrorKind::StackOverflow => 7,
            ErrorKind::OutOfMemory => 8,
            ErrorKind::Internal => 9,
        }
    }
}

/// A value as it crosses between languages. A number is the bits of a double;
/// an object is its address, zero for none.
#[derive(Clone, Copy, Debug, PartialEq, Eq, Structural)]
pub enum Value {
    Null,
    Undefined,
    Bool(bool),
    Int(i32),
    Number(u64),
    Object(usize),
}

impl Value {
    /// The address of a value that is an object and not the null one.
    pub open spec fn address(self) -> Option<usize> {
        match self {
            Value::Object(p) => if p != 0 {
                Some(p)
            } else {
                None
            },
            _ => None,
        }
    }

    /// [`Self::address`].
    pub fn object_of(self) -> (r: Option<usize>)
        ensures
            r == self.address(),
    {
        match self {
            Value::Object(p) => if p != 0 {
                Some(p)
            } else {
                None
            },
            _ => None,
        }
    }

    pub fn is_null(self) -> (r: bool)
        ensures
            r == (self is Null),
    {
        match self {
            Value::Null => true,
            _ => false,
        }
    }

    pub fn as_int(self) -> (r: Option<i32>)
        ensures
            r == match self {
                Value::Int(n) => Some(n),
                _ => None,
            },
    {
        match self {
            Value::Int(n) => Some(n),
            _ => None,
        }
    }

    pub fn as_bool(self) -> (r: Option<bool>)
        ensures
            r == match self {
                Value::Bool(b) => Some(b),
                _ => None,
            },
    {
        match self {
            Value::Bool(b) => Some(b),
            _ => None,
        }
    }

    /// The bits of a number.
    pub fn as_number(self) -> (r: Option<u64>)
        ensures
            r == match self {
                Value::Number(n) => Some(n),
                _ => None,
            },
    {
        match self {
            Value::Number(n) => Some(n),
            _ => None,
        }
    }
}

} // verus!
