//! Binary storage and algebraic enum values shared by adapters.

use vstd::prelude::*;

use crate::cell::{unwrap, unwrapped};
use crate::number::{bits_of, integer, integer_of, place, place_of};
use crate::object::{
    core_object, next_address, object_at, with_body, Body, BodyView, Object, ObjectSeq, Objects,
};
use crate::protocol::{Fault, Reply};
use crate::value::{Value, LANG_CORE};

pub mod enums;

verus! {

/// The place a value names: an integer that is not negative, or a number that
/// is one.
pub open spec fn index_value(v: Value) -> Option<usize> {
    match v {
        Value::Int(n) => if n >= 0 {
            Some(n as usize)
        } else {
            None
        },
        Value::Number(bits) => place(bits),
        _ => None,
    }
}

/// [`index_value`].
pub fn index(v: Value) -> (r: Option<usize>)
    ensures
        r == index_value(v),
{
    match v {
        Value::Int(n) => if n >= 0 {
            Some(n as usize)
        } else {
            None
        },
        Value::Number(bits) => place_of(bits),
        _ => None,
    }
}

/// The integer a value is: an int, or a number that is a whole one and fits.
pub open spec fn integer_value(v: Value) -> Option<i64> {
    match v {
        Value::Int(n) => Some(n as i64),
        Value::Number(bits) => match integer(bits) {
            Some(n) => if i64::MIN <= n <= i64::MAX {
                Some(n as i64)
            } else {
                None
            },
            None => None,
        },
        _ => None,
    }
}

/// [`integer_value`].
pub fn int64_of(v: Value) -> (r: Option<i64>)
    ensures
        r == integer_value(v),
{
    match v {
        Value::Int(n) => Some(n as i64),
        Value::Number(bits) => integer_of(bits),
        _ => None,
    }
}

// Buffers.

/// A buffer: the storage it is part of, and how many of its bytes it has.
#[derive(Clone, Copy, Debug, PartialEq, Eq, Structural)]
pub struct BufferData {
    pub storage: usize,
    pub len: usize,
}

/// The buffer at `p`.
pub open spec fn buffer_at(all: ObjectSeq, p: usize) -> Option<BufferData> {
    match object_at(all, p) {
        Some(o) => match o.body {
            BodyView::Buffer { storage, len } => Some(BufferData { storage, len }),
            _ => None,
        },
        None => None,
    }
}

/// The storage at `p`.
pub open spec fn storage_at(all: ObjectSeq, p: usize) -> Option<Seq<u8>> {
    match object_at(all, p) {
        Some(o) => match o.body {
            BodyView::Bytes(b) => Some(b),
            _ => None,
        },
        None => None,
    }
}

/// Whether `p` is a buffer whose bytes are all in its storage.
pub open spec fn is_buffer(all: ObjectSeq, p: usize) -> bool {
    buffer_at(all, p) matches Some(b) && storage_at(all, b.storage) matches Some(bytes) && b.len
        <= bytes.len()
}

/// The bytes of the buffer at `p`.
pub open spec fn bytes_of(all: ObjectSeq, p: usize) -> Seq<u8> {
    let b = buffer_at(all, p)->0;
    storage_at(all, b.storage)->0.take(b.len as int)
}

pub open spec fn storage_object(bytes: Seq<u8>) -> crate::object::ObjectView {
    core_object(""@, BodyView::Bytes(bytes))
}

pub open spec fn buffer_object(b: BufferData) -> crate::object::ObjectView {
    core_object("caribou.Buffer"@, BodyView::Buffer { storage: b.storage, len: b.len })
}

/// A buffer with storage of its own that holds `bytes`.
pub fn buffer_new(objects: &mut Objects, bytes: &Vec<u8>) -> (p: usize)
    requires
        old(objects).room(2),
    ensures
        ({
            let storage = next_address(old(objects)@);
            &&& final(objects)@ == old(objects)@.push(storage_object(bytes@)).push(
                buffer_object(BufferData { storage, len: bytes.len() }),
            )
            &&& p == storage + 1
        }),
        is_buffer(final(objects)@, p),
        bytes_of(final(objects)@, p) == bytes@,
{
    let copied: Vec<u8> = bytes.clone();
    assert(copied@ =~= bytes@);
    let storage: usize = objects.add_object(
        Object { lang: LANG_CORE, ty_name: "".to_owned(), body: Body::Bytes(copied) },
    );
    let p: usize = buffer_share(objects, storage, bytes.len());
    assert(bytes@.take(bytes@.len() as int) =~= bytes@);
    p
}

/// A buffer of the first `len` bytes of storage that others share.
pub fn buffer_share(objects: &mut Objects, storage: usize, len: usize) -> (p: usize)
    requires
        old(objects).room(1),
        storage_at(old(objects)@, storage) matches Some(bytes) && len <= bytes.len(),
    ensures
        final(objects)@ == old(objects)@.push(buffer_object(BufferData { storage, len })),
        p == next_address(old(objects)@),
        is_buffer(final(objects)@, p),
        bytes_of(final(objects)@, p) == storage_at(old(objects)@, storage)->0.take(len as int),
{
    objects.add_object(
        Object {
            lang: LANG_CORE,
            ty_name: "caribou.Buffer".to_owned(),
            body: Body::Buffer { storage, len },
        },
    )
}

/// The buffer at `p`.
pub fn buffer_data(objects: &Objects, p: usize) -> (r: Option<BufferData>)
    ensures
        r == buffer_at(objects@, p),
{
    if !objects.has(p) {
        return None;
    }
    match &objects.get(p).body {
        Body::Buffer { storage, len } => Some(BufferData { storage: *storage, len: *len }),
        _ => None,
    }
}

/// The address of the buffer `v` is, through a cell or not.
pub open spec fn buffer_value(all: ObjectSeq, v: Value) -> Option<usize> {
    match unwrapped(all, v).address() {
        Some(p) => if buffer_at(all, p) is Some {
            Some(p)
        } else {
            None
        },
        None => None,
    }
}

/// [`buffer_value`].
pub fn buffer_of(objects: &Objects, v: Value) -> (r: Option<usize>)
    ensures
        r == buffer_value(objects@, v),
{
    match unwrap(objects, v).object_of() {
        Some(p) => match buffer_data(objects, p) {
            Some(_) => Some(p),
            None => None,
        },
        None => None,
    }
}

pub fn buffer_len(objects: &Objects, p: usize) -> (n: usize)
    requires
        is_buffer(objects@, p),
    ensures
        n == bytes_of(objects@, p).len(),
{
    match buffer_data(objects, p) {
        Some(b) => b.len,
        None => 0,
    }
}

/// What a buffer answers at a key: the byte there, or that there is none.
pub open spec fn byte_at(all: ObjectSeq, p: usize, key: Value) -> Reply {
    match index_value(key) {
        Some(i) => if i < bytes_of(all, p).len() {
            Ok(Value::Int(bytes_of(all, p)[i as int] as i32))
        } else {
            Err(Fault::Missing)
        },
        None => Err(Fault::Missing),
    }
}

pub fn buffer_index(objects: &Objects, p: usize, key: Value) -> (r: Reply)
    requires
        is_buffer(objects@, p),
    ensures
        r == byte_at(objects@, p, key),
{
    let b: BufferData = match buffer_data(objects, p) {
        Some(b) => b,
        None => {
            return Err(Fault::Missing);
        },
    };
    match index(key) {
        Some(i) => {
            if i < b.len {
                match &objects.get(b.storage).body {
                    Body::Bytes(bytes) => Ok(Value::Int(bytes[i] as i32)),
                    _ => Err(Fault::Missing),
                }
            } else {
                Err(Fault::Missing)
            }
        },
        None => Err(Fault::Missing),
    }
}

/// The place and the byte a store is of: a place of the buffer, and a value
/// that fits a byte.
pub open spec fn store_of(all: ObjectSeq, p: usize, key: Value, v: Value) -> Option<(usize, u8)> {
    match (index_value(key), index_value(v)) {
        (Some(i), Some(n)) => if i < bytes_of(all, p).len() && n <= 255 {
            Some((i, n as u8))
        } else {
            None
        },
        _ => None,
    }
}

/// The objects once the byte `n` was stored at `i` of the buffer at `p`.
pub open spec fn stored(all: ObjectSeq, p: usize, i: usize, n: u8) -> ObjectSeq {
    let b = buffer_at(all, p)->0;
    with_body(
        all,
        b.storage,
        BodyView::Bytes(storage_at(all, b.storage)->0.update(i as int, n)),
    )
}

pub fn buffer_set(objects: &mut Objects, p: usize, key: Value, v: Value) -> (r: Result<(), Fault>)
    requires
        is_buffer(old(objects)@, p),
    ensures
        is_buffer(final(objects)@, p),
        match store_of(old(objects)@, p, key, v) {
            Some((i, n)) => r is Ok && final(objects)@ == stored(old(objects)@, p, i, n),
            None => r == Err::<(), Fault>(Fault::Missing) && final(objects)@ == old(objects)@,
        },
{
    let b: BufferData = match buffer_data(objects, p) {
        Some(b) => b,
        None => {
            return Err(Fault::Missing);
        },
    };
    let i: usize = match index(key) {
        Some(i) => i,
        None => {
            return Err(Fault::Missing);
        },
    };
    if i >= b.len {
        return Err(Fault::Missing);
    }
    let n: usize = match index(v) {
        Some(n) => n,
        None => {
            return Err(Fault::Missing);
        },
    };
    if n > 255 {
        return Err(Fault::Missing);
    }
    let mut bytes: Vec<u8> = match &objects.get(b.storage).body {
        Body::Bytes(bytes) => bytes.clone(),
        _ => {
            return Err(Fault::Missing);
        },
    };
    assert(bytes@ =~= storage_at(objects@, b.storage)->0);
    bytes.set(i, n as u8);
    objects.set_body(b.storage, Body::Bytes(bytes));
    Ok(())
}

/// One step of an iteration: the state after it and the byte, or that it is
/// over. A state that names no place is the start.
pub open spec fn step_of(all: ObjectSeq, p: usize, state: Value) -> Option<(int, u8)> {
    let next = match index_value(state) {
        Some(i) => i + 1,
        None => 0,
    };
    if next < bytes_of(all, p).len() {
        Some((next, bytes_of(all, p)[next]))
    } else {
        None
    }
}

/// Whether `v` is the number `i`.
pub open spec fn names_place(v: Value, i: int) -> bool {
    v matches Value::Number(bits) && integer(bits) == Some(i)
}

/// One step of an iteration over a buffer; `Missing` when it is over. The state
/// becomes the number of the place.
pub fn buffer_iterate(objects: &Objects, p: usize, state: &mut Value) -> (r: Reply)
    requires
        is_buffer(objects@, p),
        bytes_of(objects@, p).len() <= 9007199254740992,
    ensures
        match step_of(objects@, p, *old(state)) {
            Some((i, byte)) => {
                &&& r == Ok::<Value, Fault>(Value::Int(byte as i32))
                &&& names_place(*final(state), i)
            },
            None => r == Err::<Value, Fault>(Fault::Missing) && *final(state) == *old(state),
        },
{
    let i: usize = match index(*state) {
        Some(i) => {
            if i == usize::MAX {
                return Err(Fault::Missing);
            }
            i + 1
        },
        None => 0,
    };
    if i >= buffer_len(objects, p) {
        return Err(Fault::Missing);
    }
    let bits: u64 = bits_of(i as u64);
    let r: Reply = buffer_index(objects, p, Value::Number(bits));
    *state = Value::Number(bits);
    r
}

/// Buffers that share storage share their bytes: what is stored through one is
/// read through the other, at that place and no other.
pub proof fn law_buffers_share(all: ObjectSeq, a: usize, b: usize, i: usize, n: u8, key: Value)
    requires
        is_buffer(all, a),
        is_buffer(all, b),
        buffer_at(all, a)->0.storage == buffer_at(all, b)->0.storage,
        i < bytes_of(all, a).len(),
    ensures
        ({
            let after = stored(all, a, i, n);
            &&& bytes_of(after, b).len() == bytes_of(all, b).len()
            &&& byte_at(after, b, key) == if index_value(key) == Some(i) && i < bytes_of(
                all,
                b,
            ).len() {
                Ok(Value::Int(n as i32))
            } else {
                byte_at(all, b, key)
            }
        }),
{
}

/// Iteration gives the bytes in order: from the state a step left, the next
/// step gives the byte after.
pub proof fn law_iteration_advances(all: ObjectSeq, p: usize, bits: u64, i: int)
    requires
        is_buffer(all, p),
        integer(bits) == Some(i),
        0 <= i < bytes_of(all, p).len(),
        bytes_of(all, p).len() <= usize::MAX,
    ensures
        step_of(all, p, Value::Number(bits)) == if i + 1 < bytes_of(all, p).len() {
            Some((i + 1, bytes_of(all, p)[i + 1]))
        } else {
            None
        },
{
}

} // verus!
