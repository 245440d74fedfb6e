//! What holds of the answers that the library's own objects give.

use vstd::prelude::*;
use vstd::string::*;
use vstd::utf8::encode_utf8;

use crate::cell::cell_of;
use crate::data::enums::{
    conflicting, enum_at, field_at, first_refused, kept, made, member_of_enum, names_apart,
    param_named, plain_variant, refusal, same_enum, takes, type_named, EnumType, Made,
};
use crate::data::index_value;
use crate::describe::{EnumDesc, ParamDesc, VariantDesc};
use crate::error::{described, fnv, rendered};
use crate::future::{after_settle, future_at, invoked, rejection, InvokedView};
use crate::number::integer;
use crate::object::{
    error_of, next_address, object_at, referent, text_of, BodyView, ObjectSeq, Settlement,
};
use crate::protocol::{Fault, Reply};
use crate::registry::TypeRef;
use crate::send::{
    behind, own_arity, own_call, own_equals, own_hash, own_index, own_len, own_member, own_text,
    sent, Called, Sent,
};
use crate::symbol::name_of;
use crate::value::{ErrorKind, Value};

verus! {

// Enums.

/// An enum is found by its name.
pub proof fn law_an_enum_is_found(types: Seq<EnumType>, name: Seq<char>, i: int)
    requires
        names_apart(types),
    ensures
        type_named(types, name) == Some(i) <==> 0 <= i < types.len() && types[i].schema.name@ == name,
    decreases types.len(),
{
    if types.len() > 0 {
        let front = types.drop_last();
        assert(names_apart(front)) by {
            assert forall|a: int, b: int|
                #![trigger front[a], front[b]]
                0 <= a < b < front.len() implies front[a].schema.name@ != front[b].schema.name@ by {
                assert(front[a] == types[a] && front[b] == types[b]);
            }
        }
        law_an_enum_is_found(front, name, i);
        let _ = types[types.len() - 1];
        if 0 <= i < front.len() {
            assert(front[i] == types[i]);
        }
    }
}

/// A field takes the values of its type: whole numbers in either form where they fit,
/// other numbers, truths and texts as they are, and anything where it is dynamic.
pub proof fn law_fields_take_their_type(
    all: ObjectSeq,
    types: Seq<EnumType>,
    v: Value,
    n: i32,
    bits: u64,
)
    ensures
        takes(all, types, TypeRef::Int, Value::Int(n)),
        takes(all, types, TypeRef::Int64, Value::Int(n)),
        takes(all, types, TypeRef::Int, Value::Number(bits)) <==> (integer(bits) matches Some(w)
            && i32::MIN <= w <= i32::MAX),
        takes(all, types, TypeRef::Int64, Value::Number(bits)) <==> (integer(bits) matches Some(w)
            && i64::MIN <= w <= i64::MAX),
        takes(all, types, TypeRef::Float, v) <==> v is Number,
        takes(all, types, TypeRef::Bool, v) <==> v is Bool,
        takes(all, types, TypeRef::Str, v) <==> text_of(all, v) is Some,
        takes(all, types, TypeRef::Dyn, v),
        !takes(all, types, TypeRef::Void, v),
        !(v is Int) && !(v is Number) ==> !takes(all, types, TypeRef::Int, v) && !takes(
            all,
            types,
            TypeRef::Int64,
            v,
        ),
{
}

/// An integer field keeps the integer, in whichever form it came; the others keep
/// what they were given.
pub proof fn law_fields_keep_what_they_are_given(v: Value, n: i32, bits: u64)
    requires
        integer(bits) == Some(n as int),
    ensures
        kept(TypeRef::Int, Value::Int(n)) == Value::Int(n),
        kept(TypeRef::Int, Value::Number(bits)) == Value::Int(n),
        kept(TypeRef::Int64, v) == v,
        kept(TypeRef::Float, v) == v,
        kept(TypeRef::Bool, v) == v,
        kept(TypeRef::Str, v) == v,
        kept(TypeRef::Buffer, v) == v,
        kept(TypeRef::Dyn, v) == v,
{
}

/// The field that is refused is the first that does not take its value.
pub proof fn law_the_first_misfit_is_refused(
    all: ObjectSeq,
    types: Seq<EnumType>,
    params: Seq<ParamDesc>,
    values: Seq<Value>,
)
    requires
        params.len() == values.len(),
    ensures
        match first_refused(all, types, params, values) {
            Some(i) => {
                &&& 0 <= i < params.len()
                &&& !takes(all, types, params[i].ty, values[i])
                &&& forall|k: int|
                    0 <= k < i ==> takes(all, types, (#[trigger] params[k]).ty, values[k])
            },
            None => forall|k: int|
                0 <= k < params.len() ==> takes(all, types, (#[trigger] params[k]).ty, values[k]),
        },
    decreases params.len(),
{
    if params.len() > 0 {
        let p = params.drop_last();
        let v = values.drop_last();
        law_the_first_misfit_is_refused(all, types, p, v);
        assert forall|k: int| 0 <= k < p.len() implies p[k] == #[trigger] params[k] && v[k]
            == values[k] by {}
    }
}

/// A value of an enum is made exactly when the variant is one of its own, there are as
/// many values as fields, and each field takes its value; else it is told what was
/// wrong.
pub proof fn law_when_an_enum_is_made(
    all: ObjectSeq,
    types: Seq<EnumType>,
    ty: usize,
    index: u32,
    values: Seq<Value>,
)
    requires
        ty < types.len(),
        all.len() + 2 < usize::MAX,
    ensures
        ({
            let variants = types[ty as int].schema.variants@;
            let fields = variants[index as int].fields@;
            let fits = index < variants.len() && fields.len() == values.len() && forall|k: int|
                0 <= k < fields.len() ==> takes(all, types, (#[trigger] fields[k]).ty, values[k]);
            let (after, r) = made(all, types, ty, index, values);
            &&& fits ==> r == Made::Value(Value::Object(next_address(all))) && (enum_at(
                after,
                next_address(all),
            ) matches Some(e) && e.ty == ty && e.index == index && e.fields.len() == values.len())
            &&& !fits ==> (r matches Made::Raised(v) && error_of(after, v) matches Some(e) && e.kind
                is Type && text_of(after, e.message) == refusal(all, types, ty, index, values))
            &&& index >= variants.len() ==> refusal(all, types, ty, index, values) == Some(
                "invalid enum constructor index"@,
            )
            &&& index < variants.len() && fields.len() != values.len() ==> refusal(
                all,
                types,
                ty,
                index,
                values,
            ) == Some("invalid enum field count"@)
            &&& refusal(all, types, ty, index, values) is None <==> fits
        }),
{
    reveal_strlit("invalid enum constructor index");
    reveal_strlit("invalid enum field count");
    reveal_strlit(": invalid ");
    let variants = types[ty as int].schema.variants@;
    let fields = variants[index as int].fields@;
    if index < variants.len() && fields.len() == values.len() {
        law_the_first_misfit_is_refused(all, types, fields, values);
        if let Some(i) = first_refused(all, types, fields, values) {
            let _ = fields[i];
        }
    }
    if let Some(m) = refusal(all, types, ty, index, values) {
        assert(m.len() > 0);
        crate::laws::law_an_error_tells_what_it_was_made_with(all, ErrorKind::Type, m, 0);
    }
}

/// A misfit is told by the enum, the variant and the field.
pub proof fn law_a_misfit_is_named(
    all: ObjectSeq,
    types: Seq<EnumType>,
    ty: usize,
    index: u32,
    values: Seq<Value>,
    i: int,
)
    requires
        ty < types.len(),
        index < types[ty as int].schema.variants@.len(),
        types[ty as int].schema.variants@[index as int].fields@.len() == values.len(),
        0 <= i < values.len(),
        ({
            let fields = types[ty as int].schema.variants@[index as int].fields@;
            &&& !takes(all, types, fields[i].ty, values[i])
            &&& forall|k: int|
                0 <= k < i ==> takes(all, types, (#[trigger] fields[k]).ty, values[k])
        }),
    ensures
        ({
            let schema = types[ty as int].schema;
            let variant = schema.variants@[index as int];
            refusal(all, types, ty, index, values) == Some(
                schema.name@ + "."@ + variant.name@ + ": invalid "@ + variant.fields@[i].name@
                    + " field"@,
            )
        }),
{
    let fields = types[ty as int].schema.variants@[index as int].fields@;
    law_the_first_misfit_is_refused(all, types, fields, values);
    let _ = fields[i];
    if let Some(k) = first_refused(all, types, fields, values) {
        let _ = fields[k];
    }
}

/// A field is found by its name, the first that has it.
pub proof fn law_a_field_is_found(params: Seq<ParamDesc>, name: Seq<char>)
    ensures
        match param_named(params, name) {
            Some(i) => {
                &&& 0 <= i < params.len()
                &&& params[i].name@ == name
                &&& forall|k: int| 0 <= k < i ==> (#[trigger] params[k]).name@ != name
            },
            None => forall|k: int| 0 <= k < params.len() ==> (#[trigger] params[k]).name@ != name,
        },
    decreases params.len(),
{
    if params.len() > 0 {
        let front = params.drop_last();
        law_a_field_is_found(front, name);
        assert forall|k: int| 0 <= k < front.len() implies front[k] == #[trigger] params[k] by {}
    }
}

/// A variant that is read from its class is the first of the name that has no fields.
pub proof fn law_a_plain_variant_is_found(variants: Seq<VariantDesc>, name: Seq<char>)
    ensures
        match plain_variant(variants, name) {
            Some(i) => {
                &&& 0 <= i < variants.len()
                &&& variants[i].name@ == name
                &&& variants[i].fields@.len() == 0
                &&& forall|k: int|
                    0 <= k < i && (#[trigger] variants[k]).name@ == name
                        ==> variants[k].fields@.len() > 0
            },
            None => forall|k: int|
                0 <= k < variants.len() && (#[trigger] variants[k]).name@ == name
                    ==> variants[k].fields@.len() > 0,
        },
    decreases variants.len(),
{
    if variants.len() > 0 {
        let front = variants.drop_last();
        law_a_plain_variant_is_found(front, name);
        assert forall|k: int| 0 <= k < front.len() implies front[k] == #[trigger] variants[k] by {}
    }
}

/// A value of an enum tells its constructor's name, and each of its fields by place.
pub proof fn law_an_enum_tells_its_constructor(
    all: ObjectSeq,
    types: Seq<EnumType>,
    p: usize,
    fields: Seq<Value>,
    i: i32,
)
    requires
        all.len() + 1 < usize::MAX,
        enum_at(all, p) is Some,
    ensures
        ({
            let e = enum_at(all, p)->0;
            let (after, r) = member_of_enum(all, types, p, "constructor"@);
            r matches Ok(v) && text_of(after, v) == Some(
                types[e.ty as int].schema.variants@[e.index as int].name@,
            )
        }),
        0 <= i < fields.len() ==> field_at(fields, Value::Int(i)) == Reply::Ok(fields[i as int]),
        i < 0 || i >= fields.len() ==> field_at(fields, Value::Int(i)) == Reply::Err(Fault::Missing),
{
    reveal_strlit("tag");
    reveal_strlit("constructor");
    assert("tag"@.len() != "constructor"@.len());
}

/// A declaration is the same as itself, and the same only as one of its name, with
/// variants and fields of the same names.
pub proof fn law_the_same_enum(a: EnumDesc, b: EnumDesc, i: int, j: int)
    requires
        same_enum(a, b),
        0 <= i < a.variants@.len(),
        0 <= j < a.variants@[i].fields@.len(),
    ensures
        a.name@ == b.name@,
        a.variants@.len() == b.variants@.len(),
        a.variants@[i].name@ == b.variants@[i].name@,
        a.variants@[i].fields@.len() == b.variants@[i].fields@.len(),
        a.variants@[i].fields@[j].name@ == b.variants@[i].fields@[j].name@,
        crate::registry::same_type(a.variants@[i].fields@[j].ty, b.variants@[i].fields@[j].ty),
        conflicting(a.name@) == "conflicting enum declaration "@ + b.name@,
{
    assert(crate::data::enums::same_variant(a.variants@[i], b.variants@[i]));
    assert(crate::data::enums::same_param(
        a.variants@[i].fields@[j],
        b.variants@[i].fields@[j],
    ));
}

// Futures.

/// What rejects is an error: one that is handed in stays as it is, a text becomes the
/// message of a user error, and an object of another language is held as that
/// language's own.
pub proof fn law_what_rejects_is_an_error(all: ObjectSeq, v: Value)
    requires
        all.len() + 2 < usize::MAX,
    ensures
        ({
            let (after, e) = rejection(all, v);
            &&& error_of(after, e) is Some
            &&& error_of(all, v) is Some ==> e == v && after == all
            &&& error_of(all, v) is None ==> error_of(after, e)->0.kind is User
            &&& text_of(all, v) matches Some(t) ==> t.len() > 0 ==> text_of(
                after,
                error_of(after, e)->0.message,
            ) == Some(t) && error_of(after, e)->0.native is Null
            &&& (referent(all, v) matches Some(o) && !(o.body is Error) && !(o.body is Str))
                ==> error_of(after, e)->0.native == v && error_of(after, e)->0.origin
                == referent(all, v)->0.lang
        }),
{
    let (after, e) = rejection(all, v);
    if error_of(all, v) is None {
        match text_of(all, v) {
            Some(t) => {
                crate::laws::law_an_error_tells_what_it_was_made_with(all, ErrorKind::User, t, 0);
            },
            None => match referent(all, v) {
                Some(o) => {
                    crate::laws::law_a_foreign_error_holds_its_value(all, v, o.lang);
                },
                None => {
                    crate::laws::law_an_error_tells_what_it_was_made_with(
                        all,
                        ErrorKind::User,
                        crate::bridge::plan::description(all, v),
                        0,
                    );
                },
            },
        }
    }
}

/// A future that is resolved holds the value, one that is rejected an error; each is
/// told who waited. What is no future stays as it is.
pub proof fn law_a_future_holds_what_settled_it(all: ObjectSeq, p: usize, v: Value)
    requires
        all.len() + 2 < usize::MAX,
    ensures
        future_at(all, p) is None ==> after_settle(all, p, v, true) == (
            all,
            false,
            Seq::<u64>::empty(),
        ) && after_settle(all, p, v, false) == (all, false, Seq::<u64>::empty()),
        future_at(all, p) matches Some(f) ==> f.settlement is None ==> {
            let (resolved, _, woken) = after_settle(all, p, v, false);
            let (rejected, _, told) = after_settle(all, p, v, true);
            &&& future_at(resolved, p)->0.settlement == Some(Settlement::Resolved(v))
            &&& future_at(rejected, p) matches Some(g) && g.settlement matches Some(
                Settlement::Rejected(e),
            ) && (error_of(all, v) is Some ==> e == v)
            &&& future_at(resolved, p)->0.waiters.len() == 0
            &&& future_at(rejected, p)->0.waiters.len() == 0
            &&& woken == f.waiters
            &&& told == f.waiters
        },
{
    if future_at(all, p) is Some {
        let (now, e) = rejection(all, v);
        assert(now.len() >= all.len());
        assert(object_at(now, p) == object_at(all, p)) by {
            if error_of(all, v) is None {
                match text_of(all, v) {
                    Some(t) => {},
                    None => {},
                }
            }
        }
    }
}

/// A future answers its four messages, each with as many arguments as it has, and no
/// other.
pub proof fn law_a_future_answers(all: ObjectSeq, p: usize, name: Seq<char>, v: Value)
    requires
        future_at(all, p) is Some,
    ensures
        ({
            let none = Seq::<Value>::empty();
            let one = seq![v];
            &&& invoked(all, p, "ready"@, none) == (
                all,
                InvokedView::Reply(Ok(Value::Bool(future_at(all, p)->0.settlement is Some))),
            )
            &&& invoked(all, p, "await"@, none) == (all, InvokedView::Await)
            &&& invoked(all, p, "resolve"@, one) == (
                after_settle(all, p, v, false).0,
                InvokedView::Settled(
                    after_settle(all, p, v, false).1,
                    after_settle(all, p, v, false).2,
                ),
            )
            &&& invoked(all, p, "reject"@, one) == (
                after_settle(all, p, v, true).0,
                InvokedView::Settled(
                    after_settle(all, p, v, true).1,
                    after_settle(all, p, v, true).2,
                ),
            )
            &&& name != "ready"@ && name != "await"@ ==> invoked(all, p, name, none) == (
                all,
                InvokedView::Reply(Err(Fault::Missing)),
            )
            &&& name != "resolve"@ && name != "reject"@ ==> invoked(all, p, name, one) == (
                all,
                InvokedView::Reply(Err(Fault::Missing)),
            )
        }),
{
    reveal_strlit("ready");
    reveal_strlit("await");
    reveal_strlit("resolve");
    reveal_strlit("reject");
    assert("ready"@[0] == 'r' && "await"@[0] == 'a');
    assert("resolve"@.len() == 7 && "reject"@.len() == 6);
}

// Messages.

/// A message goes through cells to what they hold, as far as they hold one another.
pub proof fn law_messages_go_through_cells(all: ObjectSeq, p: usize)
    ensures
        cell_of(all, Value::Object(p)) is None ==> behind(all, p) == p,
        cell_of(all, Value::Object(p)) matches Some(c) && c.object.address() is None ==> behind(
            all,
            p,
        ) == 0,
        (object_at(all, behind(all, p)) matches Some(o) && o.body is Foreign) ==> sent(
            all,
            p,
            own_len(all, behind(all, p)),
        ) == Sent::<usize>::Adapter(behind(all, p)),
{
}

/// A text is as long as its bytes; a trace and an enum have as many items as were put
/// in; a buffer has its length. Nothing else has one.
pub proof fn law_lengths(all: ObjectSeq, q: usize)
    ensures
        match object_at(all, q) {
            Some(o) => match o.body {
                BodyView::Str(s) => own_len(all, q) == Ok::<usize, Fault>(
                    encode_utf8(s).len() as usize,
                ),
                BodyView::Trace(frames, _) => own_len(all, q) == Ok::<usize, Fault>(
                    frames.len() as usize,
                ),
                BodyView::Buffer { len, .. } => own_len(all, q) == Ok::<usize, Fault>(len),
                BodyView::Enum { fields, .. } => own_len(all, q) == Ok::<usize, Fault>(
                    fields.len() as usize,
                ),
                _ => own_len(all, q) == Err::<usize, Fault>(Fault::Unsupported),
            },
            None => own_len(all, q) == Err::<usize, Fault>(Fault::Unsupported),
        },
{
}

/// What is equal hashes alike: texts by their characters, functions by being the same.
/// What answers one answers the other.
pub proof fn law_equals_hash_alike(all: ObjectSeq, q: usize, r: usize)
    ensures
        own_equals(all, q, Value::Object(r)) == Ok::<bool, Fault>(true) ==> own_hash(all, q)
            == own_hash(all, r) && own_hash(all, q) is Ok,
        own_hash(all, q) is Ok <==> own_equals(all, q, Value::Object(r)) is Ok,
        text_of(all, Value::Object(q)) is Some ==> {
            &&& own_equals(all, q, Value::Object(r)) == Ok::<bool, Fault>(
                text_of(all, Value::Object(r)) == text_of(all, Value::Object(q)),
            )
            &&& own_hash(all, q) == Ok::<u64, Fault>(
                fnv(encode_utf8(text_of(all, Value::Object(q))->0)),
            )
        },
        (object_at(all, q) matches Some(o) && o.body is Function) ==> {
            &&& own_equals(all, q, Value::Object(r)) == Ok::<bool, Fault>(q == r)
            &&& own_hash(all, q) == Ok::<u64, Fault>(q as u64)
        },
        own_hash(all, q) is Err ==> own_hash(all, q)->Err_0 is Unsupported,
{
}

/// A function tells how many arguments it takes if that is known, and a constructor
/// takes its fields.
pub proof fn law_arities(all: ObjectSeq, types: Seq<EnumType>, q: usize)
    requires
        object_at(all, q) is Some,
    ensures
        match object_at(all, q)->0.body {
            BodyView::Function { arity, .. } => match arity {
                Some(n) => own_arity(all, types, q) == Ok::<usize, Fault>(n),
                None => own_arity(all, types, q) == Err::<usize, Fault>(Fault::Unsupported),
            },
            BodyView::EnumCtor { ty, index } => ty < types.len() && index
                < types[ty as int].schema.variants@.len() ==> own_arity(all, types, q) == Ok::<
                usize,
                Fault,
            >(types[ty as int].schema.variants@[index as int].fields@.len() as usize) && (ty
                >= types.len() ==> own_arity(all, types, q) == Err::<usize, Fault>(
                Fault::Unsupported,
            )),
            _ => own_arity(all, types, q) == Err::<usize, Fault>(Fault::Unsupported),
        },
{
}

/// A text is its own text; a trace, an error and a function are told as a new one.
pub proof fn law_texts_of_objects(
    all: ObjectSeq,
    langs: Seq<Seq<char>>,
    names: Seq<Seq<char>>,
    q: usize,
)
    requires
        object_at(all, q) is Some,
        all.len() + 1 < usize::MAX,
    ensures
        ({
            let (after, r) = own_text(all, langs, names, q);
            match object_at(all, q)->0.body {
                BodyView::Str(_) => after == all && r == Reply::Ok(Value::Object(q)),
                BodyView::Trace(frames, _) => r matches Ok(v) && text_of(after, v) == Some(
                    rendered(all, langs, frames),
                ),
                BodyView::Error(e) => r matches Ok(v) && text_of(after, v) == Some(
                    described(all, langs, e),
                ),
                BodyView::Function { name, .. } => r matches Ok(v) && text_of(after, v) == Some(
                    "<function "@ + name_of(names, name) + ">"@,
                ),
                _ => after == all && r == Reply::Err(Fault::Unsupported),
            }
        }),
{
}

/// Buffers and enums are read by place, and nothing else is.
pub proof fn law_places_are_read(all: ObjectSeq, q: usize, key: Value, i: usize)
    requires
        object_at(all, q) is Some,
        index_value(key) == Some(i),
    ensures
        match object_at(all, q)->0.body {
            BodyView::Buffer { .. } => {
                let bytes = crate::data::bytes_of(all, q);
                own_index(all, q, key) == if i < bytes.len() {
                    Reply::Ok(Value::Int(bytes[i as int] as i32))
                } else {
                    Reply::Err(Fault::Missing)
                }
            },
            BodyView::Enum { fields, .. } => own_index(all, q, key) == if i < fields.len() {
                Reply::Ok(fields[i as int])
            } else {
                Reply::Err(Fault::Missing)
            },
            _ => own_index(all, q, key) == Reply::Err(Fault::Unsupported),
        },
{
}

/// A function is called through what it calls, and a constructor makes a value of its
/// variant; nothing else is called.
pub proof fn law_what_is_called(all: ObjectSeq, types: Seq<EnumType>, q: usize, args: Seq<Value>)
    requires
        object_at(all, q) is Some,
    ensures
        match object_at(all, q)->0.body {
            BodyView::Function { callable, name, .. } => own_call(all, types, q, args) == (
                all,
                Ok::<Called, Fault>(Called::Through(callable, name)),
            ),
            BodyView::EnumCtor { ty, index } => ty < types.len() ==> own_call(all, types, q, args)
                == (
                made(all, types, ty, index, args).0,
                Ok::<Called, Fault>(Called::Made(made(all, types, ty, index, args).1)),
            ) && (ty >= types.len() ==> own_call(all, types, q, args) == (
                all,
                Err::<Called, Fault>(Fault::Unsupported),
            )),
            _ => own_call(all, types, q, args) == (
                all,
                Err::<Called, Fault>(Fault::Unsupported),
            ),
        },
{
}

/// An error answers for its members, an enum for its fields, and an enum's class for
/// its plain variants; nothing else has members.
pub proof fn law_who_has_members(
    all: ObjectSeq,
    types: Seq<EnumType>,
    q: usize,
    name: Seq<char>,
    i: int,
)
    requires
        object_at(all, q) is Some,
        q != 0,
    ensures
        ({
            let (after, r) = own_member(all, types, q, name);
            match object_at(all, q)->0.body {
                BodyView::Error(e) => {
                    &&& after == all
                    &&& name == "message"@ ==> r == Ok::<Made, Fault>(Made::Value(e.message))
                    &&& name == "cause"@ ==> r == Ok::<Made, Fault>(Made::Value(e.cause))
                },
                BodyView::Enum { index, .. } => {
                    &&& name == "tag"@ ==> r == Ok::<Made, Fault>(
                        Made::Value(Value::Int(index as i32)),
                    )
                },
                BodyView::EnumClass { ty } => ty < types.len() && types[ty as int].schema.variants@.len()
                    <= u32::MAX ==> {
                    &&& plain_variant(types[ty as int].schema.variants@, name) == Some(i) ==> r
                        == Ok::<Made, Fault>(made(all, types, ty, i as u32, Seq::empty()).1)
                    &&& plain_variant(types[ty as int].schema.variants@, name) is None ==> r
                        == Err::<Made, Fault>(Fault::Missing) && after == all
                },
                _ => r == Err::<Made, Fault>(Fault::Unsupported) && after == all,
            }
        }),
{
    if let BodyView::Error(e) = object_at(all, q)->0.body {
        crate::laws::law_an_error_has_its_members(e, name);
    }
}

} // verus!
