//! Declared enums: their types, their values, and an enum as a class whose
//! variants a language can name.

use vstd::prelude::*;

use crate::cell::{unwrap, unwrapped};
use crate::data::{buffer_of, buffer_value, index, index_value, int64_of, integer_value};
use crate::describe::{EnumDesc, ParamDesc, VariantDesc};
use crate::error::{with_error, Error, Str};
use crate::future::{self, future_value};
use crate::native::{type_of_kind, type_ref};
use crate::object::{
    core_object, next_address, object_at, str_object, text_of, Body, BodyView, Object, ObjectSeq,
    ObjectView, Objects,
};
use crate::protocol::{Fault, Reply};
use crate::registry::{same_type, TypeRef};
use crate::symbol::{is_table, name_of, Symbol, SymbolTable};
use crate::text::{cat, same_text};
use crate::value::{ErrorKind, LangId, Value, LANG_CORE};

verus! {

/// A registered declaration, and the language it is of.
pub struct EnumType {
    pub schema: EnumDesc,
    pub lang: LangId,
}

/// The declarations, one per fully qualified name.
pub struct EnumTypes {
    pub types: Vec<EnumType>,
}

/// Whether two parameters are the same name of the same type.
pub open spec fn same_param(a: ParamDesc, b: ParamDesc) -> bool {
    a.name@ == b.name@ && same_type(a.ty, b.ty)
}

/// Whether two variants have the same name and fields.
pub open spec fn same_variant(a: VariantDesc, b: VariantDesc) -> bool {
    &&& a.name@ == b.name@
    &&& a.fields@.len() == b.fields@.len()
    &&& forall|i: int| 0 <= i < a.fields@.len() ==> same_param(#[trigger] a.fields@[i], b.fields@[i])
}

/// Whether two declarations are one.
pub open spec fn same_enum(a: EnumDesc, b: EnumDesc) -> bool {
    &&& a.name@ == b.name@
    &&& a.variants@.len() == b.variants@.len()
    &&& forall|i: int|
        0 <= i < a.variants@.len() ==> same_variant(#[trigger] a.variants@[i], b.variants@[i])
}

fn variants_same(a: &VariantDesc, b: &VariantDesc) -> (r: bool)
    ensures
        r == same_variant(*a, *b),
{
    if !same_text(a.name.as_str(), b.name.as_str()) || a.fields.len() != b.fields.len() {
        return false;
    }
    let mut i: usize = 0;
    while i < a.fields.len()
        invariant
            i <= a.fields.len(),
            a.name@ == b.name@,
            a.fields.len() == b.fields.len(),
            forall|k: int| 0 <= k < i ==> same_param(#[trigger] a.fields@[k], b.fields@[k]),
        decreases a.fields.len() - i,
    {
        if !same_text(a.fields[i].name.as_str(), b.fields[i].name.as_str()) || !a.fields[i].ty.same(
            &b.fields[i].ty,
        ) {
            assert(!same_param(a.fields@[i as int], b.fields@[i as int]));
            return false;
        }
        i = i + 1;
    }
    true
}

fn enums_same(a: &EnumDesc, b: &EnumDesc) -> (r: bool)
    ensures
        r == same_enum(*a, *b),
{
    if !same_text(a.name.as_str(), b.name.as_str()) || a.variants.len() != b.variants.len() {
        return false;
    }
    let mut i: usize = 0;
    while i < a.variants.len()
        invariant
            i <= a.variants.len(),
            a.name@ == b.name@,
            a.variants.len() == b.variants.len(),
            forall|k: int| 0 <= k < i ==> same_variant(#[trigger] a.variants@[k], b.variants@[k]),
        decreases a.variants.len() - i,
    {
        if !variants_same(&a.variants[i], &b.variants[i]) {
            assert(!same_variant(a.variants@[i as int], b.variants@[i as int]));
            return false;
        }
        i = i + 1;
    }
    true
}

/// Which declaration has the name.
pub open spec fn type_named(types: Seq<EnumType>, name: Seq<char>) -> Option<int>
    decreases types.len(),
{
    if types.len() == 0 {
        None
    } else if types.last().schema.name@ == name {
        Some(types.len() - 1)
    } else {
        type_named(types.drop_last(), name)
    }
}

pub open spec fn names_apart(types: Seq<EnumType>) -> bool {
    forall|i: int, j: int|
        #![trigger types[i], types[j]]
        0 <= i < j < types.len() ==> types[i].schema.name@ != types[j].schema.name@
}

proof fn lemma_named_none(types: Seq<EnumType>, name: Seq<char>)
    requires
        forall|i: int| 0 <= i < types.len() ==> (#[trigger] types[i]).schema.name@ != name,
    ensures
        type_named(types, name) is None,
    decreases types.len(),
{
    if types.len() > 0 {
        let init = types.drop_last();
        assert forall|i: int| 0 <= i < init.len() implies (#[trigger] init[i]).schema.name@
            != name by {
            assert(init[i] == types[i]);
        }
        lemma_named_none(init, name);
    }
}

proof fn lemma_named_at(types: Seq<EnumType>, i: int)
    requires
        names_apart(types),
        0 <= i < types.len(),
    ensures
        type_named(types, types[i].schema.name@) == Some(i),
    decreases types.len(),
{
    if i < types.len() - 1 {
        let init = types.drop_last();
        assert(init[i] == types[i]);
        assert(names_apart(init)) by {
            assert forall|a: int, b: int|
                #![trigger init[a], init[b]]
                0 <= a < b < init.len() implies init[a].schema.name@ != init[b].schema.name@ by {
                assert(init[a] == types[a] && init[b] == types[b]);
            }
        }
        lemma_named_at(init, i);
        assert(types[i].schema.name@ != types[types.len() - 1].schema.name@);
    }
}

/// The refusal of a second declaration under one name.
pub open spec fn conflicting(name: Seq<char>) -> Seq<char> {
    "conflicting enum declaration "@ + name
}

impl EnumTypes {
    pub open spec fn inv(&self) -> bool {
        names_apart(self.types@)
    }

    pub fn new() -> (t: EnumTypes)
        ensures
            t.inv(),
            t.types@ == Seq::<EnumType>::empty(),
    {
        EnumTypes { types: Vec::new() }
    }

    /// Which declaration has the name.
    pub fn enum_type(&self, name: &str) -> (r: Option<usize>)
        requires
            self.inv(),
        ensures
            match type_named(self.types@, name@) {
                Some(i) => r matches Some(k) && k == i && k < self.types@.len()
                    && self.types@[i].schema.name@ == name@,
                None => r is None && forall|k: int|
                    0 <= k < self.types@.len() ==> (#[trigger] self.types@[k]).schema.name@
                        != name@,
            },
    {
        let mut i: usize = 0;
        while i < self.types.len()
            invariant
                self.inv(),
                i <= self.types.len(),
                forall|k: int| 0 <= k < i ==> (#[trigger] self.types@[k]).schema.name@ != name@,
            decreases self.types.len() - i,
        {
            if same_text(self.types[i].schema.name.as_str(), name) {
                proof {
                    lemma_named_at(self.types@, i as int);
                }
                return Some(i);
            }
            i = i + 1;
        }
        proof {
            lemma_named_none(self.types@, name@);
        }
        None
    }

    /// Register a declaration once per fully qualified name: its number. The
    /// same declaration again has the number it had; another one under the
    /// name is refused.
    pub fn register_enum(&mut self, schema: EnumDesc, lang: LangId) -> (r: Result<usize, String>)
        requires
            old(self).inv(),
        ensures
            final(self).inv(),
            match type_named(old(self).types@, schema.name@) {
                Some(i) => {
                    &&& final(self).types@ == old(self).types@
                    &&& if same_enum(old(self).types@[i].schema, schema) {
                        r matches Ok(k) && k == i
                    } else {
                        r matches Err(m) && m@ == conflicting(schema.name@)
                    }
                },
                None => {
                    &&& final(self).types@ == old(self).types@.push(EnumType { schema, lang })
                    &&& r matches Ok(k) && k == old(self).types@.len()
                },
            },
    {
        match self.enum_type(schema.name.as_str()) {
            Some(i) => {
                if enums_same(&self.types[i].schema, &schema) {
                    Ok(i)
                } else {
                    Err(cat("conflicting enum declaration ", schema.name.as_str()))
                }
            },
            None => {
                let k: usize = self.types.len();
                let ghost was = self.types@;
                self.types.push(EnumType { schema, lang });
                proof {
                    let now = self.types@;
                    assert forall|a: int, b: int|
                        #![trigger now[a], now[b]]
                        0 <= a < b < now.len() implies now[a].schema.name@
                        != now[b].schema.name@ by {
                        assert(now[a] == was[a]);
                        if b < was.len() {
                            assert(now[b] == was[b]);
                        }
                    }
                }
                Ok(k)
            },
        }
    }
}

// Declarations as a plugin spells them.

/// How a plugin spells the type of a field.
#[derive(Debug)]
pub enum FieldTag {
    Int64,
    Buffer,
    Enum(String),
    /// A scalar kind.
    Kind(u32),
}

#[derive(Debug)]
pub struct FieldDecl {
    pub name: String,
    pub tag: FieldTag,
}

#[derive(Debug)]
pub struct VariantDecl {
    pub name: String,
    pub fields: Vec<FieldDecl>,
}

#[derive(Debug)]
pub struct EnumDecl {
    pub name: String,
    pub variants: Vec<VariantDecl>,
}

/// Whether `ty` is the type a field is declared with.
pub open spec fn is_field_type(ty: TypeRef, tag: FieldTag) -> bool {
    match tag {
        FieldTag::Int64 => ty == TypeRef::Int64,
        FieldTag::Buffer => ty == TypeRef::Buffer,
        FieldTag::Enum(name) => ty matches TypeRef::Enum(n) && n@ == name@,
        FieldTag::Kind(kind) => ty == type_of_kind(kind),
    }
}

/// Whether a variant is described as it was declared.
pub open spec fn is_variant(v: VariantDesc, d: VariantDecl) -> bool {
    &&& v.name@ == d.name@
    &&& v.fields@.len() == d.fields@.len()
    &&& forall|i: int|
        0 <= i < v.fields@.len() ==> (#[trigger] v.fields@[i]).name@ == d.fields@[i].name@
            && is_field_type(v.fields@[i].ty, d.fields@[i].tag)
}

fn field_type(tag: &FieldTag) -> (ty: TypeRef)
    ensures
        is_field_type(ty, *tag),
{
    match tag {
        FieldTag::Int64 => TypeRef::Int64,
        FieldTag::Buffer => TypeRef::Buffer,
        FieldTag::Enum(name) => TypeRef::Enum(name.clone()),
        FieldTag::Kind(kind) => type_ref(*kind),
    }
}

fn describe_variant(d: &VariantDecl) -> (v: VariantDesc)
    ensures
        is_variant(v, *d),
{
    let mut fields: Vec<ParamDesc> = Vec::new();
    let mut i: usize = 0;
    while i < d.fields.len()
        invariant
            i <= d.fields.len(),
            fields@.len() == i,
            forall|k: int|
                0 <= k < i ==> (#[trigger] fields@[k]).name@ == d.fields@[k].name@
                    && is_field_type(fields@[k].ty, d.fields@[k].tag),
        decreases d.fields.len() - i,
    {
        fields.push(
            ParamDesc { name: d.fields[i].name.clone(), ty: field_type(&d.fields[i].tag) },
        );
        i = i + 1;
    }
    VariantDesc { name: d.name.clone(), fields }
}

/// Translate a declaration once, while its plugin is loaded.
pub fn describe_enum(d: &EnumDecl) -> (e: EnumDesc)
    ensures
        e.name@ == d.name@,
        e.variants@.len() == d.variants@.len(),
        forall|i: int|
            0 <= i < e.variants@.len() ==> is_variant(#[trigger] e.variants@[i], d.variants@[i]),
{
    let mut variants: Vec<VariantDesc> = Vec::new();
    let mut i: usize = 0;
    while i < d.variants.len()
        invariant
            i <= d.variants.len(),
            variants@.len() == i,
            forall|k: int|
                0 <= k < i ==> is_variant(#[trigger] variants@[k], d.variants@[k]),
        decreases d.variants.len() - i,
    {
        variants.push(describe_variant(&d.variants[i]));
        i = i + 1;
    }
    EnumDesc { name: d.name.clone(), variants }
}

// Values.

/// An enum value: its type, its variant and its fields.
pub ghost struct EnumView {
    pub ty: usize,
    pub index: u32,
    pub fields: Seq<Value>,
}

/// The enum value at `p`.
pub open spec fn enum_at(all: ObjectSeq, p: usize) -> Option<EnumView> {
    match object_at(all, p) {
        Some(o) => match o.body {
            BodyView::Enum { ty, index, fields } => Some(EnumView { ty, index, fields }),
            _ => None,
        },
        None => None,
    }
}

/// Whether `p` is an enum value of a variant of a registered type, with the
/// fields the variant declares.
pub open spec fn is_enum(all: ObjectSeq, types: Seq<EnumType>, p: usize) -> bool {
    enum_at(all, p) matches Some(e) && e.ty < types.len() && e.index
        < types[e.ty as int].schema.variants@.len() && e.fields.len()
        == types[e.ty as int].schema.variants@[e.index as int].fields@.len()
}

/// The address of the enum value `v` is, through a cell or not.
pub open spec fn enum_value(all: ObjectSeq, v: Value) -> Option<usize> {
    match unwrapped(all, v).address() {
        Some(p) => if enum_at(all, p) is Some {
            Some(p)
        } else {
            None
        },
        None => None,
    }
}

/// [`enum_value`].
pub fn enum_of(objects: &Objects, v: Value) -> (r: Option<usize>)
    ensures
        r == enum_value(objects@, v),
{
    match unwrap(objects, v).object_of() {
        Some(p) => {
            if !objects.has(p) {
                return None;
            }
            match &objects.get(p).body {
                Body::Enum { ty, index, fields } => Some(p),
                _ => None,
            }
        },
        None => None,
    }
}

/// The type, the variant and the fields of the enum value at `p`.
pub fn enum_data(objects: &Objects, p: usize) -> (r: Option<(usize, u32, &Vec<Value>)>)
    ensures
        match enum_at(objects@, p) {
            Some(e) => r matches Some((ty, index, fields)) && ty == e.ty && index == e.index
                && fields@ == e.fields,
            None => r is None,
        },
{
    if !objects.has(p) {
        return None;
    }
    match &objects.get(p).body {
        Body::Enum { ty, index, fields } => Some((*ty, *index, fields)),
        _ => None,
    }
}

/// Whether a field of type `ty` takes `v`.
pub open spec fn takes(all: ObjectSeq, types: Seq<EnumType>, ty: TypeRef, v: Value) -> bool {
    match ty {
        TypeRef::Int => integer_value(v) matches Some(n) && i32::MIN <= n <= i32::MAX,
        TypeRef::Int64 => integer_value(v) is Some,
        TypeRef::Float => v is Number,
        TypeRef::Bool => v is Bool,
        TypeRef::Str => text_of(all, v) is Some,
        TypeRef::Buffer => buffer_value(all, v) is Some,
        TypeRef::Future(_) => future_value(all, v) is Some,
        TypeRef::Enum(name) => enum_value(all, v) matches Some(p) && is_of(all, types, p, name@),
        TypeRef::Dyn => true,
        _ => false,
    }
}

/// Whether the enum value at `p` is of the type of that name.
pub open spec fn is_of(all: ObjectSeq, types: Seq<EnumType>, p: usize, name: Seq<char>) -> bool {
    enum_at(all, p) matches Some(e) && e.ty < types.len() && types[e.ty as int].schema.name@ == name
}

/// [`takes`].
pub fn accepts(objects: &Objects, types: &EnumTypes, ty: &TypeRef, v: Value) -> (r: bool)
    ensures
        r == takes(objects@, types.types@, *ty, v),
{
    match ty {
        TypeRef::Int => match int64_of(v) {
            Some(n) => i32::MIN as i64 <= n && n <= i32::MAX as i64,
            None => false,
        },
        TypeRef::Int64 => int64_of(v).is_some(),
        TypeRef::Float => v.as_number().is_some(),
        TypeRef::Bool => v.as_bool().is_some(),
        TypeRef::Str => objects.text(v).is_some(),
        TypeRef::Buffer => buffer_of(objects, v).is_some(),
        TypeRef::Future(_) => future::of(objects, v).is_some(),
        TypeRef::Enum(name) => match enum_of(objects, v) {
            Some(p) => match enum_data(objects, p) {
                Some((t, _, _)) => t < types.types.len() && same_text(
                    types.types[t].schema.name.as_str(),
                    name.as_str(),
                ),
                None => false,
            },
            None => false,
        },
        TypeRef::Dyn => true,
        _ => false,
    }
}

/// The first field that does not take its value.
pub open spec fn first_refused(
    all: ObjectSeq,
    types: Seq<EnumType>,
    params: Seq<ParamDesc>,
    values: Seq<Value>,
) -> Option<int>
    decreases params.len(),
{
    if params.len() == 0 {
        None
    } else {
        match first_refused(all, types, params.drop_last(), values.drop_last()) {
            Some(i) => Some(i),
            None => if takes(all, types, params.last().ty, values.last()) {
                None
            } else {
                Some(params.len() - 1)
            },
        }
    }
}

/// Why a value cannot be made.
pub open spec fn refusal(
    all: ObjectSeq,
    types: Seq<EnumType>,
    ty: usize,
    index: u32,
    values: Seq<Value>,
) -> Option<Seq<char>> {
    let schema = types[ty as int].schema;
    if index >= schema.variants@.len() {
        Some("invalid enum constructor index"@)
    } else {
        let variant = schema.variants@[index as int];
        if variant.fields@.len() != values.len() {
            Some("invalid enum field count"@)
        } else {
            match first_refused(all, types, variant.fields@, values) {
                Some(i) => Some(invalid_field(schema.name@, variant.name@, variant.fields@[i].name@)),
                None => None,
            }
        }
    }
}

pub open spec fn invalid_field(
    name: Seq<char>,
    variant: Seq<char>,
    field: Seq<char>,
) -> Seq<char> {
    name + "."@ + variant + ": invalid "@ + field + " field"@
}

/// A field's value as it is kept: an integer field keeps an int.
pub open spec fn kept(ty: TypeRef, v: Value) -> Value {
    match ty {
        TypeRef::Int => Value::Int(integer_value(v)->0 as i32),
        _ => v,
    }
}

pub open spec fn kept_all(params: Seq<ParamDesc>, values: Seq<Value>) -> Seq<Value> {
    Seq::new(params.len(), |i: int| kept(params[i].ty, values[i]))
}

/// A new enum value.
pub open spec fn enum_object(
    types: Seq<EnumType>,
    ty: usize,
    index: u32,
    values: Seq<Value>,
) -> ObjectView {
    let t = types[ty as int];
    ObjectView {
        lang: t.lang,
        ty_name: t.schema.name@,
        body: BodyView::Enum {
            ty,
            index,
            fields: kept_all(t.schema.variants@[index as int].fields@, values),
        },
    }
}

/// The first refused among the first `n` is the first of all.
proof fn lemma_refused_stays(
    all: ObjectSeq,
    types: Seq<EnumType>,
    params: Seq<ParamDesc>,
    values: Seq<Value>,
    n: int,
)
    requires
        0 <= n <= params.len(),
        params.len() == values.len(),
        first_refused(all, types, params.take(n), values.take(n)) is Some,
    ensures
        first_refused(all, types, params, values) == first_refused(
            all,
            types,
            params.take(n),
            values.take(n),
        ),
    decreases params.len() - n,
{
    if n == params.len() {
        assert(params.take(n) =~= params);
        assert(values.take(n) =~= values);
    } else {
        assert(params.take(n + 1).drop_last() =~= params.take(n));
        assert(values.take(n + 1).drop_last() =~= values.take(n));
        lemma_refused_stays(all, types, params, values, n + 1);
    }
}

/// The first field that does not take its value.
fn find_refused(
    objects: &Objects,
    types: &EnumTypes,
    params: &Vec<ParamDesc>,
    values: &Vec<Value>,
) -> (r: Option<usize>)
    requires
        params@.len() == values@.len(),
    ensures
        match first_refused(objects@, types.types@, params@, values@) {
            Some(i) => r matches Some(k) && k == i && k < params@.len(),
            None => r is None && forall|k: int|
                #![trigger params@[k]]
                0 <= k < params@.len() ==> takes(
                    objects@,
                    types.types@,
                    params@[k].ty,
                    values@[k],
                ),
        },
{
    let mut i: usize = 0;
    assert(params@.take(0) =~= Seq::<ParamDesc>::empty());
    while i < params.len()
        invariant
            i <= params.len(),
            params@.len() == values@.len(),
            first_refused(
                objects@,
                types.types@,
                params@.take(i as int),
                values@.take(i as int),
            ) is None,
            forall|k: int|
                #![trigger params@[k]]
                0 <= k < i ==> takes(objects@, types.types@, params@[k].ty, values@[k]),
        decreases params.len() - i,
    {
        assert(params@.take(i + 1).drop_last() =~= params@.take(i as int));
        assert(values@.take(i + 1).drop_last() =~= values@.take(i as int));
        if !accepts(objects, types, &params[i].ty, values[i]) {
            proof {
                lemma_refused_stays(objects@, types.types@, params@, values@, i + 1);
            }
            return Some(i);
        }
        i = i + 1;
    }
    assert(params@.take(i as int) =~= params@);
    assert(values@.take(i as int) =~= values@);
    None
}

/// A value of variant `index` of the type numbered `ty`: its fields are checked,
/// and an integer field keeps an int.
pub fn enum_new(
    objects: &mut Objects,
    types: &EnumTypes,
    ty: usize,
    index: u32,
    values: &Vec<Value>,
) -> (r: Result<usize, String>)
    requires
        old(objects).room(1),
        ty < types.types@.len(),
    ensures
        match refusal(old(objects)@, types.types@, ty, index, values@) {
            Some(m) => (r matches Err(e) && e@ == m) && final(objects)@ == old(objects)@,
            None => {
                &&& r matches Ok(p) && p == next_address(old(objects)@) && is_enum(
                    final(objects)@,
                    types.types@,
                    p,
                )
                &&& final(objects)@ == old(objects)@.push(
                    enum_object(types.types@, ty, index, values@),
                )
            },
        },
{
    let schema: &EnumDesc = &types.types[ty].schema;
    if index as usize >= schema.variants.len() {
        return Err("invalid enum constructor index".to_owned());
    }
    let variant: &VariantDesc = &schema.variants[index as usize];
    if variant.fields.len() != values.len() {
        return Err("invalid enum field count".to_owned());
    }
    if let Some(i) = find_refused(objects, types, &variant.fields, values) {
        let mut m: String = cat(schema.name.as_str(), ".");
        m.append(variant.name.as_str());
        m.append(": invalid ");
        m.append(variant.fields[i].name.as_str());
        m.append(" field");
        return Err(m);
    }
    let mut fields: Vec<Value> = Vec::new();
    let mut i: usize = 0;
    while i < values.len()
        invariant
            i <= values.len(),
            variant.fields.len() == values.len(),
            fields.len() == i,
            forall|k: int|
                #![trigger variant.fields@[k]]
                0 <= k < variant.fields@.len() ==> takes(
                    objects@,
                    types.types@,
                    variant.fields@[k].ty,
                    values@[k],
                ),
            forall|k: int|
                0 <= k < i ==> #[trigger] fields@[k] == kept(variant.fields@[k].ty, values@[k]),
        decreases values.len() - i,
    {
        assert(takes(objects@, types.types@, variant.fields@[i as int].ty, values@[i as int]));
        let v: Value = match &variant.fields[i].ty {
            TypeRef::Int => match int64_of(values[i]) {
                Some(n) => Value::Int(n as i32),
                None => values[i],
            },
            _ => values[i],
        };
        fields.push(v);
        i = i + 1;
    }
    assert(fields@ =~= kept_all(variant.fields@, values@));
    let p: usize = objects.add_object(
        Object {
            lang: types.types[ty].lang,
            ty_name: schema.name.as_str().to_owned(),
            body: Body::Enum { ty, index, fields },
        },
    );
    Ok(p)
}

/// How many fields the enum value at `p` has.
pub fn enum_len(objects: &Objects, p: usize) -> (r: Option<usize>)
    ensures
        match enum_at(objects@, p) {
            Some(e) => r matches Some(n) && n == e.fields.len(),
            None => r is None,
        },
{
    match enum_data(objects, p) {
        Some((_, _, fields)) => Some(fields.len()),
        None => None,
    }
}

/// What an enum value answers at a key: the field there.
pub open spec fn field_at(fields: Seq<Value>, key: Value) -> Reply {
    match index_value(key) {
        Some(i) => if i < fields.len() {
            Ok(fields[i as int])
        } else {
            Err(Fault::Missing)
        },
        None => Err(Fault::Missing),
    }
}

pub fn enum_index(objects: &Objects, p: usize, key: Value) -> (r: Reply)
    requires
        enum_at(objects@, p) is Some,
    ensures
        r == field_at(enum_at(objects@, p)->0.fields, key),
{
    match enum_data(objects, p) {
        Some((_, _, fields)) => match index(key) {
            Some(i) => if i < fields.len() {
                Ok(fields[i])
            } else {
                Err(Fault::Missing)
            },
            None => Err(Fault::Missing),
        },
        None => Err(Fault::Missing),
    }
}

/// The first field of that name.
pub open spec fn param_named(params: Seq<ParamDesc>, name: Seq<char>) -> Option<int>
    decreases params.len(),
{
    if params.len() == 0 {
        None
    } else {
        match param_named(params.drop_last(), name) {
            Some(i) => Some(i),
            None => if params.last().name@ == name {
                Some(params.len() - 1)
            } else {
                None
            },
        }
    }
}

proof fn lemma_param_stays(params: Seq<ParamDesc>, name: Seq<char>, n: int)
    requires
        0 <= n <= params.len(),
        param_named(params.take(n), name) is Some,
    ensures
        param_named(params, name) == param_named(params.take(n), name),
    decreases params.len() - n,
{
    if n == params.len() {
        assert(params.take(n) =~= params);
    } else {
        assert(params.take(n + 1).drop_last() =~= params.take(n));
        lemma_param_stays(params, name, n + 1);
    }
}

fn find_param(params: &Vec<ParamDesc>, name: &str) -> (r: Option<usize>)
    ensures
        match param_named(params@, name@) {
            Some(i) => r matches Some(k) && k == i && k < params@.len(),
            None => r is None,
        },
{
    let mut i: usize = 0;
    assert(params@.take(0) =~= Seq::<ParamDesc>::empty());
    while i < params.len()
        invariant
            i <= params.len(),
            param_named(params@.take(i as int), name@) is None,
        decreases params.len() - i,
    {
        assert(params@.take(i + 1).drop_last() =~= params@.take(i as int));
        if same_text(params[i].name.as_str(), name) {
            proof {
                lemma_param_stays(params@, name@, i + 1);
            }
            return Some(i);
        }
        i = i + 1;
    }
    assert(params@.take(i as int) =~= params@);
    None
}

/// What an enum value answers of a member: `tag`, the variant's number;
/// `constructor`, its name, as a new string; or the field of that name.
pub open spec fn member_of_enum(
    all: ObjectSeq,
    types: Seq<EnumType>,
    p: usize,
    name: Seq<char>,
) -> (ObjectSeq, Reply) {
    let e = enum_at(all, p)->0;
    let variant = types[e.ty as int].schema.variants@[e.index as int];
    if name == "tag"@ {
        (all, Ok(Value::Int(e.index as i32)))
    } else if name == "constructor"@ {
        (all.push(str_object(variant.name@)), Ok(Value::Object(next_address(all))))
    } else {
        match param_named(variant.fields@, name) {
            Some(i) => (all, Ok(e.fields[i])),
            None => (all, Err(Fault::Missing)),
        }
    }
}

pub fn enum_member(
    objects: &mut Objects,
    types: &EnumTypes,
    table: &SymbolTable,
    p: usize,
    name: Symbol,
) -> (r: Reply)
    requires
        old(objects).room(1),
        is_enum(old(objects)@, types.types@, p),
        is_table(table@),
    ensures
        (final(objects)@, r) == member_of_enum(
            old(objects)@,
            types.types@,
            p,
            name_of(table@, name),
        ),
{
    let name: &str = table.name(name);
    let (ty, tag, value): (usize, u32, Option<Value>) = match enum_data(objects, p) {
        Some((ty, tag, fields)) => {
            let variant: &VariantDesc = &types.types[ty].schema.variants[tag as usize];
            let value: Option<Value> = match find_param(&variant.fields, name) {
                Some(i) => Some(fields[i]),
                None => None,
            };
            (ty, tag, value)
        },
        None => {
            return Err(Fault::Missing);
        },
    };
    if same_text(name, "tag") {
        return Ok(Value::Int(tag as i32));
    }
    if same_text(name, "constructor") {
        let v: Value = Str::new(
            objects,
            types.types[ty].schema.variants[tag as usize].name.as_str(),
        );
        return Ok(v);
    }
    match value {
        Some(v) => Ok(v),
        None => Err(Fault::Missing),
    }
}

// An enum as a class.

/// What making a value through a class or a constructor comes to.
#[derive(Clone, Copy, Debug, PartialEq, Eq, Structural)]
pub enum Made {
    Value(Value),
    Missing,
    /// The error that is then pending.
    Raised(Value),
}

/// The objects and the answer once a value was asked for: a refusal is raised as
/// a `Type` error.
pub open spec fn made(
    all: ObjectSeq,
    types: Seq<EnumType>,
    ty: usize,
    index: u32,
    values: Seq<Value>,
) -> (ObjectSeq, Made) {
    match refusal(all, types, ty, index, values) {
        Some(m) => (
            with_error(all, ErrorKind::Type, m, LANG_CORE),
            Made::Raised(Value::Object(next_address(all))),
        ),
        None => (
            all.push(enum_object(types, ty, index, values)),
            Made::Value(Value::Object(next_address(all))),
        ),
    }
}

fn make(
    objects: &mut Objects,
    types: &EnumTypes,
    ty: usize,
    index: u32,
    values: &Vec<Value>,
) -> (r: Made)
    requires
        old(objects).room(2),
        ty < types.types@.len(),
    ensures
        (final(objects)@, r) == made(old(objects)@, types.types@, ty, index, values@),
{
    match enum_new(objects, types, ty, index, values) {
        Ok(p) => Made::Value(Value::Object(p)),
        Err(m) => Made::Raised(Error::new(objects, ErrorKind::Type, m.as_str(), LANG_CORE)),
    }
}

/// A declared enum as a class object: each fieldless variant is a member.
pub fn enum_class(objects: &mut Objects, ty: usize) -> (v: Value)
    requires
        old(objects).room(1),
    ensures
        v == Value::Object(next_address(old(objects)@)),
        final(objects)@ == old(objects)@.push(
            core_object("caribou.EnumClass"@, BodyView::EnumClass { ty }),
        ),
{
    Value::Object(
        objects.add_object(
            Object {
                lang: LANG_CORE,
                ty_name: "caribou.EnumClass".to_owned(),
                body: Body::EnumClass { ty },
            },
        ),
    )
}

/// Variant `index` of an enum as a function of its fields.
pub fn enum_constructor(objects: &mut Objects, ty: usize, index: u32) -> (v: Value)
    requires
        old(objects).room(1),
    ensures
        v == Value::Object(next_address(old(objects)@)),
        final(objects)@ == old(objects)@.push(
            core_object("caribou.EnumConstructor"@, BodyView::EnumCtor { ty, index }),
        ),
{
    Value::Object(
        objects.add_object(
            Object {
                lang: LANG_CORE,
                ty_name: "caribou.EnumConstructor".to_owned(),
                body: Body::EnumCtor { ty, index },
            },
        ),
    )
}

/// The first fieldless variant of that name.
pub open spec fn plain_variant(variants: Seq<VariantDesc>, name: Seq<char>) -> Option<int>
    decreases variants.len(),
{
    if variants.len() == 0 {
        None
    } else {
        match plain_variant(variants.drop_last(), name) {
            Some(i) => Some(i),
            None => if variants.last().name@ == name && variants.last().fields@.len() == 0 {
                Some(variants.len() - 1)
            } else {
                None
            },
        }
    }
}

proof fn lemma_variant_stays(variants: Seq<VariantDesc>, name: Seq<char>, n: int)
    requires
        0 <= n <= variants.len(),
        plain_variant(variants.take(n), name) is Some,
    ensures
        plain_variant(variants, name) == plain_variant(variants.take(n), name),
    decreases variants.len() - n,
{
    if n == variants.len() {
        assert(variants.take(n) =~= variants);
    } else {
        assert(variants.take(n + 1).drop_last() =~= variants.take(n));
        lemma_variant_stays(variants, name, n + 1);
    }
}

/// What an enum's class answers of a member: a value of the fieldless variant
/// of that name.
pub fn class_member(
    objects: &mut Objects,
    types: &EnumTypes,
    table: &SymbolTable,
    ty: usize,
    name: Symbol,
) -> (r: Made)
    requires
        old(objects).room(2),
        ty < types.types@.len(),
        types.types@[ty as int].schema.variants@.len() <= u32::MAX,
        is_table(table@),
    ensures
        (final(objects)@, r) == match plain_variant(
            types.types@[ty as int].schema.variants@,
            name_of(table@, name),
        ) {
            Some(i) => made(old(objects)@, types.types@, ty, i as u32, Seq::empty()),
            None => (old(objects)@, Made::Missing),
        },
{
    let text: &str = table.name(name);
    let variants: &Vec<VariantDesc> = &types.types[ty].schema.variants;
    let mut i: usize = 0;
    assert(variants@.take(0) =~= Seq::<VariantDesc>::empty());
    while i < variants.len()
        invariant
            i <= variants.len(),
            variants@ == types.types@[ty as int].schema.variants@,
            variants@.len() <= u32::MAX,
            ty < types.types@.len(),
            objects@ == old(objects)@,
            objects.room(2),
            plain_variant(variants@.take(i as int), text@) is None,
            text@ == name_of(table@, name),
        decreases variants.len() - i,
    {
        assert(variants@.take(i + 1).drop_last() =~= variants@.take(i as int));
        if same_text(variants[i].name.as_str(), text) && variants[i].fields.len() == 0 {
            proof {
                lemma_variant_stays(variants@, text@, i + 1);
            }
            let none: Vec<Value> = Vec::new();
            assert(none@ =~= Seq::<Value>::empty());
            return make(objects, types, ty, i as u32, &none);
        }
        i = i + 1;
    }
    assert(variants@.take(i as int) =~= variants@);
    Made::Missing
}

/// Call a constructor with a variant's fields.
pub fn ctor_call(
    objects: &mut Objects,
    types: &EnumTypes,
    ty: usize,
    index: u32,
    args: &Vec<Value>,
) -> (r: Made)
    requires
        old(objects).room(2),
        ty < types.types@.len(),
    ensures
        (final(objects)@, r) == made(old(objects)@, types.types@, ty, index, args@),
{
    make(objects, types, ty, index, args)
}

/// How many fields a constructor takes.
pub fn ctor_arity(types: &EnumTypes, ty: usize, index: u32) -> (n: usize)
    requires
        ty < types.types@.len(),
        index < types.types@[ty as int].schema.variants@.len(),
    ensures
        n == types.types@[ty as int].schema.variants@[index as int].fields@.len(),
{
    types.types[ty].schema.variants[index as usize].fields.len()
}

/// A value made reads back: its tag, and each field under its own name where no
/// earlier field has it.
pub proof fn law_enum_reads_back(
    all: ObjectSeq,
    types: Seq<EnumType>,
    ty: usize,
    index: u32,
    values: Seq<Value>,
    i: int,
)
    requires
        all.len() < usize::MAX,
        ty < types.len(),
        refusal(all, types, ty, index, values) is None,
        0 <= i < values.len(),
        ({
            let params = types[ty as int].schema.variants@[index as int].fields@;
            param_named(params, params[i].name@) == Some(i) && params[i].name@ != "tag"@
                && params[i].name@ != "constructor"@
        }),
    ensures
        ({
            let after = all.push(enum_object(types, ty, index, values));
            let p = next_address(all);
            let params = types[ty as int].schema.variants@[index as int].fields@;
            &&& is_enum(after, types, p)
            &&& member_of_enum(after, types, p, "tag"@).1 == Ok::<Value, Fault>(
                Value::Int(index as i32),
            )
            &&& member_of_enum(after, types, p, params[i].name@).1 == Ok::<Value, Fault>(
                kept(params[i].ty, values[i]),
            )
        }),
{
}

} // verus!
