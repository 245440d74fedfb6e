use caribou::cell::{self, Cells, Keep, Shadow, WrapPlan};
use caribou::data::enums::{
    self, enum_data, enum_new, EnumDecl, EnumTypes, FieldDecl, FieldTag, Made, VariantDecl,
};
use caribou::data::{self, buffer_of, buffer_share};
use caribou::describe::{EnumDesc, ParamDesc, VariantDesc};
use caribou::error::{Error, Str, FIRST_CAPACITY};
use caribou::function;
use caribou::future::{self, Invoked};
use caribou::heap::tracer::{self, Marks};
use caribou::native::{self, Dispatched, Result64, Signatures, Word};
use caribou::bridge::plan::Signature;
use caribou::bridge::typed::{HBOOL, HBYTES, HF64, HI32, HUI8, HVOID};
use caribou::number::{bits_of, integer_of, place_of};
use caribou::object::{Objects, Settlement, TraceFrame};
use caribou::protocol::{reply, Callable, Fault, REPLY_MISSING, REPLY_OK};
use caribou::registry::TypeRef;
use caribou::send::{Called, Send, Sent};
use caribou::symbol::{Symbol, SymbolTable};
use caribou::value::{ErrorKind, LangId, Value, LANG_CORE};
use caribou::world::Languages;

fn frames(objects: &Objects, v: Value) -> Vec<TraceFrame> {
    let e = objects.error(v).expect("an error");
    objects.trace(e.trace).map_or(Vec::new(), |f| f.clone())
}

fn at(v: Value) -> usize {
    v.object_of().expect("an object")
}

fn number(n: f64) -> Value {
    Value::Number(n.to_bits())
}

fn many_languages(n: usize) -> Languages {
    let mut langs = Languages::new();
    for i in 0..n {
        langs.register(&format!("l{i}")).unwrap();
    }
    langs
}

#[test]
fn a_string_round_trips_through_the_heap_and_the_protocol() {
    let mut objects = Objects::new();
    let langs = Languages::new();
    let table = SymbolTable::new();
    let types = EnumTypes::new();
    let s = Str::new(&mut objects, "héllo");
    assert_eq!(Str::text(&objects, s), Some("héllo"));
    assert_eq!(Str::len(&objects, s), Some(6));
    assert_eq!(Str::text(&objects, Value::Int(3)), None);
    assert_eq!(Str::text(&objects, Value::Null), None);
    assert_eq!(Send::len(&objects, at(s)), Sent::Answer(Ok(6)));
    assert_eq!(
        Send::to_text(&mut objects, &langs, &table, at(s)),
        Sent::Answer(Ok(s))
    );
    let other = Str::new(&mut objects, "héllo");
    assert_eq!(Send::equals(&objects, at(s), other), Sent::Answer(Ok(true)));
    assert_eq!(
        Send::equals(&objects, at(s), Value::Int(1)),
        Sent::Answer(Ok(false))
    );
    assert_eq!(Send::hash(&objects, at(s)), Send::hash(&objects, at(other)));
    assert_eq!(
        Send::call(&mut objects, &types, at(s), &vec![]),
        Sent::Answer(Err(Fault::Unsupported))
    );
    let empty = Str::new(&mut objects, "");
    assert_eq!(Str::text(&objects, empty), Some(""));
}

#[test]
fn a_string_hashes_by_its_bytes() {
    let mut objects = Objects::new();
    let empty = Str::new(&mut objects, "");
    let a = Str::new(&mut objects, "a");
    assert_eq!(Str::hash(&objects, empty), Some(0xcbf2_9ce4_8422_2325));
    assert_eq!(Str::hash(&objects, a), Some(0xaf63_dc4c_8601_ec8c));
}

#[test]
fn an_error_reads_back_and_collects_frames() {
    let mut objects = Objects::new();
    let langs = Languages::new();
    let e = Error::new(&mut objects, ErrorKind::Index, "out of range", 7);
    let body = objects.error(e).unwrap();
    assert_eq!(body.kind, ErrorKind::Index);
    assert_eq!(body.origin, 7);
    assert_eq!(Error::message_str(&objects, &body), "out of range");
    assert!(body.cause.is_null());
    assert!(body.native.is_null());
    assert!(body.trace.is_null());
    assert!(frames(&objects, e).is_empty());
    assert_eq!(
        Error::describe(&objects, &langs, &body),
        "Index: out of range"
    );

    let cause = Error::new(&mut objects, ErrorKind::Runtime, "", 7);
    Error::with_cause(&mut objects, e, cause);
    assert_eq!(objects.error(e).unwrap().cause, cause);
    let body = objects.error(cause).unwrap();
    assert_eq!(Error::describe(&objects, &langs, &body), "Runtime");

    Error::push_frame(
        &mut objects,
        e,
        7,
        "inner",
        Some("a.hx"),
        Some((12, 20)),
    );
    Error::push_segment(&mut objects, e, 2, "outer");
    Error::push_frame(&mut objects, e, 2, "main", Some("m.wren"), None);
    let list = frames(&objects, e);
    assert_eq!(list.len(), 3);
    assert_eq!(list[0].lang, 7);
    assert_eq!(objects.text(list[0].name), Some("inner"));
    assert_eq!(objects.text(list[0].source), Some("a.hx"));
    assert_eq!(list[0].span(), Some((12, 20)));
    assert_eq!(list[1].lang, 2);
    assert_eq!(objects.text(list[1].name), Some("outer"));
    assert_eq!(objects.text(list[1].source), None);
    assert_eq!(list[1].span(), None);
    assert_eq!(objects.text(list[2].source), Some("m.wren"));
    assert_eq!(list[2].span(), None);
    let body = objects.error(e).unwrap();
    assert_eq!(
        Error::describe(&objects, &langs, &body),
        "Index: out of range\n  at inner (a.hx:12..20) [lang 7]\n  at outer [lang 2]\n  at main (m.wren) [lang 2]"
    );
    assert_eq!(
        Send::len(&objects, at(body.trace)),
        Sent::Answer(Ok(3))
    );

    assert!(objects.error(cause).is_some());
    assert!(objects.error(body.trace).is_none());
    assert!(objects.error(number(1.5)).is_none());
    let s = Str::new(&mut objects, "not an error");
    assert!(objects.error(s).is_none());
}

#[test]
fn the_trace_grows_past_its_first_capacity() {
    let mut objects = Objects::new();
    let e = Error::new(&mut objects, ErrorKind::User, "", 1);
    for i in 0..(FIRST_CAPACITY * 3 + 1) {
        Error::push_segment(&mut objects, e, i as LangId, &format!("f{i}"));
    }
    let list = frames(&objects, e);
    assert_eq!(list.len(), FIRST_CAPACITY * 3 + 1);
    for (i, frame) in list.iter().enumerate() {
        assert_eq!(frame.lang, i as LangId);
        assert_eq!(objects.text(frame.name), Some(format!("f{i}").as_str()));
    }
}

#[test]
fn an_error_answers_the_error_protocol_and_its_members() {
    let mut objects = Objects::new();
    let langs = Languages::new();
    let types = EnumTypes::new();
    let mut table = SymbolTable::new();
    let v = Error::new(&mut objects, ErrorKind::Type, "no", 3);
    let obj = at(v);
    assert!(Send::is_error(&objects, obj));
    assert_eq!(Send::error_kind(&objects, obj), Some(ErrorKind::Type));
    match Send::error_message(&objects, obj) {
        Sent::Answer(Ok(m)) => assert_eq!(objects.text(m), Some("no")),
        other => panic!("{other:?}"),
    }
    assert_eq!(
        Send::error_cause(&objects, obj),
        Sent::Answer(Ok(Value::Null))
    );
    assert_eq!(
        Send::error_trace(&objects, obj),
        Sent::Answer(Ok(Value::Null))
    );
    match Send::to_text(&mut objects, &langs, &table, obj) {
        Sent::Answer(Ok(m)) => assert_eq!(objects.text(m), Some("Type: no")),
        other => panic!("{other:?}"),
    }
    let kind = table.intern("kind");
    let origin = table.intern("origin");
    let message = table.intern("message");
    let nothing = table.intern("nothing");
    assert_eq!(
        Send::get_member(&mut objects, &types, &table, obj, kind),
        Sent::Answer(Ok(Made::Value(Value::Int(ErrorKind::Type.to_int()))))
    );
    assert_eq!(
        Send::get_member(&mut objects, &types, &table, obj, origin),
        Sent::Answer(Ok(Made::Value(Value::Int(3))))
    );
    match Send::get_member(&mut objects, &types, &table, obj, message) {
        Sent::Answer(Ok(Made::Value(m))) => assert_eq!(objects.text(m), Some("no")),
        other => panic!("{other:?}"),
    }
    assert_eq!(
        Send::get_member(&mut objects, &types, &table, obj, nothing),
        Sent::Answer(Err(Fault::Missing))
    );
    assert_eq!(
        Send::call(&mut objects, &types, obj, &vec![]),
        Sent::Answer(Err(Fault::Unsupported))
    );

    let s = Str::new(&mut objects, "plain");
    assert!(!Send::is_error(&objects, at(s)));
    assert_eq!(Send::error_kind(&objects, at(s)), None);
}

/// Everything the object at `root` keeps alive, itself included.
fn alive(objects: &Objects, root: usize) -> Vec<usize> {
    let mut seen = vec![root];
    let mut next = 0;
    while next < seen.len() {
        let mut t = Marks::new();
        tracer::trace(objects, seen[next], &mut t);
        for p in t.marked {
            let p = p as usize;
            if p != 0 && !seen.contains(&p) {
                seen.push(p);
            }
        }
        next += 1;
    }
    seen
}

#[test]
fn an_error_survives_a_collection_while_handled() {
    let mut objects = Objects::new();
    let e = Error::new(&mut objects, ErrorKind::Arithmetic, "divide by zero", 4);
    let native = Str::new(&mut objects, "native payload");
    Error::set_native(&mut objects, e, native);
    Error::push_frame(&mut objects, e, 4, "div", Some("m.wren"), Some((9, 14)));
    Error::push_segment(&mut objects, e, 0, "<callable>");
    // Only the error itself roots the graph: what a collection marks from it.
    let kept = alive(&objects, at(e));
    let body = objects.error(e).unwrap();
    assert_eq!(body.kind, ErrorKind::Arithmetic);
    assert_eq!(Error::message_str(&objects, &body), "divide by zero");
    assert_eq!(objects.text(body.native), Some("native payload"));
    let list = frames(&objects, e);
    assert_eq!(list.len(), 2);
    assert_eq!(objects.text(list[0].name), Some("div"));
    assert_eq!(objects.text(list[0].source), Some("m.wren"));
    assert_eq!(list[0].span(), Some((9, 14)));
    assert_eq!(objects.text(list[1].name), Some("<callable>"));
    assert_eq!(objects.text(list[1].source), None);
    for v in [
        body.message,
        body.native,
        body.trace,
        list[0].name,
        list[0].source,
        list[1].name,
    ] {
        assert!(kept.contains(&at(v)));
    }
}

// A point of another language: its adapter's entries, by the message.
fn point_get(name: Symbol, out: &mut Value) -> u8 {
    let v = match name.0 {
        1 => 3.0,
        2 => 4.0,
        _ => return REPLY_MISSING,
    };
    *out = number(v);
    REPLY_OK
}

#[test]
fn messages_dispatch_through_the_descriptor() {
    let mut objects = Objects::new();
    let types = EnumTypes::new();
    let table = SymbolTable::new();
    let point = objects.foreign(9, "Point");
    let obj = at(point);
    let mut get = |objects: &mut Objects, name: Symbol| {
        match Send::get_member(objects, &types, &table, obj, name) {
            Sent::Adapter(p) => assert_eq!(p, obj),
            other => panic!("{other:?}"),
        }
        let mut out = Value::Null;
        let code = point_get(name, &mut out);
        reply(code, out)
    };
    assert_eq!(get(&mut objects, Symbol(1)), Ok(number(3.0)));
    assert_eq!(get(&mut objects, Symbol(2)), Ok(number(4.0)));
    assert_eq!(get(&mut objects, Symbol(9)), Err(Fault::Missing));
    assert_eq!(Send::len(&objects, obj), Sent::Adapter(obj));
    assert_eq!(Send::hash(&objects, obj), Sent::Adapter(obj));
    // What the adapter has no entry for it answers with any other code.
    assert_eq!(reply(1, Value::Null), Err(Fault::Unsupported));
    assert_eq!(reply(77, Value::Null), Err(Fault::Unsupported));
    assert_eq!(reply(3, Value::Null), Err(Fault::Raised));
    assert!(!Send::is_error(&objects, obj));
    assert_eq!(Send::error_kind(&objects, obj), None);
}

#[test]
fn a_descriptor_without_a_protocol_answers_unsupported() {
    let mut objects = Objects::new();
    let types = EnumTypes::new();
    let table = SymbolTable::new();
    let p = data::buffer_new(&mut objects, &vec![]);
    assert_eq!(
        Send::get_member(&mut objects, &types, &table, p, Symbol(1)),
        Sent::Answer(Err(Fault::Unsupported))
    );
}

#[test]
fn one_cell_per_object_while_the_holder_keeps_it() {
    let mut objects = Objects::new();
    let mut cells = Cells::new();
    let types = EnumTypes::new();
    let mut table = SymbolTable::new();
    let langs = Languages::new();
    let plain = cell::descriptor(41, 0, "foreign object");
    let s = Str::new(&mut objects, "held");
    let c = cell::wrap(&mut objects, &mut cells, s, &plain);
    assert_eq!(
        cell::wrap(&mut objects, &mut cells, s, &plain),
        c,
        "one cell per object"
    );
    assert_ne!(c, s);
    assert_eq!(cell::unwrap(&objects, c), s);
    assert_eq!(
        cell::of(&objects, &cells, s, Shadow::Unsupported),
        Some(c)
    );
    let cp = at(c);
    assert!(cell::is_cell(&objects, cp));
    assert!(!cell::is_cell(&objects, at(s)));
    assert_eq!(cell::from_pointer(cp), c);
    assert_eq!(cell::front(&objects, c), None);
    assert_eq!(cell::descriptor_of(&objects, c), Some(plain.view));
    // Messages go to the string.
    match Send::to_text(&mut objects, &langs, &table, cp) {
        Sent::Answer(Ok(t)) => assert_eq!(Str::text(&objects, t), Some("held")),
        other => panic!("{other:?}"),
    }
    assert_eq!(Send::equals(&objects, cp, s), Sent::Answer(Ok(true)));
    assert_eq!(Send::equals(&objects, cp, c), Sent::Answer(Ok(true)));
    assert_eq!(Send::hash(&objects, cp), Send::hash(&objects, at(s)));
    assert_eq!(
        Send::unwrap_native(&objects, cp),
        Sent::Answer(Ok(at(s)))
    );
    let x = table.intern("x");
    assert_eq!(
        Send::get_member(&mut objects, &types, &table, cp, x),
        Send::get_member(&mut objects, &types, &table, at(s), x)
    );
    assert!(!Send::is_error(&objects, cp));

    // The holder keeps it: it stays in the map, and keeps its object.
    assert!(alive(&objects, cp).contains(&at(s)));
    assert_eq!(
        cell::of(&objects, &cells, s, Shadow::Unsupported),
        Some(c),
        "the cell lives while the holder's handle does"
    );
    assert_eq!(cell::dropped(&objects, &mut cells, cp), None);
    assert_eq!(
        cell::of(&objects, &cells, s, Shadow::Unsupported),
        None,
        "dropped, the cell left the map"
    );
}

#[test]
fn scalars_pass_through() {
    let mut objects = Objects::new();
    let mut cells = Cells::new();
    let plain = cell::descriptor(41, 0, "foreign object");
    assert_eq!(
        cell::wrap(&mut objects, &mut cells, Value::Null, &plain),
        Value::Null
    );
    assert_eq!(
        cell::wrap(&mut objects, &mut cells, Value::Int(3), &plain),
        Value::Int(3)
    );
    assert_eq!(cell::unwrap(&objects, Value::Int(3)), Value::Int(3));
    assert_eq!(
        cell::of(&objects, &cells, number(1.0), Shadow::Unsupported),
        None
    );
    assert!(cell::from_pointer(0).is_null());
}

#[test]
fn a_language_that_keeps_shadows_keeps_the_cell() {
    let mut objects = Objects::new();
    let mut cells = Cells::new();
    let desc = cell::descriptor(41, 2, "view");
    let v = objects.foreign(9, "Point");
    assert_eq!(
        cells.wrap_plan(&objects, v, Shadow::Absent),
        WrapPlan::MakeKept
    );
    let made = cell::make(&mut objects, v, &desc, false);
    assert_eq!(
        cells.keep_shadow(&mut objects, at(v), made, Keep::Other(77)),
        77
    );
    assert_eq!(
        cells.keep_shadow(&mut objects, at(v), made, Keep::Kept),
        made
    );
    assert_eq!(
        cells.wrap_plan(&objects, v, Shadow::Kept(made)),
        WrapPlan::Have(Value::Object(made))
    );
    // Dropped, it is for the object's language to forget.
    assert_eq!(cell::dropped(&objects, &mut cells, made), Some(at(v)));
    // A language that keeps none after all: the map names it.
    assert_eq!(
        cells.keep_shadow(&mut objects, at(v), made, Keep::Refused),
        made
    );
    assert_eq!(
        cell::of(&objects, &cells, v, Shadow::Unsupported),
        Some(Value::Object(made))
    );
    cell::set_front(&mut objects, Value::Object(made), 64);
    assert_eq!(
        cell::view_of(&objects, Value::Object(made)),
        Some((desc.view, 64))
    );
    let other = cell::descriptor(12, 0, "other");
    cell::view(&mut objects, Value::Object(made), &other);
    assert_eq!(
        cell::descriptor_of(&objects, Value::Object(made)),
        Some(other.view)
    );
}

#[test]
fn buffers_share_storage_and_check_bounds() {
    let mut objects = Objects::new();
    let p = data::buffer_new(&mut objects, &vec![0, 128, 255]);
    let b = data::buffer_data(&objects, p).unwrap();
    let alias = buffer_share(&mut objects, b.storage, b.len);
    assert_eq!(data::buffer_data(&objects, alias).unwrap(), b);
    assert_eq!(
        data::buffer_set(&mut objects, alias, Value::Int(0), Value::Int(42)),
        Ok(())
    );
    assert_eq!(
        data::buffer_index(&objects, p, Value::Int(0)),
        Ok(Value::Int(42))
    );
    assert_eq!(
        data::buffer_set(&mut objects, alias, Value::Int(-1), Value::Int(1)),
        Err(Fault::Missing)
    );
    assert_eq!(
        data::buffer_set(&mut objects, alias, Value::Int(3), Value::Int(1)),
        Err(Fault::Missing)
    );
    assert_eq!(
        data::buffer_set(&mut objects, alias, Value::Int(0), Value::Int(256)),
        Err(Fault::Missing)
    );
    assert!(buffer_of(&objects, Value::Object(p)).is_some());
    let s = Str::new(&mut objects, "not bytes");
    assert!(buffer_of(&objects, s).is_none());
}

#[test]
fn a_buffer_is_walked_byte_by_byte() {
    let mut objects = Objects::new();
    let p = data::buffer_new(&mut objects, &vec![7, 8, 9]);
    let mut state = Value::Null;
    let mut seen = Vec::new();
    while let Ok(Value::Int(n)) = data::buffer_iterate(&objects, p, &mut state) {
        seen.push(n);
    }
    assert_eq!(seen, vec![7, 8, 9]);
    assert_eq!(state, number(2.0));
    assert_eq!(
        data::buffer_index(&objects, p, number(1.0)),
        Ok(Value::Int(8))
    );
    assert_eq!(
        data::buffer_index(&objects, p, number(1.5)),
        Err(Fault::Missing)
    );
}

#[test]
fn whole_doubles_are_integers() {
    for n in [0.0f64, -0.0, 1.0, 2.0, 3.0, 42.0, 1e15, 4503599627370497.0] {
        assert_eq!(integer_of(n.to_bits()), Some(n as i64), "{n}");
        assert_eq!(place_of(n.to_bits()), Some(n as usize), "{n}");
    }
    for n in [-1.0f64, -42.0, -9223372036854775808.0] {
        assert_eq!(integer_of(n.to_bits()), Some(n as i64), "{n}");
        assert_eq!(place_of(n.to_bits()), None, "{n}");
    }
    for n in [0.5f64, -2.25, f64::NAN, f64::INFINITY, 5e-324, 1.0000000000000002] {
        assert_eq!(integer_of(n.to_bits()), None, "{n}");
        assert_eq!(place_of(n.to_bits()), None, "{n}");
    }
    assert_eq!(integer_of(9223372036854775808.0f64.to_bits()), None);
    assert_eq!(place_of(1e300f64.to_bits()), Some(1e300f64 as usize));
    for n in [0u64, 1, 2, 3, 255, 65537, 9007199254740991, 9007199254740992] {
        assert_eq!(bits_of(n), (n as f64).to_bits());
    }
}

fn checked(ty: TypeRef) -> EnumDesc {
    EnumDesc {
        name: "test.data.Checked".into(),
        variants: vec![VariantDesc {
            name: "Number".into(),
            fields: vec![ParamDesc {
                name: "value".into(),
                ty,
            }],
        }],
    }
}

#[test]
fn enum_fields_are_checked_and_integer_inputs_are_normalized() {
    let mut objects = Objects::new();
    let mut types = EnumTypes::new();
    let d = types.register_enum(checked(TypeRef::Int), LANG_CORE).unwrap();
    assert_eq!(
        d,
        types.register_enum(checked(TypeRef::Int), LANG_CORE).unwrap()
    );
    assert!(enum_new(&mut objects, &types, d, 1, &vec![]).is_err());
    assert!(enum_new(&mut objects, &types, d, 0, &vec![]).is_err());
    assert!(enum_new(&mut objects, &types, d, 0, &vec![Value::Bool(true)]).is_err());
    let p = enum_new(&mut objects, &types, d, 0, &vec![number(42.0)]).unwrap();
    let (_, _, fields) = enum_data(&objects, p).unwrap();
    assert_eq!(fields[0].as_int(), Some(42));
    assert!(types
        .register_enum(checked(TypeRef::Str), LANG_CORE)
        .is_err());
}

#[test]
fn an_enum_says_what_it_refuses() {
    let mut objects = Objects::new();
    let mut types = EnumTypes::new();
    let d = types.register_enum(checked(TypeRef::Int), 5).unwrap();
    assert_eq!(
        enum_new(&mut objects, &types, d, 1, &vec![]),
        Err("invalid enum constructor index".to_owned())
    );
    assert_eq!(
        enum_new(&mut objects, &types, d, 0, &vec![]),
        Err("invalid enum field count".to_owned())
    );
    assert_eq!(
        enum_new(&mut objects, &types, d, 0, &vec![number(0.5)]),
        Err("test.data.Checked.Number: invalid value field".to_owned())
    );
    assert_eq!(
        types.register_enum(checked(TypeRef::Str), 5),
        Err("conflicting enum declaration test.data.Checked".to_owned())
    );
    assert_eq!(types.enum_type("test.data.Checked"), Some(d));
    assert_eq!(types.enum_type("other"), None);
}

#[test]
fn an_enum_is_a_class_of_its_variants() {
    let mut objects = Objects::new();
    let mut types = EnumTypes::new();
    let mut table = SymbolTable::new();
    let decl = EnumDecl {
        name: "ScaleSize".to_owned(),
        variants: vec![
            VariantDecl {
                name: "Auto".to_owned(),
                fields: vec![],
            },
            VariantDecl {
                name: "Physical".to_owned(),
                fields: vec![
                    FieldDecl {
                        name: "w".to_owned(),
                        tag: FieldTag::Kind(HI32),
                    },
                    FieldDecl {
                        name: "h".to_owned(),
                        tag: FieldTag::Int64,
                    },
                ],
            },
        ],
    };
    let desc = enums::describe_enum(&decl);
    assert_eq!(desc.variants[1].fields[0].ty, TypeRef::Int);
    assert_eq!(desc.variants[1].fields[1].ty, TypeRef::Int64);
    let d = types.register_enum(desc, LANG_CORE).unwrap();
    let class = enums::enum_class(&mut objects, d);
    let ctor = enums::enum_constructor(&mut objects, d, 1);
    assert_eq!(
        Send::arity(&objects, &types, at(ctor)),
        Sent::Answer(Ok(2))
    );
    let auto = table.intern("Auto");
    let made = match Send::get_member(&mut objects, &types, &table, at(class), auto) {
        Sent::Answer(Ok(Made::Value(v))) => v,
        other => panic!("{other:?}"),
    };
    let constructor = table.intern("constructor");
    match Send::get_member(&mut objects, &types, &table, at(made), constructor) {
        Sent::Answer(Ok(Made::Value(v))) => assert_eq!(objects.text(v), Some("Auto")),
        other => panic!("{other:?}"),
    }
    // A variant with fields is no member, and its constructor checks them.
    let physical = table.intern("Physical");
    assert_eq!(
        Send::get_member(&mut objects, &types, &table, at(class), physical),
        Sent::Answer(Err(Fault::Missing))
    );
    let size = match Send::call(
        &mut objects,
        &types,
        at(ctor),
        &vec![number(3.0), Value::Int(4)],
    ) {
        Sent::Answer(Ok(Called::Made(Made::Value(v)))) => v,
        other => panic!("{other:?}"),
    };
    let tag = table.intern("tag");
    let h = table.intern("h");
    assert_eq!(
        Send::get_member(&mut objects, &types, &table, at(size), tag),
        Sent::Answer(Ok(Made::Value(Value::Int(1))))
    );
    assert_eq!(
        Send::get_member(&mut objects, &types, &table, at(size), h),
        Sent::Answer(Ok(Made::Value(Value::Int(4))))
    );
    assert_eq!(
        Send::index(&objects, at(size), Value::Int(0)),
        Sent::Answer(Ok(Value::Int(3)))
    );
    assert_eq!(
        Send::index(&objects, at(size), Value::Int(2)),
        Sent::Answer(Err(Fault::Missing))
    );
    match Send::call(&mut objects, &types, at(ctor), &vec![]) {
        Sent::Answer(Ok(Called::Made(Made::Raised(e)))) => {
            let body = objects.error(e).unwrap();
            assert_eq!(body.kind, ErrorKind::Type);
            assert_eq!(
                Error::message_str(&objects, &body),
                "invalid enum field count"
            );
        }
        other => panic!("{other:?}"),
    }
}

#[test]
fn a_function_is_a_value() {
    let mut objects = Objects::new();
    let mut table = SymbolTable::new();
    let types = EnumTypes::new();
    let langs = Languages::new();
    let held = Str::new(&mut objects, "receiver");
    let callable = Callable::Dynamic(held);
    let f = function::new(&mut objects, &mut table, callable, "walk", Some(2));
    assert_eq!(function::callable_of(&objects, f), Some(callable));
    assert_eq!(function::callable_of(&objects, held), None);
    assert_eq!(Send::arity(&objects, &types, at(f)), Sent::Answer(Ok(2)));
    match Send::to_text(&mut objects, &langs, &table, at(f)) {
        Sent::Answer(Ok(t)) => assert_eq!(objects.text(t), Some("<function walk>")),
        other => panic!("{other:?}"),
    }
    assert_eq!(Send::equals(&objects, at(f), f), Sent::Answer(Ok(true)));
    assert_eq!(Send::equals(&objects, at(f), held), Sent::Answer(Ok(false)));
    assert_eq!(Send::hash(&objects, at(f)), Sent::Answer(Ok(at(f) as u64)));
    assert!(alive(&objects, at(f)).contains(&at(held)));
    let g = function::new(&mut objects, &mut table, callable, "walk", None);
    assert_eq!(
        Send::arity(&objects, &types, at(g)),
        Sent::Answer(Err(Fault::Unsupported))
    );
    assert_eq!(
        Send::call(&mut objects, &types, at(g), &vec![]),
        Sent::Answer(Ok(Called::Through(callable, table.intern("walk"))))
    );
}

#[test]
fn a_future_answers_its_messages() {
    let mut objects = Objects::new();
    let mut table = SymbolTable::new();
    let f = future::new(&mut objects);
    let ready = table.intern("ready");
    let wait = table.intern("await");
    let resolve = table.intern("resolve");
    let none = vec![];
    match future::invoke(&mut objects, &table, f, ready, &none) {
        Invoked::Reply(r) => assert_eq!(r, Ok(Value::Bool(false))),
        other => panic!("{other:?}"),
    }
    assert!(matches!(
        future::invoke(&mut objects, &table, f, wait, &none),
        Invoked::Await
    ));
    assert_eq!(future::await_settlement(&mut objects, f, 31), None);
    match future::invoke(&mut objects, &table, f, resolve, &vec![Value::Int(42)]) {
        Invoked::Settled(first, woken) => assert_eq!((first, woken), (true, vec![31])),
        other => panic!("{other:?}"),
    }
    assert!(future::ready(&objects, f));
    assert_eq!(
        future::await_settlement(&mut objects, f, 32),
        Some(Settlement::Resolved(Value::Int(42)))
    );
    match future::invoke(&mut objects, &table, f, resolve, &none) {
        Invoked::Reply(r) => assert_eq!(r, Err(Fault::Missing)),
        other => panic!("{other:?}"),
    }
}

#[test]
fn a_rejection_becomes_an_error_once() {
    let mut objects = Objects::new();
    let text = Str::new(&mut objects, "lost");
    let foreign = objects.foreign(6, "Thing");
    let plain = Error::new(&mut objects, ErrorKind::Index, "gone", 6);
    let cases = [
        (text, "lost", LANG_CORE),
        (Value::Int(3), "an int", LANG_CORE),
        (foreign, "", 6),
    ];
    for (reason, message, origin) in cases {
        let f = future::new(&mut objects);
        assert!(future::settle(&mut objects, f, reason, true).0);
        let e = match future::settlement(&objects, f) {
            Some(Settlement::Rejected(e)) => objects.error(e).unwrap(),
            other => panic!("{other:?}"),
        };
        assert_eq!(e.kind, ErrorKind::User);
        assert_eq!(e.origin, origin);
        assert_eq!(Error::message_str(&objects, &e), message);
    }
    let f = future::new(&mut objects);
    assert!(future::settle(&mut objects, f, plain, true).0);
    assert_eq!(
        future::settlement(&objects, f),
        Some(Settlement::Rejected(plain))
    );
    assert!(!future::settle(&mut objects, f, Value::Null, false).0);
    assert_eq!(
        future::settlement(&objects, f),
        Some(Settlement::Rejected(plain))
    );
    assert_eq!(
        future::awaited(Settlement::Rejected(plain)),
        Err(plain)
    );
}

#[test]
fn the_future_class_is_the_cores() {
    let mut table = SymbolTable::new();
    let iface = future::interface(&mut table);
    assert_eq!(iface.lang, LANG_CORE);
    let names: Vec<&str> = iface.classes[0]
        .methods
        .iter()
        .map(|m| m.name.as_str())
        .collect();
    assert_eq!(names, ["ready", "await", "resolve", "reject"]);
    assert_eq!(iface.classes[0].ctor.as_ref().unwrap().name, "new");
}

#[test]
fn native_calls_marshal_by_kind() {
    let mut objects = Objects::new();
    let s = Str::new(&mut objects, "text");
    let sig = Signature {
        args: vec![HI32, HF64, HBOOL, HBYTES],
        ret: HUI8,
    };
    let words = native::dispatch(
        &objects,
        &sig,
        &vec![number(7.0), Value::Int(2), Value::Bool(true), s],
    );
    assert_eq!(
        words,
        Ok(vec![
            Word::Int(7),
            Word::Widened(2),
            Word::Int(1),
            Word::Text(at(s))
        ])
    );
    assert_eq!(
        native::dispatch(&objects, &sig, &vec![]),
        Err("the function takes 4 arguments, not 0".to_owned())
    );
    assert_eq!(
        native::dispatch(
            &objects,
            &sig,
            &vec![Value::Int(1), Value::Null, Value::Bool(true), s]
        ),
        Err("argument 2 of the function cannot be null".to_owned())
    );
    assert_eq!(
        native::value_of(-1, HUI8),
        Result64::Value(Value::Int(255))
    );
    assert_eq!(
        native::value_of(-1, HI32),
        Result64::Value(Value::Int(-1))
    );
    assert_eq!(native::value_of(9, HVOID), Result64::Value(Value::Null));
    assert_eq!(native::value_of(0, HBYTES), Result64::Value(Value::Null));
    match native::dispatched(None, false, HUI8) {
        Dispatched::Refused(m) => assert_eq!(
            m,
            "the function's signature is not one the core can call"
        ),
        other => panic!("{other:?}"),
    }
    assert!(matches!(
        native::dispatched(Some(1), true, HUI8),
        Dispatched::Raised
    ));
    match native::dispatched(Some(2), false, HBOOL) {
        Dispatched::Returned(r) => assert_eq!(r, Result64::Value(Value::Bool(false))),
        other => panic!("{other:?}"),
    }
    let mut all = Signatures::new();
    let a = all.signature(vec![HI32], HVOID);
    let b = all.signature(vec![HI32, HI32], HVOID);
    assert_ne!(a, b);
    assert_eq!(all.signature(vec![HI32], HVOID), a);
}

#[test]
fn languages_name_their_frames() {
    let langs = many_languages(3);
    let mut objects = Objects::new();
    let e = Error::new(&mut objects, ErrorKind::User, "m", 1);
    Error::push_segment(&mut objects, e, 2, "f");
    let body = objects.error(e).unwrap();
    assert_eq!(
        Error::describe(&objects, &langs, &body),
        "User: m\n  at f [l1]"
    );
}
