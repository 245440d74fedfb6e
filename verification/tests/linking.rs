use std::collections::HashMap;
use std::hash::{BuildHasherDefault, Hasher};

use caribou::hash::AddressHasher;
use caribou::link::{link, symbol, CType, Kind};
use caribou::protocol::Callable;
use caribou::registry::{ClassIface, Interface, MethodIface, TypeRef};
use caribou::symbol::{intern, lookup, name, Symbol, SymbolTable};
use caribou::value::{Value, LANG_CORE};
use caribou::world::Languages;

fn method(name: &str, is_static: bool, params: Vec<TypeRef>, ret: TypeRef) -> MethodIface {
    MethodIface {
        name: name.to_owned(),
        is_static,
        params,
        ret,
        target: Callable::Dynamic(Value::Null),
    }
}

#[test]
fn a_symbol_spells_every_part_with_its_length() {
    assert_eq!(
        symbol("wren", "bench/tally", "Tally", Kind::Method, "add", 1),
        "caribou_4wren_13bench_2ftally_5Tally_m3add_1"
    );
    assert_eq!(
        symbol("haxe", "game.Player", "Player", Kind::Static, "spawnAt", 2),
        "caribou_4haxe_13game_2ePlayer_6Player_t7spawnAt_2"
    );
    // A setter and a getter of one name differ by the letter; an
    // operator's characters are escaped, `_` included.
    assert_eq!(
        symbol("wren", "m", "C", Kind::Setter, "hp", 1),
        "caribou_4wren_1m_1C_s2hp_1"
    );
    assert_eq!(
        symbol("wren", "m", "C", Kind::Method, "+", 1),
        "caribou_4wren_1m_1C_m3_2b_1"
    );
    assert_eq!(
        symbol("wren", "m", "C", Kind::Method, "a_b", 0),
        "caribou_4wren_1m_1C_m5a_5fb_0"
    );
}

#[test]
fn a_link_has_the_c_types_and_names_what_stays_dynamic() {
    let class = || ClassIface {
        name: "Tally".to_owned(),
        ty_name: "bench/tally.Tally".to_owned(),
        superclass: None,
        fields: Vec::new(),
        statics: Vec::new(),
        methods: Vec::new(),
        ctor: None,
        class_object: Value::Null,
    };
    let iface = Interface {
        lang: LANG_CORE,
        module: "bench/tally".to_owned(),
        classes: vec![class()],
    };
    let class = class();
    let langs = Languages::new();
    let add = method("add", false, vec![TypeRef::Float], TypeRef::Float);
    let l = link(&iface, &class, &add, Kind::Method, &langs);
    assert_eq!(l.params, vec![CType::Object, CType::Double]);
    assert_eq!(l.ret, CType::Double);
    assert!(l.is_static());
    assert_eq!(
        l.declaration(),
        format!("double {}(void *, double);", l.symbol)
    );

    let untyped = method(
        "apply",
        true,
        vec![TypeRef::Fun, TypeRef::Int],
        TypeRef::Dyn,
    );
    let l = link(&iface, &class, &untyped, Kind::Static, &langs);
    assert_eq!(l.params, vec![CType::Value, CType::Int32]);
    assert_eq!(l.ret, CType::Value);
    assert_eq!(l.dynamic, vec![1, 0]);

    let make = method("new", true, vec![TypeRef::Str], TypeRef::Object("x".into()));
    let l = link(&iface, &class, &make, Kind::Constructor, &langs);
    assert_eq!(l.params, vec![CType::Str]);
    assert_eq!(l.ret, CType::Object);
    assert_eq!(
        l.declaration(),
        format!("void * {}(caribou_str *);", l.symbol)
    );
}

#[test]
fn interning_twice_gives_one_symbol_and_the_name_round_trips() {
    let mut table = SymbolTable::new();
    let a = intern(&mut table, "caribou_symbol_test_x");
    let b = intern(&mut table, "caribou_symbol_test_x");
    let c = intern(&mut table, "caribou_symbol_test_y");
    assert_eq!(a, b);
    assert_ne!(a, c);
    assert_eq!(name(&table, a), "caribou_symbol_test_x");
    assert_eq!(a.name(&table), "caribou_symbol_test_x");
    assert_eq!(lookup(&table, "caribou_symbol_test_x"), Some(a));
    assert_eq!(lookup(&table, "caribou_symbol_never_interned"), None);
    assert_eq!(Symbol::empty().name(&table), "");
    assert_eq!(intern(&mut table, ""), Symbol::empty());
    assert_eq!(name(&table, Symbol(u32::MAX)), "");
}

#[derive(Default)]
struct Addresses(Option<AddressHasher>);

impl Hasher for Addresses {
    fn finish(&self) -> u64 {
        self.0.as_ref().map_or(0, AddressHasher::finish)
    }
    fn write(&mut self, bytes: &[u8]) {
        self.0.get_or_insert_with(AddressHasher::new).write(bytes);
    }
    fn write_usize(&mut self, n: usize) {
        self.0.get_or_insert_with(AddressHasher::new).write_usize(n);
    }
}

#[test]
fn addresses_spread_and_round_trip() {
    let mut m: HashMap<usize, u32, BuildHasherDefault<Addresses>> = HashMap::default();
    for i in 0..10_000usize {
        m.insert(i * 16, i as u32);
    }
    for i in 0..10_000usize {
        assert_eq!(m.get(&(i * 16)), Some(&(i as u32)));
    }
    assert_eq!(m.get(&8), None);
}

#[test]
fn an_address_hashes_to_its_own_number() {
    let hash = |n: u64| {
        let mut h = AddressHasher::new();
        h.write_u64(n);
        h.finish()
    };
    let expected = 16u64.wrapping_mul(0x9e37_79b9_7f4a_7c15).rotate_left(38);
    assert_eq!(hash(16), expected);
    let mut seen: Vec<u64> = (0..2000).map(|i| hash(i * 16)).collect();
    seen.sort_unstable();
    seen.dedup();
    assert_eq!(seen.len(), 2000);
}

#[test]
fn modules_that_differ_past_the_escape_share_no_symbol() {
    // Told apart by their modules, two members have two symbols.
    let a = symbol("wren", "a/b", "C", Kind::Method, "f", 0);
    let b = symbol("wren", "a_b", "C", Kind::Method, "f", 0);
    assert_eq!(a, "caribou_4wren_5a_2fb_1C_m1f_0");
    assert_eq!(b, "caribou_4wren_5a_5fb_1C_m1f_0");
}
