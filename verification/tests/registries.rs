use caribou::namespace::Namespace;
use caribou::protocol::Callable;
use caribou::registry::files::SourceFiles;
use caribou::registry::publish::Registry;
use caribou::registry::resolve::{import_names, LoadStep};
use caribou::registry::{ClassIface, Interface, MethodIface, MethodKind, TypeRef};
use caribou::report::{Callbacks, Function, Report, Site, Tier};
use caribou::symbol::SymbolTable;
use caribou::value::{LangId, Value};
use caribou::world::{Languages, RegisterError};

fn iface(lang: LangId, module: &str, class: &str) -> Interface {
    Interface {
        lang,
        module: module.to_owned(),
        classes: vec![ClassIface {
            name: class.to_owned(),
            ty_name: module.to_owned(),
            superclass: None,
            fields: vec![],
            statics: vec![],
            methods: vec![MethodIface {
                name: "f".to_owned(),
                is_static: false,
                params: vec![TypeRef::Int],
                ret: TypeRef::Bool,
                target: Callable::Dynamic(Value::Null),
            }],
            ctor: None,
            class_object: Value::Null,
        }],
    }
}

/// What the two languages' loaders do when asked for `module`: the first has
/// no source for anything; the second publishes `hud` under its path.
fn load(
    reg: &mut Registry,
    langs: &Languages,
    asked: LangId,
    second: LangId,
    ns: &str,
    module: &str,
) -> Result<bool, String> {
    if asked != second {
        return Ok(false);
    }
    if module == "hud" {
        reg.publish(langs, iface(second, &format!("{ns}/{module}"), "Hud"))
            .unwrap();
        return Ok(true);
    }
    Err(format!("no source for {ns}:{module}"))
}

fn resolve_or_load(
    reg: &mut Registry,
    langs: &Languages,
    loaders: &Vec<LangId>,
    second: LangId,
    ns: &str,
    module: &str,
) -> Result<Option<(LangId, String)>, String> {
    let mut search = match reg.resolve_or_load(langs, ns, module) {
        Ok(found) => return Ok(Some(found)),
        Err(search) => search,
    };
    let mut next = search.next(loaders);
    while let Some(lang) = next {
        let answer = load(reg, langs, lang, second, ns, module);
        match search.answered(reg, langs, loaders, ns, module, answer)? {
            LoadStep::Found(id, m) => return Ok(Some((id, m))),
            LoadStep::Ask(lang) => next = Some(lang),
            LoadStep::Nothing => next = None,
        }
    }
    Ok(None)
}

#[test]
fn a_missing_module_is_asked_of_the_namespaces_loaders_in_order() {
    let mut langs = Languages::new();
    let mut reg = Registry::new(vec![Namespace {
        name: "lgame".to_owned(),
        langs: vec!["llang_a".to_owned(), "llang_b".to_owned()],
        modules: None,
    }]);
    let a = langs.register("llang_a").unwrap();
    let b = langs.register("llang_b").unwrap();
    // A has no source for `hud`; B publishes it under the path spelling.
    let loaders = vec![a, b];
    assert_eq!(reg.resolve(&langs, "lgame", "hud"), None);
    assert_eq!(
        resolve_or_load(&mut reg, &langs, &loaders, b, "lgame", "hud"),
        Ok(Some((b, "lgame/hud".to_owned())))
    );
    // Published now: the plain lookup finds the path spelling too.
    assert_eq!(
        reg.resolve(&langs, "lgame", "hud"),
        Some((b, "lgame/hud".to_owned()))
    );
    assert!(reg.lookup_class(&langs, "lgame", "hud", "Hud").is_some());
    assert_eq!(
        resolve_or_load(&mut reg, &langs, &loaders, b, "lgame", "other"),
        Err("no source for lgame:other".to_owned())
    );
    assert_eq!(
        resolve_or_load(&mut reg, &langs, &loaders, b, "nowhere", "hud"),
        Ok(None)
    );
}

#[test]
fn a_search_asks_only_languages_that_load() {
    let mut langs = Languages::new();
    let mut reg = Registry::new(vec![Namespace {
        name: "g".to_owned(),
        langs: vec!["a".to_owned(), "b".to_owned(), "c".to_owned()],
        modules: None,
    }]);
    let _a = langs.register("a").unwrap();
    let b = langs.register("b").unwrap();
    let c = langs.register("c").unwrap();
    let loaders = vec![c, b];
    let mut search = match reg.resolve_or_load(&langs, "g", "m") {
        Ok(_) => panic!("nothing is published"),
        Err(search) => search,
    };
    assert_eq!(search.next(&loaders), Some(b));
    // B says that it loaded it and did not: C is asked.
    match search.answered(&reg, &langs, &loaders, "g", "m", Ok(true)) {
        Ok(LoadStep::Ask(lang)) => assert_eq!(lang, c),
        _ => panic!("the next language is asked"),
    }
    reg.publish(&langs, iface(c, "m", "M")).unwrap();
    match search.answered(&reg, &langs, &loaders, "g", "m", Ok(true)) {
        Ok(LoadStep::Found(lang, m)) => assert_eq!((lang, m.as_str()), (c, "m")),
        _ => panic!("it is there now"),
    }
}

#[test]
fn namespaces_resolve_and_a_clash_is_refused() {
    let mut langs = Languages::new();
    let mut reg = Registry::new(vec![
        Namespace {
            name: "rgame".to_owned(),
            langs: vec!["rlang_a".to_owned(), "rlang_b".to_owned()],
            modules: None,
        },
        Namespace {
            name: "rsubset".to_owned(),
            langs: vec!["rlang_a".to_owned()],
            modules: Some(vec!["rgame.Player".to_owned()]),
        },
    ]);
    let a = langs.register("rlang_a").unwrap();
    let b = langs.register("rlang_b").unwrap();

    reg.publish(&langs, iface(a, "rgame.Player", "Player"))
        .unwrap();
    reg.publish(&langs, iface(a, "rgame.Enemy", "Enemy"))
        .unwrap();
    // The configured namespace, by the module's own name and without
    // the package prefix; the language namespace, by its own name.
    let player = Some((a, "rgame.Player".to_owned()));
    assert_eq!(reg.resolve(&langs, "rgame", "Player"), player);
    assert_eq!(reg.resolve(&langs, "rgame", "rgame.Player"), player);
    assert_eq!(reg.resolve(&langs, "rlang_a", "rgame.Player"), player);
    assert_eq!(reg.resolve(&langs, "rlang_a", "Player"), None);
    assert_eq!(reg.resolve(&langs, "rgame", "Nope"), None);
    assert_eq!(reg.resolve(&langs, "nowhere", "Player"), None);
    // The subset hides what it does not list, and prefixes only its
    // own name.
    assert_eq!(reg.resolve(&langs, "rsubset", "rgame.Player"), player);
    assert_eq!(reg.resolve(&langs, "rsubset", "rgame.Enemy"), None);
    assert_eq!(reg.resolve(&langs, "rsubset", "Player"), None);

    let (found, index) = reg
        .lookup_class(&langs, "rgame", "Player", "Player")
        .unwrap();
    assert_eq!(found.lang, a);
    assert_eq!(found.classes[index].methods[0].ret, TypeRef::Bool);
    assert!(reg
        .lookup_class(&langs, "rgame", "Player", "Other")
        .is_none());
    let (by_type, index) = reg.class_for_type(a, "rgame.Player").unwrap();
    assert_eq!(by_type.module, "rgame.Player");
    assert_eq!(by_type.classes[index].name, "Player");

    // The other language publishing a module addressable as
    // `rgame:Player` too is refused; a distinct name is not.
    let err = reg
        .publish(&langs, iface(b, "Player", "Player"))
        .unwrap_err();
    assert_eq!(
        err,
        RegisterError::ModuleClash {
            namespace: "rgame".to_owned(),
            module: "Player".to_owned(),
            langs: ["rlang_b".to_owned(), "rlang_a".to_owned()],
        }
    );
    reg.publish(&langs, iface(b, "Hud", "Hud")).unwrap();
    assert_eq!(
        reg.resolve(&langs, "rgame", "Hud"),
        Some((b, "Hud".to_owned()))
    );

    // Republishing replaces, and the type index follows.
    let mut again = iface(a, "rgame.Player", "Player");
    again.classes[0].ty_name = "rgame.Player2".to_owned();
    reg.publish(&langs, again).unwrap();
    assert!(reg.class_for_type(a, "rgame.Player").is_none());
    assert!(reg.class_for_type(a, "rgame.Player2").is_some());
    assert_eq!(reg.interfaces_of(a).len(), 2);
}

#[test]
fn a_members_kind_follows_the_wren_signature_its_target_carries() {
    let mut table = SymbolTable::new();
    let mut wren = |sig: &str| {
        let m = MethodIface {
            name: sig.to_owned(),
            is_static: false,
            params: vec![],
            ret: TypeRef::Dyn,
            target: Callable::WrenMethod {
                class: Value::Null,
                signature: table.intern(sig),
                is_static: false,
            },
        };
        m.kind(&table)
    };
    assert_eq!(wren("hp"), MethodKind::Getter);
    assert_eq!(wren("hp=(_)"), MethodKind::Setter);
    assert_eq!(wren("hit(_)"), MethodKind::Method);
    assert_eq!(wren("draw()"), MethodKind::Method);
    assert_eq!(
        iface(1, "m", "C").classes[0].methods[0].kind(&table),
        MethodKind::Method
    );
}

#[test]
fn a_language_is_registered_once() {
    let mut langs = Languages::new();
    let a = langs.register("lua").unwrap();
    assert_eq!(langs.language_id("lua"), Some(a));
    assert_eq!(langs.language_name(a), "lua");
    assert_eq!(langs.language_id("core"), Some(0));
    assert_eq!(langs.language_name(77), "lang 77");
    assert_eq!(
        langs.register("lua"),
        Err(RegisterError::Language("lua".to_owned()))
    );
}

#[test]
fn a_module_is_imported_by_its_name_and_its_rest() {
    let ns = Namespace {
        name: "game".to_owned(),
        langs: vec![],
        modules: None,
    };
    assert_eq!(
        import_names(&ns, "game/Hud"),
        vec!["game/Hud".to_owned(), "Hud".to_owned()]
    );
    assert_eq!(import_names(&ns, "Hud"), vec!["Hud".to_owned()]);
}

#[test]
fn renders_sections_in_order_and_gathers_what_crossed_boxed() {
    let mut r = Report::new();
    r.functions(
        "Wren",
        vec![Function {
            name: "Boid.update(_)".into(),
            tier: Tier::Baseline,
            entries: Some(12),
        }],
    );
    r.sites(
        "Wren → Haxe",
        vec![
            Site {
                name: "World.x(_)".into(),
                direct: true,
                plain: 1,
                boxed_in: 0,
                boxed_out: 0,
            },
            Site {
                name: "Tally.new(_)".into(),
                direct: false,
                plain: 3,
                boxed_in: 3,
                boxed_out: 0,
            },
        ],
    );
    r.callbacks = Callbacks { typed: 2, boxed: 0 };
    let text = r.render();
    assert!(text.starts_with("Wren\n  Boid.update(_)"));
    assert!(text.contains("baseline     12\n"));
    assert!(text.contains("World.x(_)"));
    assert!(text.contains("direct       1 plain"));
    let boxed = text.split("Boxed:").nth(1).expect("a boxed section");
    assert!(boxed.contains("Tally.new(_)") && boxed.contains("  3 in\n"));
    assert!(!boxed.contains("World.x(_)"));
    assert!(text.ends_with("Callbacks: 2 typed, 0 boxed\n"));
}

#[test]
fn rows_are_listed_by_name() {
    let row = |name: &str| Function {
        name: name.into(),
        tier: Tier::Interpreted,
        entries: None,
    };
    let mut r = Report::new();
    r.functions("F", vec![row("b"), row("ab"), row("a")]);
    let text = r.render();
    let at = |s: &str| text.find(s).unwrap();
    assert!(at("  a ") < at("  ab") && at("  ab") < at("  b"));
}

#[test]
fn a_module_comes_from_one_file() {
    let mut files = SourceFiles::new();
    files.set_source(1, "hud", "src/hud.wren");
    files.set_source(2, "hud", "src/Hud.hx");
    files.set_source(1, "hud", "lib/hud.wren");
    let mut all: Vec<(u32, &str, &str)> = files
        .sources()
        .iter()
        .map(|f| (f.lang, f.module.as_str(), f.path.as_str()))
        .collect();
    all.sort();
    assert_eq!(
        all,
        [(1, "hud", "lib/hud.wren"), (2, "hud", "src/Hud.hx")]
    );
}
