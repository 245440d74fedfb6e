use caribou::bundle::{emit, load, looks_like, Bundle, Entry, Error, Manifest, Section, SectionKind};
use caribou::namespace::Namespace;

fn sample() -> Bundle {
    Bundle {
        manifest: Manifest {
            name: "hud".to_owned(),
            entry: Entry {
                lang: "haxe".to_owned(),
                module: "hud".to_owned(),
            },
            namespaces: vec![
                Namespace {
                    name: "game".to_owned(),
                    langs: vec!["haxe".to_owned(), "wren".to_owned()],
                    modules: None,
                },
                Namespace {
                    name: "ui".to_owned(),
                    langs: vec!["wren".to_owned()],
                    modules: Some(vec!["hud".to_owned()]),
                },
            ],
        },
        sections: vec![
            Section {
                kind: SectionKind::Module,
                lang: "haxe".to_owned(),
                format: "hl".to_owned(),
                name: "hud".to_owned(),
                data: b"HLB\x05...".to_vec(),
            },
            Section {
                kind: SectionKind::Module,
                lang: "wren".to_owned(),
                format: "source".to_owned(),
                name: "game/hud".to_owned(),
                data: b"class Hud {}\n".to_vec(),
            },
            Section {
                kind: SectionKind::Source,
                lang: "wren".to_owned(),
                format: String::new(),
                name: "game/hud".to_owned(),
                data: b"class Hud {}\n".to_vec(),
            },
            Section {
                kind: SectionKind::Resource,
                lang: String::new(),
                format: String::new(),
                name: "font.ttf".to_owned(),
                data: vec![0, 1, 2],
            },
            Section {
                kind: SectionKind::NativeLib,
                lang: String::new(),
                format: "aarch64-macos".to_owned(),
                name: "libmath.dylib".to_owned(),
                data: vec![0xcf, 0xfa, 0xed, 0xfe],
            },
            Section {
                kind: SectionKind::Language,
                lang: "zynml".to_owned(),
                format: "zsnap".to_owned(),
                name: "zynml.zsnap".to_owned(),
                data: b"ZSNP...".to_vec(),
            },
            Section {
                kind: SectionKind::Language,
                lang: "python".to_owned(),
                format: "builtin".to_owned(),
                name: String::new(),
                data: Vec::new(),
            },
        ],
    }
}

#[test]
fn a_bundle_survives_the_round_trip() {
    let bundle = sample();
    let bytes = emit(&bundle);
    assert!(looks_like(&bytes));
    let back = load(&bytes).expect("loads");
    assert_eq!(back, bundle);
    assert_eq!(back.entry().map(|s| s.name.as_str()), Some("hud"));
    assert_eq!(back.modules().len(), 2);
    assert_eq!(back.native_libs("aarch64-macos").len(), 1);
    assert_eq!(back.native_libs("x86_64-windows").len(), 0);
    let languages: Vec<(&str, &str)> = back
        .languages()
        .iter()
        .map(|s| (s.lang.as_str(), s.format.as_str()))
        .collect();
    assert_eq!(languages, [("zynml", "zsnap"), ("python", "builtin")]);
}

#[test]
fn what_is_not_a_bundle_is_refused() {
    assert_eq!(load(b"HLB").unwrap_err(), Error::NotABundle);
    let bytes = emit(&sample());
    assert_eq!(load(&bytes[..20]).unwrap_err(), Error::Truncated);
    let mut other = bytes.clone();
    other[8..12].copy_from_slice(&99u32.to_le_bytes());
    assert_eq!(load(&other).unwrap_err(), Error::Version(99));
    let mut flagged = bytes.clone();
    flagged[12] = 1;
    assert_eq!(load(&flagged).unwrap_err(), Error::Flags(1));
}

#[test]
fn every_cut_of_a_bundle_is_refused() {
    let bytes = emit(&sample());
    for n in 8..bytes.len() {
        assert_eq!(load(&bytes[..n]).unwrap_err(), Error::Truncated);
    }
    let mut longer = bytes.clone();
    longer.push(0);
    assert_eq!(load(&longer).expect("what follows is left alone"), sample());
}

#[test]
fn text_that_is_no_text_is_refused() {
    // The bundle's name is the first text after the header: its length, then
    // its bytes.
    let mut bytes = emit(&sample());
    let at = bytes.windows(3).position(|w| w == b"hud").unwrap();
    bytes[at] = 0xff;
    assert_eq!(load(&bytes).unwrap_err(), Error::Text);
    let mut strange = emit(&Bundle {
        manifest: sample().manifest,
        sections: vec![Section {
            kind: SectionKind::Resource,
            lang: String::new(),
            format: String::new(),
            name: "\u{e9}t\u{e9}".to_owned(),
            data: vec![7],
        }],
    });
    assert_eq!(load(&strange).unwrap().sections[0].name, "\u{e9}t\u{e9}");
    let last = strange.len();
    strange[last - 1] = 8;
    assert_eq!(load(&strange).unwrap().sections[0].data, vec![8]);
}
