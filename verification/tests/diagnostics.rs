use caribou::diag::draw::{keywords, lang_color, page, page_text, render_string, NoSources, Paint, SourceMap};
use caribou::diag::fits::can_draw;
use caribou::diag::{report, DiagLabel, Diagnostic};
use caribou::error::{Error, Str};
use caribou::object::Objects;
use caribou::value::{ErrorKind, LangId, Value, LANG_CORE};
use caribou::world::Languages;

const HAXE: LangId = 3_001;
const WREN: LangId = 3_002;

fn sources() -> SourceMap {
    SourceMap {
        list: vec![
            (
                "Main.hx".to_owned(),
                "class Main {\n  static function main() {\n    Player.hit(3);\n  }\n}\n".to_owned(),
            ),
            (
                "player.wren".to_owned(),
                "class Player {\n  static hit(n) {\n    Fiber.abort(\"no\")\n  }\n}\n".to_owned(),
            ),
        ],
    }
}

#[test]
fn a_framed_error_with_a_cause_renders_every_part() {
    let mut objects = Objects::new();
    let langs = Languages::new();
    let e = Error::new(
        &mut objects,
        ErrorKind::User,
        "player took a hit it could not take",
        WREN,
    );
    let cause = Error::new(
        &mut objects,
        ErrorKind::Arithmetic,
        "hit points below zero",
        WREN,
    );
    Error::with_cause(&mut objects, e, cause);
    Error::push_frame(
        &mut objects,
        e,
        WREN,
        "hit",
        Some("player.wren"),
        Some((37, 54)),
    );
    Error::push_frame(
        &mut objects,
        e,
        HAXE,
        "main",
        Some("Main.hx"),
        Some((45, 58)),
    );
    Error::push_segment(&mut objects, e, LANG_CORE, "<callable>");
    let native = Str::new(&mut objects, "wren payload");
    Error::set_native(&mut objects, e, native);

    let diag = report(&objects, &langs, e);
    assert_eq!(diag.kind, ErrorKind::User);
    assert_eq!(diag.labels.len(), 2);
    assert_eq!(diag.labels[0].name, "hit");
    assert_eq!(diag.labels[0].source, "player.wren");
    assert_eq!(diag.labels[0].span, (37, 54));
    assert_eq!(diag.labels[1].lang, HAXE);
    assert_eq!(
        diag.notes,
        vec![
            "in core <callable>".to_owned(),
            format!("carries a {} object", langs.language_name(WREN)),
        ]
    );
    let cause = diag.cause.as_deref().expect("a cause");
    assert_eq!(cause.kind, ErrorKind::Arithmetic);
    assert!(cause.cause.is_none());

    let plain = render_string(&diag, &langs, &sources(), false);
    assert!(plain.contains("User"), "{plain}");
    assert!(
        plain.contains("player took a hit it could not take"),
        "{plain}"
    );
    assert!(plain.contains("hit"), "{plain}");
    assert!(plain.contains("main"), "{plain}");
    assert!(plain.contains("Fiber.abort(\"no\")"), "{plain}");
    assert!(plain.contains("Player.hit(3);"), "{plain}");
    assert!(
        plain.contains("[Arithmetic] Error: caused by: hit points below zero"),
        "{plain}"
    );
    assert!(plain.contains("carries a"), "{plain}");
    assert!(
        !plain.contains("\x1b["),
        "plain output carries no escapes: {plain}"
    );

    let coloured = render_string(&diag, &langs, &sources(), true);
    assert!(coloured.contains("\x1b["), "{coloured}");
}

#[test]
fn an_error_without_spans_is_a_header_and_notes() {
    let mut objects = Objects::new();
    let langs = Languages::new();
    let e = Error::new(
        &mut objects,
        ErrorKind::Type,
        "an int is not callable",
        LANG_CORE,
    );
    Error::push_segment(&mut objects, e, LANG_CORE, "<callable>");
    Error::push_segment(&mut objects, e, HAXE, "run");
    let diag = report(&objects, &langs, e);
    assert!(diag.labels.is_empty());
    assert_eq!(diag.notes.len(), 2);

    let plain = render_string(&diag, &langs, &NoSources, false);
    let lines: Vec<&str> = plain.lines().filter(|l| !l.trim().is_empty()).collect();
    assert_eq!(lines.len(), 3, "{plain}");
    assert_eq!(lines[0], "[Type] Error: an int is not callable");
    assert_eq!(lines[1], "   Note 1: in core <callable>");
    assert_eq!(
        lines[2],
        format!("   Note 2: in {} run", langs.language_name(HAXE))
    );
    let coloured = render_string(&diag, &langs, &NoSources, true);
    assert!(coloured.contains("\x1b["), "{coloured}");
    assert!(coloured.contains("\x1b[38;5;115mNote 1\x1b[0m: in core"), "{coloured}");
}

#[test]
fn a_label_whose_source_is_unknown_becomes_a_note() {
    let mut objects = Objects::new();
    let langs = Languages::new();
    let e = Error::new(&mut objects, ErrorKind::Index, "out of range", HAXE);
    Error::push_frame(&mut objects, e, HAXE, "at", Some("Gone.hx"), Some((1, 4)));
    let diag = report(&objects, &langs, e);
    assert_eq!(diag.labels.len(), 1);
    let plain = render_string(&diag, &langs, &NoSources, false);
    assert!(plain.contains("[Index] Error: out of range"), "{plain}");
    assert!(plain.contains("Gone.hx:1..4"), "{plain}");
}

#[test]
fn a_non_error_value_reports_as_a_payload() {
    let mut objects = Objects::new();
    let langs = Languages::new();
    let s = Str::new(&mut objects, "just a string");
    let diag = report(&objects, &langs, s);
    assert_eq!(diag.kind, ErrorKind::User);
    assert_eq!(diag.message, "just a string");
    assert_eq!(report(&objects, &langs, Value::Int(4)).message, "an int");
    let plain = render_string(&diag, &langs, &NoSources, false);
    assert!(plain.contains("just a string"));
}

#[test]
fn a_hand_built_diagnostic_renders_like_a_reported_one() {
    let langs = Languages::new();
    let diag = Diagnostic::new(ErrorKind::Runtime, "unknown method `hit`")
        .with_label(DiagLabel {
            lang: HAXE,
            name: "main".into(),
            source: "Main.hx".into(),
            span: (45, 58),
            message: "called here".into(),
        })
        .with_note("did you mean `hurt`?")
        .with_cause(Diagnostic::new(ErrorKind::Runtime, "no such member"));
    let plain = render_string(&diag, &langs, &sources(), false);
    assert!(
        plain.contains("[Runtime] Error: unknown method `hit`"),
        "{plain}"
    );
    assert!(plain.contains("Player.hit(3);"), "{plain}");
    assert!(plain.contains("did you mean `hurt`?"), "{plain}");
    assert!(
        plain.contains("[Runtime] Error: caused by: no such member"),
        "{plain}"
    );
}

#[test]
fn causes_are_cut_off_at_the_limit() {
    let mut objects = Objects::new();
    let langs = Languages::new();
    let e = Error::new(&mut objects, ErrorKind::User, "round", 1);
    Error::with_cause(&mut objects, e, e);
    let mut diag = &report(&objects, &langs, e);
    let mut n = 1;
    while let Some(c) = diag.cause.as_deref() {
        diag = c;
        n += 1;
    }
    assert_eq!(n, 16);
    assert_eq!(diag.notes, vec!["further causes omitted".to_owned()]);
}

#[test]
fn colours_go_round_the_languages() {
    assert_eq!(lang_color(0), Paint::Red);
    assert_eq!(lang_color(7), Paint::BrightBlue);
    assert_eq!(lang_color(8), Paint::Red);
    assert_eq!(lang_color(13), Paint::Yellow);
}

#[test]
fn notes_follow_a_report_without_sections() {
    let langs = Languages::new();
    let diag = Diagnostic::new(ErrorKind::User, "m").with_note("only");
    let p = page(&diag, "m".to_owned(), &langs, &NoSources);
    assert!(p.labels.is_empty() && p.notes.is_empty());
    let words = keywords(p.loose.len(), false);
    assert_eq!(
        page_text("drawn\n".to_owned(), &words, &p.loose),
        "drawn\n   Note: only\n"
    );
    // With a section they are the report's own.
    let diag = diag.with_label(DiagLabel {
        lang: 1,
        name: "f".into(),
        source: "Main.hx".into(),
        span: (0, 5),
        message: "here".into(),
    });
    let p = page(&diag, "m".to_owned(), &langs, &sources());
    assert_eq!(p.notes, vec!["only".to_owned()]);
    assert!(p.loose.is_empty());
    assert_eq!((p.at.as_str(), p.from, p.to), ("Main.hx", 0, 5));
}

#[test]
fn a_later_label_of_a_section_may_stand_anywhere_in_its_line() {
    let langs = Languages::new();
    let found = SourceMap {
        list: vec![
            ("m".to_owned(), "start\n".to_owned()),
            ("n".to_owned(), "a\u{e9}b\n".to_owned()),
        ],
    };
    let at = |source: &str, span, message: &str| DiagLabel {
        lang: WREN,
        name: "f".into(),
        source: source.into(),
        span,
        message: message.into(),
    };
    // The last label begins at byte 3, the third character: byte 2 is inside
    // the second.
    let diag = Diagnostic::new(ErrorKind::Runtime, "mixed")
        .with_label(at("m", (0, 5), "from here"))
        .with_label(at("n", (0, 1), "over this"))
        .with_label(at("n", (3, 4), "to there"));
    let plain = render_string(&diag, &langs, &found, false);
    assert!(plain.contains("Error: mixed"), "{plain}");
    assert!(plain.contains("to there"), "{plain}");
}

#[test]
fn a_label_inside_a_character_cannot_be_drawn() {
    let langs = Languages::new();
    let found = SourceMap {
        list: vec![
            ("m".to_owned(), "start\n".to_owned()),
            ("n".to_owned(), "a\u{e9}b\n".to_owned()),
        ],
    };
    let at = |source: &str, span| DiagLabel {
        lang: WREN,
        name: "f".into(),
        source: source.into(),
        span,
        message: "here".into(),
    };
    let with = |labels: Vec<DiagLabel>| {
        labels
            .into_iter()
            .fold(Diagnostic::new(ErrorKind::Runtime, "m"), |d, l| d.with_label(l))
    };
    let fits = |labels| can_draw(&with(labels), &langs, &found);
    assert!(fits(vec![]));
    assert!(fits(vec![at("m", (0, 5))]));
    assert!(fits(vec![at("n", (1, 3))]));
    assert!(!fits(vec![at("n", (2, 3))]), "it begins inside a character");
    assert!(!fits(vec![at("n", (1, 2))]), "it ends inside one");
    assert!(!fits(vec![at("m", (3, 1))]), "it ends before it begins");
    assert!(fits(vec![at("elsewhere", (2, 3))]), "a source nobody has");
    // The second label begins a section at byte 3, and as the third character
    // it is counted as if it were byte 2.
    assert!(!fits(vec![at("m", (0, 5)), at("n", (3, 4))]));
    assert!(fits(vec![at("m", (0, 5)), at("n", (0, 1)), at("n", (3, 4))]));
    // A cause is drawn too.
    let outer = with(vec![at("m", (0, 5))]).with_cause(with(vec![at("n", (2, 3))]));
    assert!(!can_draw(&outer, &langs, &found));
}

#[test]
fn a_label_has_the_colour_of_its_language() {
    let langs = Languages::new();
    let escapes = [31, 34, 32, 35, 36, 33, 91, 94].map(|n| format!("\u{1b}[{n}m"));
    for k in 0..8 {
        let label = DiagLabel {
            lang: 800 + k,
            name: "f".into(),
            source: "Main.hx".into(),
            span: (0, 5),
            message: "here".into(),
        };
        let diag = Diagnostic::new(ErrorKind::Runtime, "m").with_label(label);
        let coloured = render_string(&diag, &langs, &sources(), true);
        // The header is red whatever the label is.
        for (i, escape) in escapes.iter().enumerate().skip(1) {
            assert_eq!(coloured.contains(escape), i == k as usize, "{k} {i}");
        }
    }
}
