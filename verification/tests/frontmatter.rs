use merlion_render::parse::config::{Entry, Value};
use merlion_render::parse::frontmatter::parse_yaml;

fn s(v: &str) -> Value {
    Value::Str(String::from(v))
}

fn get<'a>(entries: &'a [Entry], key: &str) -> Option<&'a Value> {
    entries.iter().find(|e| e.key == key).map(|e| &e.value)
}

fn map(v: Option<&Value>) -> &[Entry] {
    match v {
        Some(Value::Mapping(m)) => m,
        other => panic!("expected a map, got {other:?}"),
    }
}

#[test]
fn nested_block_mappings_and_scalars() {
    let body = "title: Hello world\nconfig:\n  layout: elk\n  flowchart:\n    curve: 'basis' # c\n  theme: \"dark\"\naccDescr: a: b\n";
    let r = parse_yaml(body, 0, 64);
    // `a: b` is not a plain scalar in YAML.
    assert!(r.is_err());
    let body = "title: Hello world\nconfig:\n  layout: elk\n  flowchart:\n    curve: 'basis' # c\n  theme: \"da\\\"rk\"\n# comment\n\naccTitle: x #y\n";
    let e = parse_yaml(body, 10, 64).unwrap();
    assert_eq!(get(&e, "title"), Some(&s("Hello world")));
    assert_eq!(get(&e, "accTitle"), Some(&s("x")));
    let config = map(get(&e, "config"));
    assert_eq!(get(config, "layout"), Some(&s("elk")));
    assert_eq!(get(config, "theme"), Some(&s("da\"rk")));
    let fc = map(get(config, "flowchart"));
    assert_eq!(get(fc, "curve"), Some(&s("basis")));
    // Key ranges are absolute.
    let t = &e[0];
    assert_eq!((t.start, t.end), (10, 15));
}

#[test]
fn flow_sequences_and_empty_values() {
    let e = parse_yaml("a: [x, \"y z\", 'w']\nb:\nc: ''\nd: []", 0, 64).unwrap();
    assert_eq!(get(&e, "a"), Some(&Value::List(vec![s("x"), s("y z"), s("w")])));
    assert_eq!(get(&e, "b"), Some(&Value::Null));
    assert_eq!(get(&e, "c"), Some(&s("")));
    assert_eq!(get(&e, "d"), Some(&Value::List(Vec::new())));
}

#[test]
fn single_quote_escape_and_crlf() {
    let e = parse_yaml("t: 'it''s'\r\nu: v\r\n", 0, 64).unwrap();
    assert_eq!(get(&e, "t"), Some(&s("it's")));
    assert_eq!(get(&e, "u"), Some(&s("v")));
}

#[test]
fn rejected_constructs() {
    let cases = [
        ("a: &anchor x", "anchor"),
        ("a: *alias", "alias"),
        ("a: !tag x", "tag"),
        ("a: |\n  text", "block scalar"),
        ("a: >\n  text", "block scalar"),
        ("a: {b: c}", "flow mapping"),
        ("a:\n  - x", "block sequence"),
        ("- x", "block sequence"),
        ("a: x\na: y", "duplicate"),
        ("a: x\n...\n", "document"),
        ("a: x\n---\nb: y", "document"),
        ("? a\n: b", "complex key"),
        ("a: b\n  c: d", "indentation"),
        ("a:\n\tb: c", "tab"),
        ("just text", "key: value"),
        ("a: [x, y", "flow sequence"),
        ("a: \"unterminated", "quoted"),
        ("a: [&x y]", "anchor"),
        ("&a b: c", "anchor"),
        ("a:\n    b: c\n  d: e", "indentation"),
    ];
    for (body, needle) in cases {
        match parse_yaml(body, 0, 64) {
            Ok(v) => panic!("{body:?} accepted as {v:?}"),
            Err(e) => assert!(
                e.message.contains(needle),
                "{body:?}: {} does not mention {needle}",
                e.message
            ),
        }
    }
}

#[test]
fn nesting_limit() {
    let mut body = String::new();
    for i in 0..70 {
        for _ in 0..i {
            body.push_str("  ");
        }
        body.push_str("k:\n");
    }
    let err = parse_yaml(&body, 0, 64).unwrap_err();
    assert!(err.message.contains("64"), "{}", err.message);
    let mut ok = String::new();
    for i in 0..64 {
        for _ in 0..i {
            ok.push(' ');
        }
        ok.push_str("k:\n");
    }
    assert!(parse_yaml(&ok, 0, 64).is_ok());
}

#[test]
fn duplicate_keys_in_different_maps_are_fine() {
    assert!(parse_yaml("a:\n  x: 1\nb:\n  x: 2", 0, 64).is_ok());
}

#[test]
fn error_ranges_are_absolute_byte_offsets() {
    // The duplicate key's own range, after a two-byte character earlier in the body.
    let e = parse_yaml("é: x\né: y", 100, 64).unwrap_err();
    assert_eq!(e.message, "duplicate key `é`");
    assert_eq!((e.start, e.end), (106, 108));
    // A tab in the indentation: the indentation itself.
    let e = parse_yaml("a:\n \tb: c", 0, 64).unwrap_err();
    assert_eq!((e.start, e.end), (3, 5));
    assert_eq!(e.message, "tab characters are not allowed in YAML indentation");
    // An invalid escape points at the escape letter and runs to the end of the value.
    let e = parse_yaml("a: \"x\\q\"", 0, 64).unwrap_err();
    assert_eq!(e.message, "invalid escape in quoted scalar");
    assert_eq!((e.start, e.end), (6, 8));
}

#[test]
fn nested_mapping_ranges_and_null_values() {
    let e = parse_yaml("outer:\n  inner: v\n  empty:\nlast:", 5, 64).unwrap();
    assert_eq!(e.len(), 2);
    assert_eq!((e[0].key.as_str(), e[0].start, e[0].end), ("outer", 5, 10));
    let inner = map(Some(&e[0].value));
    assert_eq!((inner[0].start, inner[0].end), (14, 19));
    assert_eq!(inner[0].value, s("v"));
    assert_eq!(inner[1].value, Value::Null);
    assert_eq!(e[1].value, Value::Null);
}

#[test]
fn double_quoted_escapes_decode() {
    let e = parse_yaml("a: \"\\x41\\u00e9\\t\\/\"\nb: '\\n'", 0, 64).unwrap();
    assert_eq!(get(&e, "a"), Some(&s("Aé\t/")));
    // Single quotes keep backslashes.
    assert_eq!(get(&e, "b"), Some(&s("\\n")));
    // A surrogate is not a character.
    assert!(parse_yaml("a: \"\\ud800\"", 0, 64).is_err());
}

#[test]
fn flow_sequences_nest_within_the_depth_limit() {
    let e = parse_yaml("a: [[x], [], y ] # done", 0, 64).unwrap();
    assert_eq!(
        get(&e, "a"),
        Some(&Value::List(vec![Value::List(vec![s("x")]), Value::List(Vec::new()), s("y")]))
    );
    let err = parse_yaml("a: [[[x]]]", 0, 2).unwrap_err();
    assert_eq!(err.message, "front matter nests deeper than 2 levels");
    assert!(parse_yaml("a: [x] y", 0, 64).is_err());
}

#[test]
fn quoted_keys_and_comments() {
    let e = parse_yaml("'my key' : 1 # one\n\"k2\": two", 0, 64).unwrap();
    assert_eq!(get(&e, "my key"), Some(&s("1")));
    assert_eq!((e[0].start, e[0].end), (0, 8));
    assert_eq!(get(&e, "k2"), Some(&s("two")));
    assert!(parse_yaml("", 0, 64).unwrap().is_empty());
    assert!(parse_yaml("# only a comment\n\n", 0, 64).unwrap().is_empty());
}
