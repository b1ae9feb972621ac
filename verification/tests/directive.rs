use merlion_render::parse::config::{Entry, Value};
use merlion_render::parse::directive::{parse_directive, JsonError};

fn s(v: &str) -> Value {
    Value::Str(String::from(v))
}

fn num(v: &str) -> Value {
    Value::Num(String::from(v))
}

fn entries(v: &Value) -> &[Entry] {
    match v {
        Value::Mapping(m) => m,
        other => panic!("expected a map, got {other:?}"),
    }
}

#[test]
fn init_with_json_and_loose_json_keeps_number_text() {
    let d = parse_directive(
        "init: {\"theme\": \"dark\", 'flowchart': {'curve': 'basis', n: -1.5e2, t: true, f: false, z: null, l: [1, 'a',],},}",
        3,
        64,
        4096,
    )
    .unwrap();
    assert_eq!(d.kind, "init");
    let v = d.value.unwrap();
    let top = entries(&v);
    assert_eq!(top[0].key, "theme");
    assert_eq!(top[0].value, s("dark"));
    // Key ranges are absolute: `"theme"` starts at 3 + 7.
    assert_eq!((top[0].start, top[0].end), (10, 17));
    let fc = entries(&top[1].value);
    assert_eq!(fc[0].value, s("basis"));
    assert_eq!(fc[1].value, num("-1.5e2"));
    assert_eq!(fc[2].value, Value::Bool(true));
    assert_eq!(fc[3].value, Value::Bool(false));
    assert_eq!(fc[4].value, Value::Null);
    assert_eq!(fc[5].value, Value::List(vec![num("1"), s("a")]));
}

#[test]
fn string_escapes() {
    let d = parse_directive(r#"init: {"a": "q\"\\\/\n\t\u00e9\ud83d\ude00"}"#, 0, 64, 4096).unwrap();
    let v = d.value.unwrap();
    assert_eq!(entries(&v)[0].value, s("q\"\\/\n\té\u{1f600}"));
}

#[test]
fn bare_directives() {
    let d = parse_directive(" wrap ", 0, 64, 4096).unwrap();
    assert_eq!(d.kind, "wrap");
    assert_eq!(d.value, None);
    let d = parse_directive("initialize: {}", 0, 64, 4096).unwrap();
    assert_eq!(d.kind, "initialize");
}

#[test]
fn malformed() {
    for inner in [
        "init: {",
        "init: {\"a\" 1}",
        "init: {\"a\": }",
        "init: {\"a\": 1} x",
        "init: \"unterminated",
        "init: {\"a\": \"\\q\"}",
        "init: {\"a\": \"\\ud800\"}",
        "init: [1 2]",
        "init: tru",
        ": {}",
        "init: 01x",
    ] {
        match parse_directive(inner, 0, 64, 4096) {
            Err(JsonError::Malformed { .. }) => {}
            other => panic!("{inner:?}: {other:?}"),
        }
    }
}

#[test]
fn limits() {
    let deep = format!("init: {}1{}", "[".repeat(65), "]".repeat(65));
    assert!(matches!(parse_directive(&deep, 0, 64, 4096), Err(JsonError::TooLarge { .. })));
    let ok = format!("init: {}1{}", "[".repeat(64), "]".repeat(64));
    assert!(parse_directive(&ok, 0, 64, 4096).is_ok());
    let long = format!("init: {{\"a\": \"{}\"}}", "x".repeat(4097));
    assert!(matches!(parse_directive(&long, 0, 64, 4096), Err(JsonError::TooLarge { .. })));
    let fits = format!("init: {{\"a\": \"{}\"}}", "x".repeat(4096));
    assert!(parse_directive(&fits, 0, 64, 4096).is_ok());
    // Deep nesting far beyond the limit returns an error instead of exhausting the stack.
    let very_deep = format!("init: {}", "{\"a\":".repeat(100_000));
    assert!(matches!(parse_directive(&very_deep, 0, 64, 4096), Err(JsonError::TooLarge { .. })));
}

#[test]
fn numbers_that_overflow_a_double_are_refused() {
    // The largest finite double parses.
    assert!(parse_directive("init: 1.7976931348623157e308", 0, 64, 4096).is_ok());
    assert!(parse_directive("init: -1.7976931348623157e308", 0, 64, 4096).is_ok());
    // Just below the halfway point to the next power of two still rounds down.
    assert!(parse_directive("init: 1.7976931348623158e308", 0, 64, 4096).is_ok());
    // The halfway point itself rounds to infinity, and so does anything larger.
    let limit = "179769313486231580793728971405303415079934132710037826936173778980444968292764750946649017977587207096330286416692887910946555547851940402630657488671505820681908902000708383676273854845817711531764475730270069855571366959622842914819860834936475292719074168444365510704342711559699508093042880177904174497792";
    assert_eq!(
        parse_directive(&format!("init: {limit}"), 0, 64, 4096),
        Err(JsonError::Malformed {
            start: 6 + limit.len(),
            end: 6 + limit.len(),
            message: String::from("invalid number")
        })
    );
    let below = "179769313486231580793728971405303415079934132710037826936173778980444968292764750946649017977587207096330286416692887910946555547851940402630657488671505820681908902000708383676273854845817711531764475730270069855571366959622842914819860834936475292719074168444365510704342711559699508093042880177904174497791";
    assert!(parse_directive(&format!("init: {below}"), 0, 64, 4096).is_ok());
    assert!(parse_directive(&format!("init: {below}.9999999999"), 0, 64, 4096).is_ok());
    assert!(parse_directive("init: 1e309", 0, 64, 4096).is_err());
    assert!(parse_directive("init: 1e99999999999999999999999", 0, 64, 4096).is_err());
    // Tiny and zero magnitudes are finite, whatever the exponent.
    assert!(parse_directive("init: 1e-99999999999999999999999", 0, 64, 4096).is_ok());
    assert!(parse_directive("init: 0e99999999999999999999999", 0, 64, 4096).is_ok());
    assert!(parse_directive("init: 0.000017976931348623159e313", 0, 64, 4096).is_err());
    assert!(parse_directive("init: 0.000017976931348623157e313", 0, 64, 4096).is_ok());
}

#[test]
fn number_syntax_errors_point_at_the_number() {
    assert_eq!(
        parse_directive("init: -x", 10, 64, 4096),
        Err(JsonError::Malformed { start: 16, end: 16, message: String::from("invalid number") })
    );
    assert_eq!(
        parse_directive("init: 1.", 0, 64, 4096),
        Err(JsonError::Malformed { start: 6, end: 6, message: String::from("invalid number") })
    );
    assert_eq!(
        parse_directive("init: 1e+", 0, 64, 4096),
        Err(JsonError::Malformed { start: 6, end: 6, message: String::from("invalid number") })
    );
}

#[test]
fn errors_carry_absolute_byte_offsets() {
    // The key after a two-byte character.
    assert_eq!(
        parse_directive("init: {\"é\": 1 ?}", 100, 64, 4096),
        Err(JsonError::Malformed {
            start: 115,
            end: 115,
            message: String::from("expected `,` or `}`")
        })
    );
    assert_eq!(
        parse_directive("init: [[1]]", 0, 1, 4096),
        Err(JsonError::TooLarge {
            start: 7,
            end: 7,
            message: String::from("directive JSON nests deeper than 1")
        })
    );
    assert_eq!(
        parse_directive("init: 'abcdef'", 0, 64, 4),
        Err(JsonError::TooLarge {
            start: 6,
            end: 12,
            message: String::from("directive string longer than 4 bytes")
        })
    );
    assert_eq!(
        parse_directive("", 0, 64, 4096),
        Err(JsonError::Malformed {
            start: 0,
            end: 0,
            message: String::from("expected a directive name such as `init`")
        })
    );
}

#[test]
fn finite_numbers_agree_with_std_parsing() {
    let limit = "179769313486231580793728971405303415079934132710037826936173778980444968292764750946649017977587207096330286416692887910946555547851940402630657488671505820681908902000708383676273854845817711531764475730270069855571366959622842914819860834936475292719074168444365510704342711559699508093042880177904174497792";
    let below = "179769313486231580793728971405303415079934132710037826936173778980444968292764750946649017977587207096330286416692887910946555547851940402630657488671505820681908902000708383676273854845817711531764475730270069855571366959622842914819860834936475292719074168444365510704342711559699508093042880177904174497791";
    let mut cases: Vec<String> = vec![
        "0", "-0", "1", "1e308", "10e307", "0.1e309", "0.1e310", "1e309", "-1e309",
        "1.7976931348623157e308", "1.7976931348623158e308", "1.7976931348623159e308",
        "17976931348623158e292", "17976931348623159e292", "1e-400", "123.456e-7",
        "99999999999999999999e289", "99999999999999999999e288",
    ]
    .into_iter()
    .map(String::from)
    .collect();
    cases.push(String::from(limit));
    cases.push(String::from(below));
    cases.push(format!("{below}.5"));
    cases.push(format!("{below}.99999999999999999999"));
    cases.push(format!("0.{limit}e309"));
    cases.push(format!("0.{below}e309"));
    cases.push(format!("{limit}0e-1"));
    cases.push(format!("{below}9e-1"));
    for text in cases {
        let finite = text.parse::<f64>().unwrap().is_finite();
        let accepted = parse_directive(&format!("init: {text}"), 0, 64, 4096).is_ok();
        assert_eq!(accepted, finite, "{text}");
    }
}
