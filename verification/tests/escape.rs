use merlion_render::svg::escape::{escape, is_dropped, push_escaped};

#[test]
fn five_specials_become_entities() {
    assert_eq!(escape(r#"a&b<c>d"e'f"#), "a&amp;b&lt;c&gt;d&quot;e&#39;f");
}

#[test]
fn hostile_markup_is_inert() {
    let e = escape("</text><script>alert(1)</script>");
    assert!(!e.contains('<') && !e.contains('>'));
    let e = escape(r#"" onload="x"#);
    assert!(!e.contains('"'));
}

#[test]
fn controls_and_non_characters_are_dropped() {
    assert_eq!(escape("a\u{0}b\u{7}c\u{1b}d\u{7f}e\u{85}f"), "abcdef");
    assert_eq!(escape("a\u{FFFE}b\u{FFFF}c"), "abc");
    assert_eq!(escape("a\rb"), "ab");
}

#[test]
fn tab_newline_and_unicode_survive() {
    assert_eq!(escape("a\tb\nc héllo 日本 👍"), "a\tb\nc héllo 日本 👍");
}

#[test]
fn bidi_controls_are_dropped() {
    assert_eq!(escape("a\u{202E}b\u{2066}c\u{2069}"), "abc");
}

#[test]
fn existing_entities_are_escaped_again() {
    assert_eq!(escape("&amp;"), "&amp;amp;");
}

#[test]
fn push_escaped_appends_to_existing_text() {
    let mut out = String::from("<t>");
    push_escaped(&mut out, "1 < 2");
    push_escaped(&mut out, "");
    assert_eq!(out, "<t>1 &lt; 2");
}

#[test]
fn dropped_characters_are_exactly_the_listed_ones() {
    assert!(!is_dropped('\t') && !is_dropped('\n') && !is_dropped('a') && !is_dropped('\u{a0}'));
    assert!(is_dropped('\r') && is_dropped('\u{9f}') && is_dropped('\u{202a}'));
    assert!(!is_dropped('\u{2065}') && !is_dropped('\u{202f}') && !is_dropped('\u{fffd}'));
}

#[test]
fn escaping_piecewise_equals_escaping_whole() {
    let whole = escape("a<b&c\u{1}d");
    let mut parts = escape("a<b");
    parts.push_str(&escape("&c\u{1}d"));
    assert_eq!(whole, parts);
}
