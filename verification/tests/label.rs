use merlion_render::parse::label::{
    clean_label, decode_entities, is_quote_start, named_entities, needs_quoting, quote_label,
    scan_quoted, truncate, QuoteScan,
};

#[test]
fn named_table_is_sorted() {
    let named = named_entities();
    assert!(named.windows(2).all(|w| w[0].0 < w[1].0));
}

#[test]
fn quoted_scans() {
    let q = |s: &str| scan_quoted(s, 0);
    assert_eq!(q("x"), QuoteScan::NotQuote);
    assert_eq!(q("\"abc"), QuoteScan::Unterminated { typographic: false });
    match q("“a’b” tail") {
        QuoteScan::Found(f) => {
            assert_eq!(&"“a’b” tail"[f.content_start..f.content_end], "a’b");
            assert_eq!(f.typographic.len(), 2);
        }
        other => panic!("{other:?}"),
    }
    match q("\"a\nb\"") {
        QuoteScan::Found(f) => assert_eq!((f.content_end, f.end), (4, 5)),
        other => panic!("{other:?}"),
    }
    match q("“mixed\"") {
        QuoteScan::Found(f) => assert_eq!(f.typographic, vec![(0, 3)]),
        other => panic!("{other:?}"),
    }
}

#[test]
fn cleaning() {
    assert_eq!(clean_label("  a  "), "a");
    assert_eq!(clean_label("`**x**`"), "**x**");
    assert_eq!(clean_label("a\n  b\n c"), "a\nb\nc");
    assert_eq!(clean_label("a<br />b<BR/>c<br"), "a\nb\nc<br");
    // An escaped break is text, and splitting before decoding keeps it one line.
    assert_eq!(clean_label("a#lt;br#gt;b"), "a<br>b");
    assert_eq!(
        clean_label("#35;#quot;#amp;#x41;#65;#bogus;#"),
        "#\"&AA#bogus;#"
    );
    assert_eq!(clean_label("#1;#127;"), "#1;#127;");
}

#[test]
fn quoting_and_truncation() {
    assert_eq!(
        quote_label(" say \"hi\" (x) "),
        "\"say #quot;hi#quot; (x)\""
    );
    assert!(needs_quoting("a:b") && needs_quoting("f(x)") && !needs_quoting("plain"));
    let mut s = String::from("aé");
    assert!(truncate(&mut s, 2));
    assert_eq!(s, "a");
    let mut s = String::from("ab");
    assert!(!truncate(&mut s, 2));
}

#[test]
fn scan_starts_only_at_a_quote_on_a_boundary() {
    assert_eq!(scan_quoted("é\"x\"", 1), QuoteScan::NotQuote);
    assert_eq!(scan_quoted("ab", 7), QuoteScan::NotQuote);
    assert_eq!(scan_quoted("‘open", 0), QuoteScan::Unterminated { typographic: true });
    match scan_quoted("a \"b\" c", 2) {
        QuoteScan::Found(f) => {
            assert_eq!((f.content_start, f.content_end, f.end), (3, 4, 5));
            assert!(f.typographic.is_empty());
        }
        other => panic!("{other:?}"),
    }
    assert!(is_quote_start('”') && !is_quote_start('’'));
}

#[test]
fn entity_codes_decode_or_stay_literal() {
    assert_eq!(decode_entities("#x2665; #hearts; #X41;"), "♥ ♥ A");
    assert_eq!(decode_entities("#xD800;#x110000;#xFFFFFFF;"), "#xD800;#x110000;#xFFFFFFF;");
    assert_eq!(decode_entities("#12345678;#0065;"), "#12345678;A");
    assert_eq!(decode_entities("#averyverylongname;"), "#averyverylongname;");
    assert_eq!(decode_entities("##amp;;"), "#&;");
    assert_eq!(decode_entities(""), "");
}

#[test]
fn clean_label_keeps_entity_breaks_out_of_the_line_split() {
    assert_eq!(clean_label("` `"), "");
    assert_eq!(clean_label("`"), "`");
    assert_eq!(clean_label("a <br  >b"), "a\nb");
    assert_eq!(clean_label("x#10;y"), "x#10;y");
}

#[test]
fn truncation_backs_off_to_a_character_boundary() {
    let mut s = String::from("日本");
    assert!(truncate(&mut s, 4));
    assert_eq!(s, "日");
    let mut s = String::from("日本");
    assert!(truncate(&mut s, 0));
    assert_eq!(s, "");
}
