use merlion_render::parse::sequence::{
    alias_split, arrow_at, arrows, cut_comment, entity_len, floor_boundary, hundredths,
    is_comment_start, strip_prefix_ci, Head, MessageLine,
};

#[test]
fn sequence_arrows_are_ordered_longest_first() {
    let table = arrows();
    for w in table.windows(2) {
        assert!(w[0].0.len() >= w[1].0.len(), "{:?}", w[0].0);
    }
    // No token is a prefix of a later one, so the first match is the longest.
    for (i, (a, ..)) in table.iter().enumerate() {
        for (b, ..) in table.iter().skip(i + 1) {
            assert!(!b.starts_with(a), "{a} shadows {b}");
        }
    }
}

#[test]
fn entities_survive_comment_cutting() {
    assert_eq!(cut_comment("Alice # the buyer"), "Alice ");
    assert_eq!(cut_comment("#hearts; and #35;1"), "#hearts; and #35;1");
    assert_eq!(cut_comment("#hearts; # note"), "#hearts; ");
    assert_eq!(cut_comment("# only a comment"), "");
    assert_eq!(cut_comment("plain"), "plain");
}

#[test]
fn hundredths_take_two_decimals() {
    assert_eq!(hundredths("1"), Some(100));
    assert_eq!(hundredths("1.05"), Some(105));
    assert_eq!(hundredths("0.1"), Some(10));
    assert_eq!(hundredths("10"), Some(1000));
    assert_eq!(hundredths("1.005"), None);
    assert_eq!(hundredths("x"), None);
    assert_eq!(hundredths(""), None);
}

#[test]
fn alias_splitting_needs_a_whole_word() {
    assert_eq!(alias_split("A as Alice"), Some(("A", 5)));
    assert_eq!(alias_split("Cast as Bob"), Some(("Cast", 8)));
    assert_eq!(alias_split("Alice"), None);
    assert_eq!(alias_split("fast lane"), None);
}

#[test]
fn hundredths_signs_and_limits() {
    assert_eq!(hundredths("-2.5"), Some(-250));
    assert_eq!(hundredths("+.5"), Some(50));
    assert_eq!(hundredths("3."), Some(300));
    assert_eq!(hundredths("-"), None);
    assert_eq!(hundredths("1.2.3"), None);
    assert_eq!(hundredths("92233720368547758"), Some(9223372036854775800));
    assert_eq!(hundredths("92233720368547759"), None);
    assert_eq!(hundredths("99999999999999999999"), None);
}

#[test]
fn entity_codes_need_a_short_alphanumeric_body() {
    assert_eq!(entity_len("35;"), Some(3));
    assert_eq!(entity_len("x2665;rest"), Some(6));
    assert_eq!(entity_len(";"), None);
    assert_eq!(entity_len("abcdefghi;"), Some(10));
    assert_eq!(entity_len("abcdefghij;"), None);
    assert_eq!(entity_len("a b;"), None);
    assert_eq!(entity_len("abc"), None);
}

#[test]
fn comment_lines() {
    assert!(is_comment_start("%% note"));
    assert!(is_comment_start("# note"));
    assert!(!is_comment_start("#35; text"));
    assert!(!is_comment_start("A->>B"));
}

#[test]
fn arrows_are_found_at_an_offset() {
    assert_eq!(
        arrow_at("A-->>B", 1),
        Some(("-->>", MessageLine::Dotted, Head::Plain, Head::Filled))
    );
    assert_eq!(
        arrow_at("A->B", 1),
        Some(("->", MessageLine::Solid, Head::Plain, Head::Plain))
    );
    assert_eq!(arrow_at("A->B", 0), None);
    assert_eq!(arrow_at("A->B", 9), None);
    assert_eq!(arrow_at("é->B", 1), None);
}

#[test]
fn alias_keyword_is_case_insensitive_and_skips_gaps() {
    assert_eq!(alias_split("A  AS \tAlice"), Some(("A", 7)));
    assert_eq!(alias_split("as x"), None);
}

#[test]
fn floor_boundary_steps_back_to_a_character_start() {
    assert_eq!(floor_boundary("aé", 2), 1);
    assert_eq!(floor_boundary("aé", 3), 3);
    assert_eq!(floor_boundary("abc", 10), 3);
    assert_eq!(floor_boundary("", 5), 0);
    assert_eq!(floor_boundary("€", 2), 0);
}

#[test]
fn strip_prefix_ignores_ascii_case() {
    assert_eq!(strip_prefix_ci("WRAP: text", "wrap:"), Some(" text"));
    assert_eq!(strip_prefix_ci("nowrap:x", "wrap:"), None);
    assert_eq!(strip_prefix_ci("wr", "wrap:"), None);
    assert_eq!(strip_prefix_ci("NoWrap:", "nowrap:"), Some(""));
    // The prefix length must end on a character boundary of the text.
    assert_eq!(strip_prefix_ci("éx", "ab"), None);
}
