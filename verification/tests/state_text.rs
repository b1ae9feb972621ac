use merlion_render::parse::state::{
    arrow_at, arrows, cut_comment, is_comment_start, is_divider, label_colon, starts_a_statement,
    CANONICAL,
};

#[test]
fn state_arrows_are_ordered_longest_first() {
    let table = arrows();
    for w in table.windows(2) {
        assert!(w[0].len() >= w[1].len(), "{:?}", w[0]);
    }
    // No token is a prefix of a later one, so the first match is the longest.
    for (i, a) in table.iter().enumerate() {
        for b in table.iter().skip(i + 1) {
            assert!(!b.starts_with(a), "{a} shadows {b}");
        }
    }
    assert!(table.contains(&CANONICAL));
}

#[test]
fn a_divider_is_dashes_and_nothing_else() {
    for t in ["--", "  ----  ", "---"] {
        assert!(is_divider(t), "{t:?}");
    }
    for t in ["-", "-->", "--x", "a--", ""] {
        assert!(!is_divider(t), "{t:?}");
    }
}

#[test]
fn comments_cut_at_percent_and_at_a_bare_hash() {
    assert_eq!(cut_comment("A --> B %% tail"), "A --> B ");
    assert_eq!(cut_comment("A --> B # tail"), "A --> B ");
    assert_eq!(cut_comment("100#37; done"), "100#37; done");
    assert_eq!(cut_comment("50% off"), "50% off");
    assert_eq!(cut_comment("%% only"), "");
    assert_eq!(cut_comment("plain"), "plain");
}

#[test]
fn the_label_colon_skips_the_role_shorthand() {
    assert_eq!(label_colon("A:::r --> B"), None);
    assert_eq!(label_colon("A --> B : x"), Some(8));
    assert_eq!(label_colon("A : x"), Some(2));
    assert_eq!(label_colon("A:::r --> B:::s : x"), Some(16));
}

#[test]
fn state_arrows_match_the_longest_token() {
    assert_eq!(arrow_at("A-->B", 1), Some("-->"));
    assert_eq!(arrow_at("A--->B", 1), Some("--->"));
    assert_eq!(arrow_at("A==>B", 1), Some("==>"));
    assert_eq!(arrow_at("A B", 1), None);
    assert_eq!(arrow_at("A", 5), None);
}

#[test]
fn state_comment_lines() {
    assert!(is_comment_start("%% x"));
    assert!(is_comment_start("# x"));
    assert!(!is_comment_start("#35;"));
    assert!(!is_comment_start("% x"));
    assert_eq!(cut_comment("a %%"), "a ");
    assert_eq!(cut_comment("a %"), "a %");
}

#[test]
fn statement_starts_end_a_note_block() {
    assert!(starts_a_statement("A --> B"));
    assert!(starts_a_statement("  x => y "));
    assert!(starts_a_statement("a -.- b"));
    assert!(starts_a_statement("}"));
    assert!(starts_a_statement("[*] --> A"));
    assert!(starts_a_statement("-- "));
    assert!(starts_a_statement("STATE Moving"));
    assert!(starts_a_statement("classDef hot fill:red"));
    assert!(starts_a_statement("accDescr {"));
    // The first word runs to the first whitespace, colon included.
    assert!(!starts_a_statement("accTitle: x"));
    assert!(!starts_a_statement("   "));
    assert!(!starts_a_statement("just some note text"));
    assert!(!starts_a_statement("states are fine"));
}
