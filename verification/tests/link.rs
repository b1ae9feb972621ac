use merlion_render::parse::link::check_url;
use merlion_render::svg::link::safe_href;

#[test]
fn accepted_urls() {
    let cases = [
        ("https://example.com/a?b=c#d", "https://example.com/a?b=c#d"),
        ("http://example.com", "http://example.com"),
        ("HTTPS://EXAMPLE.COM", "HTTPS://EXAMPLE.COM"),
        ("mailto:a@example.com", "mailto:a@example.com"),
        ("/docs/page", "/docs/page"),
        ("page.html", "page.html"),
        ("../up", "../up"),
        ("#anchor", "#anchor"),
        ("?q=1", "?q=1"),
        ("//cdn.example.com/x", "//cdn.example.com/x"),
        ("docs/a:b", "docs/a:b"),
        ("ht\ttps://example.com", "https://example.com"),
        ("  https://example.com  ", "https://example.com"),
    ];
    for (input, want) in cases {
        assert_eq!(check_url(input).as_deref(), Some(want), "{input:?}");
    }
}

#[test]
fn rejected_urls() {
    for input in [
        "javascript:alert(1)",
        "JavaScript:alert(1)",
        "java\tscript:alert(1)",
        "java\nscript:alert(1)",
        " javascript:alert(1)",
        "\u{1}javascript:alert(1)",
        "data:text/html,<script>",
        "vbscript:x",
        "file:///etc/passwd",
        "ftp://example.com",
        "",
        "   ",
    ] {
        assert_eq!(check_url(input), None, "{input:?}");
    }
}

#[test]
fn parser_treats_an_empty_scheme_as_relative_and_a_bad_one_as_absolute() {
    assert_eq!(check_url(":x").as_deref(), Some(":x"));
    assert_eq!(check_url("a b:c"), None);
    assert_eq!(check_url("a b/c:d").as_deref(), Some("a b/c:d"));
    assert_eq!(check_url("\u{0} \r\n"), None);
}

#[test]
fn accepted_schemes_and_relative() {
    for u in [
        "https://example.com/a?b=c#d",
        "HTTP://x",
        "mailto:a@b.c",
        "/docs/page",
        "page.html",
        "#frag",
        "?q=1",
        "a/b:c",
    ] {
        assert_eq!(safe_href(u).as_deref(), Some(u), "{}", u);
    }
}

#[test]
fn active_schemes_are_rejected() {
    for u in [
        "javascript:alert(1)",
        "JaVaScRiPt:alert(1)",
        "java\tscript:alert(1)",
        "java\nscript:alert(1)",
        " javascript:alert(1)",
        "\u{1}javascript:alert(1)",
        "data:text/html,<script>",
        "vbscript:x",
        "file:///etc/passwd",
        "",
        "   ",
    ] {
        assert_eq!(safe_href(u), None, "{:?}", u);
    }
}

#[test]
fn whitespace_is_removed_from_accepted_urls() {
    assert_eq!(
        safe_href("ht\ttps://exa\nmple.com").as_deref(),
        Some("https://example.com")
    );
}

#[test]
fn draw_stage_keeps_text_that_is_not_a_scheme() {
    assert_eq!(safe_href("a b:c").as_deref(), Some("a b:c"));
    assert_eq!(safe_href("1x:y").as_deref(), Some("1x:y"));
    assert_eq!(safe_href("ftp:x"), None);
}

#[test]
fn an_accepted_url_checks_again_unchanged() {
    for raw in [" https://x.org/a b\t", "\u{1}mailto:me@x.org\n", "/rel?q=1", "HTTP://Up"] {
        let t = check_url(raw).unwrap();
        assert_eq!(check_url(&t).as_deref(), Some(t.as_str()));
        assert!(!t.contains(['\t', '\n', '\r']));
        assert!(t.chars().next().unwrap() > ' ' && t.chars().last().unwrap() > ' ');
    }
}
