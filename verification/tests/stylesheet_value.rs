use merlion_render::stylesheet::value::{
    classify, forbidden, is_class_name, is_theme_name, parse_selector, parse_var, ClassProp,
    Name, Selector, Token,
};
use merlion_render::svg::theme::Role;

#[test]
fn names() {
    assert_eq!(
        classify("--merlion-bg"),
        Name::Theme(Token::Colour(Role::Bg))
    );
    assert_eq!(
        classify("--merlion-series-8"),
        Name::Theme(Token::Series(8))
    );
    assert_eq!(classify("--merlion-series-9"), Name::Rejected);
    assert_eq!(classify("--merlion-font"), Name::Rejected);
    assert_eq!(
        classify("--merlion-c-a-b-color"),
        Name::Theme(Token::Class("a-b".into(), ClassProp::Color))
    );
    assert_eq!(classify("--merlion-c--fill"), Name::Rejected);
    assert_eq!(classify("--brand"), Name::Private("--brand".into()));
    assert_eq!(classify("fill"), Name::Rejected);
    assert_eq!(classify("--"), Name::Rejected);
}

#[test]
fn selectors() {
    assert_eq!(parse_selector(":root", false), Some(Selector::Root));
    assert_eq!(parse_selector(":root", true), None);
    assert_eq!(
        parse_selector("[data-theme='a-1']", false),
        Some(Selector::Theme("a-1".into()))
    );
    assert_eq!(
        parse_selector("[data-theme=\"d\"] .merlion .merlion-cc-x", false),
        Some(Selector::Role {
            theme: Some("d".into()),
            cluster: true,
            name: "x".into()
        })
    );
    assert_eq!(
        parse_selector(".merlion .merlion .merlion-c-x", false),
        None
    );
    assert_eq!(parse_selector(".merlion-c-x.merlion-c-y", false), None);
    assert_eq!(parse_selector("[data-theme=d]", false), None);
}

#[test]
fn auto_dark_selector_only_inside_media() {
    assert_eq!(
        parse_selector(":root:not([data-theme])", true),
        Some(Selector::AutoDark)
    );
    assert_eq!(parse_selector(":root:not([data-theme])", false), None);
    assert_eq!(
        parse_selector(".merlion-c-node", false),
        Some(Selector::Role {
            theme: None,
            cluster: false,
            name: "node".into()
        })
    );
}

#[test]
fn forbidden_values_name_their_reason() {
    assert_eq!(forbidden("a\\b"), Some("CSS escapes are not accepted"));
    assert_eq!(forbidden("'x'"), Some("quoted strings are not accepted"));
    assert_eq!(forbidden("red !IMPORTANT"), Some("`!important` is not accepted"));
    assert_eq!(forbidden("r\u{e9}d"), Some("values are ASCII"));
    assert_eq!(
        forbidden("URL(x)"),
        Some("only literal colours, numbers and `var()` are accepted")
    );
    assert_eq!(forbidden("red;"), Some("unexpected character"));
    assert_eq!(forbidden("1/2"), Some("unexpected character"));
    assert_eq!(forbidden("rgb(1 2 3 / 50%)"), None);
    assert_eq!(forbidden("#fff"), None);
}

#[test]
fn var_references_split_name_and_fallback() {
    assert_eq!(parse_var("var(--a)"), Some(("--a", None)));
    assert_eq!(parse_var("var( --a , #fff )"), Some(("--a", Some("#fff"))));
    assert_eq!(parse_var("var(a)"), None);
    assert_eq!(parse_var("var(--a"), None);
    assert_eq!(parse_var("--a"), None);
}

#[test]
fn class_and_theme_names() {
    assert!(is_class_name("a-b_1"));
    assert!(!is_class_name(""));
    assert!(is_theme_name("a-1"));
}
