use merlion_render::svg::style::{dark_prefix, drop_unsafe_rules, push_rule, push_token_reset, RoleRule, SourceRule};

#[test]
fn dark_prefix_scopes_to_the_dark_table() {
    assert_eq!(dark_prefix("m1"), "#m1:not(:is([data-theme=\"light\"] *)) ");
}

#[test]
fn unsafe_pieces_are_dropped() {
    let css = String::from("#m1 .a{fill:red;}#m1 .b{fill:x</style><script>;}#m1 .c\\{fill:red;}");
    assert_eq!(drop_unsafe_rules(css), "#m1 .a{fill:red;}");
    let css = String::from(".d{fill:red;}@import x;{}.e{}");
    assert_eq!(drop_unsafe_rules(css), ".d{fill:red;}.e{}");
}

#[test]
fn allowed_openers_keep_their_at_sign() {
    let css = String::from(
        "@supports (color: color-mix(in oklab, #000, #fff)){.a{fill:red;}}\
         @media (prefers-color-scheme: dark){.b{}}@font-face{src:x;}@page{}",
    );
    assert_eq!(
        drop_unsafe_rules(css),
        "@supports (color: color-mix(in oklab, #000, #fff)){.a{fill:red;}}\
         @media (prefers-color-scheme: dark){.b{}}@font-face{src:x;}"
    );
    assert_eq!(drop_unsafe_rules(String::new()), "");
    assert_eq!(drop_unsafe_rules(String::from("a{}b")), "a{}b");
}

#[test]
fn rule_records_hold_their_text() {
    let s = SourceRule {
        selector: String::from(".a"),
        body: String::from("fill:red;"),
    };
    let r = RoleRule {
        selector: String::from(".merlion-c-ok>.merlion-shape"),
        plain: String::from("fill:#fff;"),
        mixed: String::new(),
    };
    assert_eq!(s.selector, ".a");
    assert_eq!(r.mixed, "");
}

#[test]
fn token_reset_names_every_member_element() {
    let mut out = String::new();
    push_token_reset(&mut out, "d1");
    assert_eq!(
        out,
        ":where(#d1 .merlion-node, #d1 .merlion-edge, #d1 .merlion-cluster, #d1 marker)\
         {--merlion-tone:initial;--merlion-dash:initial;}"
    );
}

#[test]
fn rules_take_the_prefix_in_every_selector() {
    let mut out = String::from("x");
    push_rule(&mut out, "#d1 ", ".a,#{id} .b", "fill:red");
    assert_eq!(out, "x#d1 .a,#d1 .b{fill:red}");
    let mut out = String::new();
    push_rule(&mut out, "", "#{id}#{id} .c", "");
    assert_eq!(out, "#{id}.c{}");
}
