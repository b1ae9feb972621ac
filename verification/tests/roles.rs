use merlion_render::model::Shape;
use merlion_render::svg::auto::node_role;
use merlion_render::svg::color::is_valid_class_name;
use merlion_render::svg::roles::{built_in, dash_decl, mixed_stroke, Kind, ROLE_DASH, Tone};
use merlion_render::svg::theme::Role;

#[test]
fn every_built_in_name_is_a_valid_class_name_and_unique_per_kind() {
    let table = built_in();
    for (i, b) in table.iter().enumerate() {
        assert!(is_valid_class_name(b.name));
        assert!(table[..i]
            .iter()
            .all(|o| !(o.name == b.name && o.kind == b.kind)));
    }
    let has = |n: &str, k: Kind| table.iter().any(|b| b.name == n && b.kind == k);
    assert!(has("danger", Kind::Node) && !has("danger", Kind::Edge));
    assert!(has("failure", Kind::Edge) && has("group", Kind::Cluster));
}

#[test]
fn dashed_roles_use_the_role_dash() {
    let table = built_in();
    assert_eq!(table.len(), 8);
    let failure = table.iter().find(|b| b.name == "failure").unwrap();
    assert_eq!(failure.tone, Some(Role::Danger));
    assert_eq!(failure.dash, Some(ROLE_DASH));
    assert_eq!(ROLE_DASH, "6 4");
    let ok = table.iter().find(|b| b.name == "ok").unwrap();
    assert_eq!(ok.tone, Some(Role::Okay));
    assert_eq!(ok.dash, None);
}

#[test]
fn literal_tone_reads_the_token_with_the_literal() {
    let t = Tone::literal(String::from("#ff0000"));
    assert_eq!(t.plain, "var(--merlion-tone, #ff0000)");
    assert_eq!(t.mixed, t.plain);
    assert_eq!(t.lit, "#ff0000");
}

#[test]
fn dash_declarations_read_the_per_element_dash() {
    let mut out = String::from("fill:red;");
    dash_decl(&mut out, Some(ROLE_DASH));
    assert_eq!(out, "fill:red;stroke-dasharray:var(--merlion-dash, 6 4);");
    let mut out = String::new();
    dash_decl(&mut out, None);
    assert_eq!(out, "");
}

#[test]
fn mixed_declarations_only_when_the_chains_differ() {
    let t = Tone::literal(String::from("#abcdef"));
    let mut out = String::new();
    mixed_stroke(&mut out, "stroke", &t);
    assert_eq!(out, "");
    let t = Tone {
        plain: String::from("var(--merlion-tone, #111111)"),
        mixed: String::from("var(--merlion-tone, color-mix(in oklab, red 5%, blue))"),
        lit: String::from("#111111"),
    };
    mixed_stroke(&mut out, "fill", &t);
    assert_eq!(out, "fill:var(--merlion-tone, color-mix(in oklab, red 5%, blue));");
}

#[test]
fn node_role_maps_decisions_stores_and_terminals_only() {
    assert_eq!(node_role(Shape::Rhombus), Some("warn"));
    assert_eq!(node_role(Shape::Hexagon), Some("warn"));
    assert_eq!(node_role(Shape::Cylinder), Some("store"));
    for s in [Shape::Stadium, Shape::Circle, Shape::DoubleCircle] {
        assert_eq!(node_role(s), Some("ok"));
    }
    for s in [
        Shape::Rect,
        Shape::Round,
        Shape::Subroutine,
        Shape::HorizontalCylinder,
        Shape::SmallCircle,
    ] {
        assert_eq!(node_role(s), None);
    }
}
