use merlion_render::options::FontMode;
use merlion_render::svg::theme::{
    font_stack, Role, BG, BORDER, FONT, FONT_EMBED, FONT_SYSTEM, LINE, MUTED, SURFACE,
};

#[test]
fn foundation_roles_read_their_literal() {
    assert_eq!(Role::Bg.var(false), "var(--merlion-bg, #ffffff)");
    assert_eq!(Role::Fg.var(true), "var(--merlion-fg, #1f2328)");
}

#[test]
fn aliased_role_chains_to_target() {
    assert_eq!(
        Role::NodeBg.var(false),
        "var(--merlion-node-bg, var(--merlion-surface, #f5f5f5))"
    );
    assert_eq!(
        Role::NodeText.var(true),
        "var(--merlion-node-text, var(--merlion-fg, #1f2328))"
    );
}

#[test]
fn node_detail_defaults_to_muted() {
    assert_eq!(Role::NodeDetail.default_value(), MUTED);
    assert_eq!(
        Role::NodeDetail.var(false),
        "var(--merlion-node-detail, var(--merlion-muted, #7b7d81))"
    );
    assert!(Role::NodeDetail.is_mixed());
    assert!(Role::NodeDetail.var(true).contains("color-mix"));
}

#[test]
fn mixed_role_uses_color_mix_only_when_asked() {
    assert_eq!(
        Role::Border.var(true),
        "var(--merlion-border, color-mix(in oklab, var(--merlion-fg, #1f2328) 22%, var(--merlion-bg, #ffffff)))"
    );
    assert!(!Role::Border.var(false).contains("color-mix"));
}

#[test]
fn defaults_resolve_through_aliases() {
    assert_eq!(Role::NodeBg.default_value(), SURFACE);
    assert_eq!(Role::Edge.default_value(), LINE);
    assert_eq!(Role::EdgeLabelBg.default_value(), BG);
    assert_eq!(Role::ClusterBorder.default_value(), BORDER);
}

#[test]
fn mixed_flags() {
    assert!(Role::NodeBg.is_mixed());
    assert!(Role::ClusterBg.is_mixed());
    assert!(!Role::NodeText.is_mixed());
    assert!(!Role::EdgeLabelBg.is_mixed());
    assert!(!Role::Accent.is_mixed());
}

#[test]
fn names_round_trip_through_from_name() {
    for r in [Role::Bg, Role::Okay, Role::NodeDetail, Role::EdgeLabelBg, Role::ClusterBorder] {
        assert_eq!(Role::from_name(r.name()), Some(r));
    }
    assert_eq!(Role::Okay.name(), "ok");
    assert_eq!(Role::from_name("node_bg"), None);
    assert_eq!(Role::from_name(""), None);
}

#[test]
fn cluster_bg_mixes_two_percent() {
    assert_eq!(
        Role::ClusterBg.var(true),
        "var(--merlion-cluster-bg, color-mix(in oklab, var(--merlion-fg, #1f2328) 2%, var(--merlion-bg, #ffffff)))"
    );
}

#[test]
fn font_stacks_per_mode() {
    assert_eq!(font_stack(FontMode::Link), FONT);
    assert_eq!(font_stack(FontMode::Embed), FONT_EMBED);
    assert_eq!(font_stack(FontMode::System), FONT_SYSTEM);
}
