//! Role rules: the built-in roles and the tones their rules read.
//!
//! A role rule restyles the elements carrying one role class at use sites: it reads
//! `var(--merlion-tone, <tone>)` and `var(--merlion-dash, <dash>)`, so a page or
//! stylesheet rule that sets the per-element token on the role wins, and it never
//! declares a custom property.

use vstd::prelude::*;

use crate::svg::color::{class_name, is_class_char, is_class_start};
use crate::svg::theme::{role_name, Role};
use crate::text::{owned, push_str};

verus! {

/// Mix ratios of the per-element tone.
pub const TONE_FILL: u8 = 14;

pub const TONE_CLUSTER_FILL: u8 = 8;

pub const TONE_TEXT: u8 = 75;

/// The dash of the dashed built-in roles.
pub const ROLE_DASH: &'static str = "6 4";

/// The element kind a role applies to.
#[derive(Clone, Copy, Debug, PartialEq, Eq, PartialOrd, Ord, Structural)]
pub enum Kind {
    Node,
    Edge,
    Cluster,
}

/// One built-in role.
#[derive(Clone, Copy, Debug, PartialEq, Eq)]
pub struct BuiltIn {
    pub name: &'static str,
    pub kind: Kind,
    pub tone: Option<Role>,
    pub dash: Option<&'static str>,
}

/// The built-in roles, in the order their rules are emitted.
pub open spec fn built_in_table() -> Seq<BuiltIn> {
    seq![
        BuiltIn { name: "accent", kind: Kind::Node, tone: Some(Role::Accent), dash: None },
        BuiltIn { name: "ok", kind: Kind::Node, tone: Some(Role::Okay), dash: None },
        BuiltIn { name: "warn", kind: Kind::Node, tone: Some(Role::Warn), dash: None },
        BuiltIn { name: "danger", kind: Kind::Node, tone: Some(Role::Danger), dash: None },
        BuiltIn { name: "muted", kind: Kind::Node, tone: Some(Role::Muted), dash: None },
        BuiltIn { name: "group", kind: Kind::Cluster, tone: None, dash: Some(ROLE_DASH) },
        BuiltIn {
            name: "failure",
            kind: Kind::Edge,
            tone: Some(Role::Danger),
            dash: Some(ROLE_DASH),
        },
        BuiltIn { name: "async", kind: Kind::Edge, tone: None, dash: Some(ROLE_DASH) },
    ]
}

/// The built-in roles, in the order of [`built_in_table`].
pub fn built_in() -> (v: Vec<BuiltIn>)
    ensures
        v@ == built_in_table(),
{
    let v: Vec<BuiltIn> = vec![
        BuiltIn { name: "accent", kind: Kind::Node, tone: Some(Role::Accent), dash: None },
        BuiltIn { name: "ok", kind: Kind::Node, tone: Some(Role::Okay), dash: None },
        BuiltIn { name: "warn", kind: Kind::Node, tone: Some(Role::Warn), dash: None },
        BuiltIn { name: "danger", kind: Kind::Node, tone: Some(Role::Danger), dash: None },
        BuiltIn { name: "muted", kind: Kind::Node, tone: Some(Role::Muted), dash: None },
        BuiltIn { name: "group", kind: Kind::Cluster, tone: None, dash: Some(ROLE_DASH) },
        BuiltIn {
            name: "failure",
            kind: Kind::Edge,
            tone: Some(Role::Danger),
            dash: Some(ROLE_DASH),
        },
        BuiltIn { name: "async", kind: Kind::Edge, tone: None, dash: Some(ROLE_DASH) },
    ];
    v
}

/// Every built-in role name is a valid class name, and no two built-in roles of one
/// kind share a name.
pub proof fn lemma_built_in_names()
    ensures
        forall|i: int|
            0 <= i < built_in_table().len() ==> class_name((#[trigger] built_in_table()[i]).name@),
        forall|i: int, j: int|
            0 <= i < j < built_in_table().len() ==> !((#[trigger] built_in_table()[i]).name@
                == (#[trigger] built_in_table()[j]).name@ && built_in_table()[i].kind
                == built_in_table()[j].kind),
{
    reveal_strlit("accent");
    reveal_strlit("ok");
    reveal_strlit("warn");
    reveal_strlit("danger");
    reveal_strlit("muted");
    reveal_strlit("group");
    reveal_strlit("failure");
    reveal_strlit("async");
    let t = built_in_table();
    assert forall|i: int| 0 <= i < t.len() implies class_name((#[trigger] t[i]).name@) by {
        let s = t[i].name@;
        assert(is_class_start(s[0]));
        assert forall|k: int| 0 <= k < s.len() implies is_class_char(#[trigger] s[k]) by {}
    }
    assert forall|i: int, j: int| 0 <= i < j < t.len() implies !((#[trigger] t[i]).name@ == (
    #[trigger] t[j]).name@ && t[i].kind == t[j].kind) by {
        if t[i].kind == t[j].kind && t[i].name@ == t[j].name@ {
            assert(t[i].name@.len() == t[j].name@.len());
            assert(t[i].name@[0] == t[j].name@[0]);
            assert(t[i].name@[1] == t[j].name@[1]);
        }
    }
}

/// How the built-in roles draw: a node role tints the node in the theme tone of the
/// same name and draws it solid; the cluster and edge roles are dashed with
/// [`ROLE_DASH`], and an edge role that tints uses the danger tone.
pub proof fn lemma_built_in_looks(i: int)
    requires
        0 <= i < built_in_table().len(),
    ensures
        ({
            let b = built_in_table()[i];
            &&& b.kind is Node ==> b.dash is None && b.tone is Some && role_name(b.tone->0)@ == b.name@
            &&& !(b.kind is Node) ==> b.dash == Some(ROLE_DASH)
            &&& (b.kind is Edge && b.tone is Some) ==> b.tone == Some(Role::Danger)
        }),
{
    reveal_strlit("accent");
    reveal_strlit("ok");
    reveal_strlit("warn");
    reveal_strlit("danger");
    reveal_strlit("muted");
}

/// The README's eight roles: node tones `accent`, `ok`, `warn`, `danger`, `muted`, the
/// dashed cluster `group`, the dashed danger edge `failure` and the dashed edge `async`.
pub proof fn lemma_built_in_names_and_kinds()
    ensures
        built_in_table().len() == 8,
        built_in_table()[0].name@ == "accent"@ && built_in_table()[0].kind is Node,
        built_in_table()[1].name@ == "ok"@ && built_in_table()[1].kind is Node,
        built_in_table()[2].name@ == "warn"@ && built_in_table()[2].kind is Node,
        built_in_table()[3].name@ == "danger"@ && built_in_table()[3].kind is Node,
        built_in_table()[4].name@ == "muted"@ && built_in_table()[4].kind is Node,
        built_in_table()[5].name@ == "group"@ && built_in_table()[5].kind is Cluster,
        built_in_table()[6].name@ == "failure"@ && built_in_table()[6].kind is Edge,
        built_in_table()[7].name@ == "async"@ && built_in_table()[7].kind is Edge,
{
}

/// A tone as CSS and as a literal.
pub struct Tone {
    /// Outside `@supports`: `var(--merlion-tone, …)` with a literal-only chain.
    pub plain: String,
    /// Inside `@supports`, where a mixed role's chain ends in `color-mix`.
    pub mixed: String,
    /// The literal drawn by presentation attributes and CSS-less renderers.
    pub lit: String,
}

impl Tone {
    /// A palette tone: `var(--merlion-tone, <literal>)`.
    pub fn literal(hex: String) -> (r: Tone)
        ensures
            r.plain@ == "var(--merlion-tone, "@ + hex@ + ")"@,
            r.mixed@ == r.plain@,
            r.lit@ == hex@,
    {
        let mut plain = owned("var(--merlion-tone, ");
        push_str(&mut plain, hex.as_str());
        push_str(&mut plain, ")");
        let mixed = owned(plain.as_str());
        Tone { mixed, plain, lit: hex }
    }
}

/// Appends the dash declaration of a role that has one.
pub fn dash_decl(out: &mut String, dash: Option<&str>)
    ensures
        final(out)@ == old(out)@ + match dash {
            Some(d) => "stroke-dasharray:var(--merlion-dash, "@ + d@ + ");"@,
            None => Seq::empty(),
        },
{
    if let Some(d) = dash {
        push_str(out, "stroke-dasharray:var(--merlion-dash, ");
        push_str(out, d);
        push_str(out, ");");
        assert(final(out)@ =~= old(out)@ + ("stroke-dasharray:var(--merlion-dash, "@ + d@ + ");"@));
    } else {
        assert(final(out)@ =~= old(out)@ + Seq::<char>::empty());
    }
}

/// Appends `prop:{mixed};` when the tone's chain differs inside `@supports`.
pub fn mixed_stroke(out: &mut String, prop: &str, tone: &Tone)
    ensures
        final(out)@ == old(out)@ + if tone.mixed@ != tone.plain@ {
            prop@ + ":"@ + tone.mixed@ + ";"@
        } else {
            Seq::empty()
        },
{
    if !crate::text::str_eq(tone.mixed.as_str(), tone.plain.as_str()) {
        push_str(out, prop);
        push_str(out, ":");
        push_str(out, tone.mixed.as_str());
        push_str(out, ";");
        assert(final(out)@ =~= old(out)@ + (prop@ + ":"@ + tone.mixed@ + ";"@));
    } else {
        assert(final(out)@ =~= old(out)@ + Seq::<char>::empty());
    }
}

} // verus!
