//! Theming tokens: the colour roles, their CSS custom properties and their defaults.
//!
//! Two foundation tokens (`--merlion-bg`, `--merlion-fg`) drive the mixed roles through
//! `color-mix(in oklab, …)`. The literal default of every mixed role is the oklab mix of
//! the two foundation defaults, stored below as a constant.
//!
//! No custom property is ever declared in the embedded style: each use site reads the
//! role through a fallback chain, e.g.
//! `var(--merlion-node-bg, var(--merlion-surface, #f5f5f5))`, and inside
//! `@supports (color: color-mix(…))` the innermost literal becomes the `color-mix` expression.

use vstd::prelude::*;

use crate::options::FontMode;
use crate::text::{chars_of, decimal, owned, push_decimal, push_str, range_eq};

verus! {

pub const BG: &'static str = "#ffffff";

pub const FG: &'static str = "#1f2328";

pub const ACCENT: &'static str = "#0969da";

/// Tones of the built-in roles `ok`, `warn` and `danger` / `failure`.
pub const OK: &'static str = "#1a7f37";

pub const WARN: &'static str = "#9a6700";

pub const DANGER: &'static str = "#cf222e";

/// Tone of the built-in role `store`, which cylinders take automatically.
pub const STORE: &'static str = "#127a84";

/// `color-mix(in oklab, fg 55%, bg)` of the defaults.
pub const MUTED: &'static str = "#7b7d81";

/// `color-mix(in oklab, fg 45%, bg)` of the defaults.
pub const LINE: &'static str = "#919497";

/// `color-mix(in oklab, fg 4%, bg)` of the defaults.
pub const SURFACE: &'static str = "#f5f5f5";

/// `color-mix(in oklab, fg 22%, bg)` of the defaults.
pub const BORDER: &'static str = "#c8c9cb";

/// `color-mix(in oklab, fg 2%, bg)` of the defaults.
pub const CLUSTER_BG: &'static str = "#fafafa";

pub const FONT: &'static str = "Inter, ui-sans-serif, system-ui, sans-serif";

/// Family name of the embedded subset in `font: "embed"` mode.
pub const EMBED_FONT_FAMILY: &'static str = "Merlion Inter";

/// Font stack for `font: "embed"`: the embedded family first, then the `link` stack.
pub const FONT_EMBED: &'static str = "Merlion Inter, Inter, ui-sans-serif, system-ui, sans-serif";

/// Font stack for `font: "system"`.
pub const FONT_SYSTEM: &'static str = "system-ui, sans-serif";

/// Family for `` `code` `` runs.
pub const FONT_MONO: &'static str = "ui-monospace, SFMono-Regular, Menlo, Consolas, monospace";

pub open spec fn font_stack_of(mode: FontMode) -> &'static str {
    match mode {
        FontMode::Link => FONT,
        FontMode::Embed => FONT_EMBED,
        FontMode::System => FONT_SYSTEM,
    }
}

/// The font stack drawn for `mode`.
pub fn font_stack(mode: FontMode) -> (r: &'static str)
    ensures
        r == font_stack_of(mode),
{
    match mode {
        FontMode::Link => FONT,
        FontMode::Embed => FONT_EMBED,
        FontMode::System => FONT_SYSTEM,
    }
}

/// How a role gets its default value.
#[derive(Clone, Copy, Debug, PartialEq, Eq)]
pub enum Def {
    /// A literal colour.
    Literal(&'static str),
    /// `color-mix(in oklab, var(--merlion-fg) {pct}%, var(--merlion-bg))`, with its precomputed literal.
    Mix(u8, &'static str),
    /// Defaults to another role.
    Alias(Role),
}

/// The colour roles of the token table.
#[derive(Clone, Copy, Debug, PartialEq, Eq, PartialOrd, Ord, Hash)]
pub enum Role {
    Bg,
    Fg,
    Muted,
    Line,
    Surface,
    Border,
    Accent,
    Okay,
    Warn,
    Danger,
    Store,
    NodeBg,
    NodeBorder,
    NodeText,
    NodeDetail,
    Edge,
    EdgeLabelBg,
    ClusterBg,
    ClusterBorder,
}

/// The token name of a role, without the `--merlion-` prefix.
pub open spec fn role_name(r: Role) -> &'static str {
    match r {
        Role::Bg => "bg",
        Role::Fg => "fg",
        Role::Muted => "muted",
        Role::Line => "line",
        Role::Surface => "surface",
        Role::Border => "border",
        Role::Accent => "accent",
        Role::Okay => "ok",
        Role::Warn => "warn",
        Role::Danger => "danger",
        Role::Store => "store",
        Role::NodeBg => "node-bg",
        Role::NodeBorder => "node-border",
        Role::NodeText => "node-text",
        Role::NodeDetail => "node-detail",
        Role::Edge => "edge",
        Role::EdgeLabelBg => "edge-label-bg",
        Role::ClusterBg => "cluster-bg",
        Role::ClusterBorder => "cluster-border",
    }
}

/// How each role gets its default.
pub open spec fn role_def(r: Role) -> Def {
    match r {
        Role::Bg => Def::Literal(BG),
        Role::Fg => Def::Literal(FG),
        Role::Muted => Def::Mix(55, MUTED),
        Role::Line => Def::Mix(45, LINE),
        Role::Surface => Def::Mix(4, SURFACE),
        Role::Border => Def::Mix(22, BORDER),
        Role::Accent => Def::Literal(ACCENT),
        Role::Okay => Def::Literal(OK),
        Role::Warn => Def::Literal(WARN),
        Role::Danger => Def::Literal(DANGER),
        Role::Store => Def::Literal(STORE),
        Role::NodeBg => Def::Alias(Role::Surface),
        Role::NodeBorder => Def::Alias(Role::Border),
        Role::NodeText => Def::Alias(Role::Fg),
        Role::NodeDetail => Def::Alias(Role::Muted),
        Role::Edge => Def::Alias(Role::Line),
        Role::EdgeLabelBg => Def::Alias(Role::Bg),
        Role::ClusterBg => Def::Mix(2, CLUSTER_BG),
        Role::ClusterBorder => Def::Alias(Role::Border),
    }
}

/// The role whose token name is `s`.
pub open spec fn role_of_name(s: Seq<char>) -> Option<Role> {
    if s == "bg"@ {
        Some(Role::Bg)
    } else if s == "fg"@ {
        Some(Role::Fg)
    } else if s == "muted"@ {
        Some(Role::Muted)
    } else if s == "line"@ {
        Some(Role::Line)
    } else if s == "surface"@ {
        Some(Role::Surface)
    } else if s == "border"@ {
        Some(Role::Border)
    } else if s == "accent"@ {
        Some(Role::Accent)
    } else if s == "ok"@ {
        Some(Role::Okay)
    } else if s == "warn"@ {
        Some(Role::Warn)
    } else if s == "danger"@ {
        Some(Role::Danger)
    } else if s == "store"@ {
        Some(Role::Store)
    } else if s == "node-bg"@ {
        Some(Role::NodeBg)
    } else if s == "node-border"@ {
        Some(Role::NodeBorder)
    } else if s == "node-text"@ {
        Some(Role::NodeText)
    } else if s == "node-detail"@ {
        Some(Role::NodeDetail)
    } else if s == "edge"@ {
        Some(Role::Edge)
    } else if s == "edge-label-bg"@ {
        Some(Role::EdgeLabelBg)
    } else if s == "cluster-bg"@ {
        Some(Role::ClusterBg)
    } else if s == "cluster-border"@ {
        Some(Role::ClusterBorder)
    } else {
        None
    }
}

/// The value a `Literal` or `Mix` default carries.
pub open spec fn def_value(d: Def) -> Option<&'static str> {
    match d {
        Def::Literal(v) => Some(v),
        Def::Mix(_, v) => Some(v),
        Def::Alias(_) => None,
    }
}

/// The literal default of a role, following at most `k` aliases.
pub open spec fn default_of(r: Role, k: nat) -> &'static str
    decreases k,
{
    match role_def(r) {
        Def::Literal(v) => v,
        Def::Mix(_, v) => v,
        Def::Alias(next) => if k == 0 {
            FG
        } else {
            default_of(next, (k - 1) as nat)
        },
    }
}

/// Whether the fallback chain of `r` holds a `color-mix`.
pub open spec fn mixed(r: Role) -> bool {
    match role_def(r) {
        Def::Mix(..) => true,
        Def::Alias(next) => role_def(next) is Mix,
        Def::Literal(_) => false,
    }
}

/// `var(--merlion-{name}, {fallback})`.
pub open spec fn var_of(name: Seq<char>, fallback: Seq<char>) -> Seq<char> {
    "var(--merlion-"@ + name + ", "@ + fallback + ")"@
}

/// The fallback of a role that is not an alias.
pub open spec fn plain_fallback(r: Role, mix: bool) -> Seq<char> {
    match role_def(r) {
        Def::Mix(pct, v) => if mix {
            "color-mix(in oklab, "@ + var_of(role_name(Role::Fg)@, FG@) + " "@ + decimal(
                pct as nat,
            ) + "%, "@ + var_of(role_name(Role::Bg)@, BG@) + ")"@
        } else {
            v@
        },
        _ => default_of(r, 4)@,
    }
}

/// `var(--merlion-{role}, …)` with the fallback chain of the built-in table.
pub open spec fn role_var(r: Role, mix: bool) -> Seq<char> {
    let fallback = match role_def(r) {
        Def::Alias(next) => match role_def(next) {
            Def::Alias(_) => var_of(role_name(next)@, default_of(next, 4)@),
            _ => var_of(role_name(next)@, plain_fallback(next, mix)),
        },
        _ => plain_fallback(r, mix),
    };
    var_of(role_name(r)@, fallback)
}

/// Reading a role's token name back gives the role.
pub proof fn lemma_role_name_round_trip(r: Role)
    ensures
        role_of_name(role_name(r)@) == Some(r),
{
    reveal_strlit("bg");
    reveal_strlit("fg");
    reveal_strlit("muted");
    reveal_strlit("line");
    reveal_strlit("surface");
    reveal_strlit("border");
    reveal_strlit("accent");
    reveal_strlit("ok");
    reveal_strlit("warn");
    reveal_strlit("danger");
    reveal_strlit("store");
    reveal_strlit("node-bg");
    reveal_strlit("node-border");
    reveal_strlit("node-text");
    reveal_strlit("node-detail");
    reveal_strlit("edge");
    reveal_strlit("edge-label-bg");
    reveal_strlit("cluster-bg");
    reveal_strlit("cluster-border");
    assert("bg"@.len() == 2 && "bg"@[0] == 'b');
    assert("fg"@.len() == 2 && "fg"@[0] == 'f');
    assert("muted"@.len() == 5 && "muted"@[0] == 'm');
    assert("line"@.len() == 4 && "line"@[0] == 'l');
    assert("surface"@.len() == 7 && "surface"@[0] == 's' && "surface"@[5] == 'c');
    assert("border"@.len() == 6 && "border"@[0] == 'b' && "border"@[5] == 'r');
    assert("accent"@.len() == 6 && "accent"@[0] == 'a' && "accent"@[5] == 't');
    assert("ok"@.len() == 2 && "ok"@[0] == 'o');
    assert("warn"@.len() == 4 && "warn"@[0] == 'w');
    assert("danger"@.len() == 6 && "danger"@[0] == 'd' && "danger"@[5] == 'r');
    assert("store"@.len() == 5 && "store"@[0] == 's');
    assert("node-bg"@.len() == 7 && "node-bg"@[0] == 'n' && "node-bg"@[5] == 'b');
    assert("node-border"@.len() == 11 && "node-border"@[0] == 'n' && "node-border"@[5] == 'b');
    assert("node-text"@.len() == 9 && "node-text"@[0] == 'n' && "node-text"@[5] == 't');
    assert("node-detail"@.len() == 11 && "node-detail"@[0] == 'n' && "node-detail"@[5] == 'd');
    assert("edge"@.len() == 4 && "edge"@[0] == 'e');
    assert("edge-label-bg"@.len() == 13 && "edge-label-bg"@[0] == 'e' && "edge-label-bg"@[5] == 'l');
    assert("cluster-bg"@.len() == 10 && "cluster-bg"@[0] == 'c' && "cluster-bg"@[5] == 'e');
    assert("cluster-border"@.len() == 14 && "cluster-border"@[0] == 'c' && "cluster-border"@[5] == 'e');
    match r {
        Role::Bg => {},
        Role::Fg => {},
        Role::Muted => {},
        Role::Line => {},
        Role::Surface => {},
        Role::Border => {},
        Role::Accent => {},
        Role::Okay => {},
        Role::Warn => {},
        Role::Danger => {},
        Role::Store => {},
        Role::NodeBg => {},
        Role::NodeBorder => {},
        Role::NodeText => {},
        Role::NodeDetail => {},
        Role::Edge => {},
        Role::EdgeLabelBg => {},
        Role::ClusterBg => {},
        Role::ClusterBorder => {},
    }
}

impl Role {
    /// The role whose token is `--merlion-{name}`.
    pub fn from_name(name: &str) -> (r: Option<Role>)
        ensures
            r == role_of_name(name@),
    {
        let cs = chars_of(name);
        let n = cs.len();
        assert(cs@.subrange(0, n as int) =~= cs@);
        if range_eq(&cs, 0, n, "bg") {
            Some(Role::Bg)
        } else if range_eq(&cs, 0, n, "fg") {
            Some(Role::Fg)
        } else if range_eq(&cs, 0, n, "muted") {
            Some(Role::Muted)
        } else if range_eq(&cs, 0, n, "line") {
            Some(Role::Line)
        } else if range_eq(&cs, 0, n, "surface") {
            Some(Role::Surface)
        } else if range_eq(&cs, 0, n, "border") {
            Some(Role::Border)
        } else if range_eq(&cs, 0, n, "accent") {
            Some(Role::Accent)
        } else if range_eq(&cs, 0, n, "ok") {
            Some(Role::Okay)
        } else if range_eq(&cs, 0, n, "warn") {
            Some(Role::Warn)
        } else if range_eq(&cs, 0, n, "danger") {
            Some(Role::Danger)
        } else if range_eq(&cs, 0, n, "store") {
            Some(Role::Store)
        } else if range_eq(&cs, 0, n, "node-bg") {
            Some(Role::NodeBg)
        } else if range_eq(&cs, 0, n, "node-border") {
            Some(Role::NodeBorder)
        } else if range_eq(&cs, 0, n, "node-text") {
            Some(Role::NodeText)
        } else if range_eq(&cs, 0, n, "node-detail") {
            Some(Role::NodeDetail)
        } else if range_eq(&cs, 0, n, "edge") {
            Some(Role::Edge)
        } else if range_eq(&cs, 0, n, "edge-label-bg") {
            Some(Role::EdgeLabelBg)
        } else if range_eq(&cs, 0, n, "cluster-bg") {
            Some(Role::ClusterBg)
        } else if range_eq(&cs, 0, n, "cluster-border") {
            Some(Role::ClusterBorder)
        } else {
            None
        }
    }

    pub fn name(self) -> (r: &'static str)
        ensures
            r == role_name(self),
    {
        match self {
            Role::Bg => "bg",
            Role::Fg => "fg",
            Role::Muted => "muted",
            Role::Line => "line",
            Role::Surface => "surface",
            Role::Border => "border",
            Role::Accent => "accent",
            Role::Okay => "ok",
            Role::Warn => "warn",
            Role::Danger => "danger",
            Role::Store => "store",
            Role::NodeBg => "node-bg",
            Role::NodeBorder => "node-border",
            Role::NodeText => "node-text",
            Role::NodeDetail => "node-detail",
            Role::Edge => "edge",
            Role::EdgeLabelBg => "edge-label-bg",
            Role::ClusterBg => "cluster-bg",
            Role::ClusterBorder => "cluster-border",
        }
    }

    fn def(self) -> (r: Def)
        ensures
            r == role_def(self),
    {
        match self {
            Role::Bg => Def::Literal(BG),
            Role::Fg => Def::Literal(FG),
            Role::Muted => Def::Mix(55, MUTED),
            Role::Line => Def::Mix(45, LINE),
            Role::Surface => Def::Mix(4, SURFACE),
            Role::Border => Def::Mix(22, BORDER),
            Role::Accent => Def::Literal(ACCENT),
            Role::Okay => Def::Literal(OK),
            Role::Warn => Def::Literal(WARN),
            Role::Danger => Def::Literal(DANGER),
            Role::Store => Def::Literal(STORE),
            Role::NodeBg => Def::Alias(Role::Surface),
            Role::NodeBorder => Def::Alias(Role::Border),
            Role::NodeText => Def::Alias(Role::Fg),
            Role::NodeDetail => Def::Alias(Role::Muted),
            Role::Edge => Def::Alias(Role::Line),
            Role::EdgeLabelBg => Def::Alias(Role::Bg),
            Role::ClusterBg => Def::Mix(2, CLUSTER_BG),
            Role::ClusterBorder => Def::Alias(Role::Border),
        }
    }

    /// The literal default: the value of presentation attributes and the last fallback.
    pub fn default_value(self) -> (v: &'static str)
        ensures
            v == default_of(self, 4),
    {
        // Alias chains are at most one step long; the bound keeps it total anyway.
        let mut r = self;
        let mut k: usize = 0;
        while k < 4
            invariant
                k <= 4,
                default_of(r, (4 - k) as nat) == default_of(self, 4),
            decreases 4 - k,
        {
            match r.def() {
                Def::Literal(v) => return v,
                Def::Mix(_, v) => return v,
                Def::Alias(next) => r = next,
            }
            k += 1;
        }
        match r.def() {
            Def::Literal(v) => v,
            Def::Mix(_, v) => v,
            Def::Alias(_) => FG,
        }
    }

    /// Whether the fallback chain contains a mixed role, i.e. differs inside `@supports`.
    pub fn is_mixed(self) -> (r: bool)
        ensures
            r == mixed(self),
    {
        match self.def() {
            Def::Mix(..) => true,
            Def::Alias(next) => match next.def() {
                Def::Mix(..) => true,
                _ => false,
            },
            Def::Literal(_) => false,
        }
    }

    fn plain_fallback(self, mix: bool) -> (r: String)
        ensures
            r@ == plain_fallback(self, mix),
    {
        match self.def() {
            Def::Mix(pct, v) => {
                if mix {
                    let mut s = owned("color-mix(in oklab, ");
                    let fg = var_text(Role::Fg.name(), FG);
                    push_str(&mut s, fg.as_str());
                    push_str(&mut s, " ");
                    push_decimal(&mut s, pct as usize);
                    push_str(&mut s, "%, ");
                    let bg = var_text(Role::Bg.name(), BG);
                    push_str(&mut s, bg.as_str());
                    push_str(&mut s, ")");
                    s
                } else {
                    owned(v)
                }
            },
            _ => owned(self.default_value()),
        }
    }

    /// `var(--merlion-{role}, …)` with the fallback chain of the built-in table. With
    /// `mix`, mixed roles fall back to their `color-mix` expression; without, to their
    /// literal default.
    pub fn var(self, mix: bool) -> (r: String)
        ensures
            r@ == role_var(self, mix),
    {
        let fallback = match self.def() {
            Def::Alias(next) => match next.def() {
                Def::Alias(_) => var_text(next.name(), next.default_value()),
                _ => {
                    let f = next.plain_fallback(mix);
                    var_text(next.name(), f.as_str())
                },
            },
            _ => self.plain_fallback(mix),
        };
        var_text(self.name(), fallback.as_str())
    }
}

/// `var(--merlion-{name}, {fallback})`.
fn var_text(name: &str, fallback: &str) -> (r: String)
    ensures
        r@ == var_of(name@, fallback@),
{
    let mut s = owned("var(--merlion-");
    push_str(&mut s, name);
    push_str(&mut s, ", ");
    push_str(&mut s, fallback);
    push_str(&mut s, ")");
    s
}

} // verus!
