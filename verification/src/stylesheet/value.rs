//! Tokens, selectors and values of the stylesheet subset.

use vstd::prelude::*;

use crate::parse::link::{index_from, lemma_index_from};
use crate::svg::color::{class_name, is_valid_class_name};
use crate::svg::theme::{role_name, role_of_name, Role};
use crate::text::{
    char_slice, chars_of, contains_at, contains_char, contains_seq, decimal, ends_with_at, has_char,
    lower_chars, lower_seq, owned, push_decimal, push_str, range_eq, starts_with_at,
    string_from_chars, trim_bounds, trim_ws,
};

verus! {

/// A `classDef` colour token property: `--merlion-c-{name}-{fill|stroke|color}`.
#[derive(Clone, Copy, Debug, PartialEq, Eq, PartialOrd, Ord, Hash)]
pub enum ClassProp {
    Fill,
    Stroke,
    Color,
}

pub open spec fn class_prop_name(p: ClassProp) -> &'static str {
    match p {
        ClassProp::Fill => "fill",
        ClassProp::Stroke => "stroke",
        ClassProp::Color => "color",
    }
}

impl ClassProp {
    pub fn name(self) -> (r: &'static str)
        ensures
            r == class_prop_name(self),
    {
        match self {
            ClassProp::Fill => "fill",
            ClassProp::Stroke => "stroke",
            ClassProp::Color => "color",
        }
    }
}

/// A token a theme block may set, in canonical output order.
#[derive(Clone, Debug, PartialEq, Eq, PartialOrd, Ord, Hash)]
pub enum Token {
    Colour(Role),
    Series(u8),
    Stroke,
    Class(String, ClassProp),
}

/// A token as plain values.
pub enum TokenView {
    Colour(Role),
    Series(u8),
    Stroke,
    Class(Seq<char>, ClassProp),
}

impl View for Token {
    type V = TokenView;

    open spec fn view(&self) -> TokenView {
        match self {
            Token::Colour(r) => TokenView::Colour(*r),
            Token::Series(n) => TokenView::Series(*n),
            Token::Stroke => TokenView::Stroke,
            Token::Class(c, p) => TokenView::Class(c@, *p),
        }
    }
}

/// The property name of a token without the `--merlion-` prefix.
pub open spec fn token_name(t: TokenView) -> Seq<char> {
    match t {
        TokenView::Colour(r) => role_name(r)@,
        TokenView::Series(n) => "series-"@ + decimal(n as nat),
        TokenView::Stroke => "stroke"@,
        TokenView::Class(c, p) => "c-"@ + c + "-"@ + class_prop_name(p)@,
    }
}

/// The value grammars.
#[derive(Clone, Copy, Debug, PartialEq, Eq)]
pub enum Kind {
    /// A colour.
    Colour,
    /// A colour or `none` (`classDef` fill and stroke).
    Paint,
    /// A number from 0 to 20, optionally `px`.
    Stroke,
    /// `none` or up to 8 numbers from 0 to 100.
    Dash,
}

pub open spec fn token_kind(t: TokenView) -> Kind {
    match t {
        TokenView::Stroke => Kind::Stroke,
        TokenView::Class(_, ClassProp::Color) => Kind::Colour,
        TokenView::Class(..) => Kind::Paint,
        _ => Kind::Colour,
    }
}

impl Token {
    /// The property name without the `--merlion-` prefix.
    pub fn name(&self) -> (r: String)
        ensures
            r@ == token_name(self@),
    {
        match self {
            Token::Colour(r) => owned(r.name()),
            Token::Series(n) => {
                let mut s = owned("series-");
                push_decimal(&mut s, *n as usize);
                s
            },
            Token::Stroke => owned("stroke"),
            Token::Class(c, p) => {
                let mut s = owned("c-");
                push_str(&mut s, c.as_str());
                push_str(&mut s, "-");
                push_str(&mut s, p.name());
                s
            },
        }
    }

    /// The value grammar of the token.
    pub fn kind(&self) -> (r: Kind)
        ensures
            r == token_kind(self@),
    {
        match self {
            Token::Stroke => Kind::Stroke,
            Token::Class(_, ClassProp::Color) => Kind::Colour,
            Token::Class(..) => Kind::Paint,
            _ => Kind::Colour,
        }
    }
}

/// What a declaration's name denotes.
#[derive(Clone, Debug, PartialEq)]
pub enum Name {
    Theme(Token),
    Tone,
    Dash,
    /// `--<ident>` outside the `--merlion-` namespace, usable through `var()` only.
    Private(String),
    /// Anything else: rejected with `W018`.
    Rejected,
}

pub enum NameView {
    Theme(TokenView),
    Tone,
    Dash,
    Private(Seq<char>),
    Rejected,
}

impl View for Name {
    type V = NameView;

    open spec fn view(&self) -> NameView {
        match self {
            Name::Theme(t) => NameView::Theme(t@),
            Name::Tone => NameView::Tone,
            Name::Dash => NameView::Dash,
            Name::Private(s) => NameView::Private(s@),
            Name::Rejected => NameView::Rejected,
        }
    }
}

// ---------------------------------------------------------------------------------------
// Names
// ---------------------------------------------------------------------------------------

pub open spec fn is_ident_char(c: char) -> bool {
    ('a' <= c && c <= 'z') || ('A' <= c && c <= 'Z') || ('0' <= c && c <= '9') || c == '_' || c
        == '-'
}

/// `[A-Za-z0-9_-]{1,128}`.
pub open spec fn ident(s: Seq<char>) -> bool {
    0 < s.len() <= 128 && forall|i: int| 0 <= i < s.len() ==> is_ident_char(#[trigger] s[i])
}

pub open spec fn is_theme_char(c: char) -> bool {
    ('a' <= c && c <= 'z') || ('0' <= c && c <= '9') || c == '-'
}

/// `[a-z][a-z0-9-]{0,31}`.
pub open spec fn theme_name(s: Seq<char>) -> bool {
    &&& 1 <= s.len() <= 32
    &&& 'a' <= s[0] && s[0] <= 'z'
    &&& forall|i: int| 0 <= i < s.len() ==> is_theme_char(#[trigger] s[i])
}

/// `[A-Za-z_][A-Za-z0-9_-]{0,63}` (the `classDef` grammar).
pub fn is_class_name(n: &str) -> (r: bool)
    ensures
        r == class_name(n@),
{
    is_valid_class_name(n)
}

fn ident_range(v: &Vec<char>, lo: usize, hi: usize) -> (r: bool)
    requires
        lo <= hi <= v@.len(),
    ensures
        r == ident(v@.subrange(lo as int, hi as int)),
{
    if hi == lo || hi - lo > 128 {
        return false;
    }
    let mut i: usize = lo;
    while i < hi
        invariant
            lo <= i <= hi <= v@.len(),
            forall|k: int| lo <= k < i ==> is_ident_char(v@[k]),
        decreases hi - i,
    {
        let c = v[i];
        if !(('a' <= c && c <= 'z') || ('A' <= c && c <= 'Z') || ('0' <= c && c <= '9') || c
            == '_' || c == '-') {
            assert(!is_ident_char(v@.subrange(lo as int, hi as int)[i - lo]));
            return false;
        }
        i += 1;
    }
    assert forall|k: int| 0 <= k < hi - lo implies is_ident_char(
        #[trigger] v@.subrange(lo as int, hi as int)[k],
    ) by {
        assert(v@.subrange(lo as int, hi as int)[k] == v@[lo + k]);
    }
    true
}

fn theme_name_range(v: &Vec<char>, lo: usize, hi: usize) -> (r: bool)
    requires
        lo <= hi <= v@.len(),
    ensures
        r == theme_name(v@.subrange(lo as int, hi as int)),
{
    if hi == lo || hi - lo > 32 {
        return false;
    }
    let c0 = v[lo];
    if !('a' <= c0 && c0 <= 'z') {
        return false;
    }
    let mut i: usize = lo;
    while i < hi
        invariant
            lo <= i <= hi <= v@.len(),
            forall|k: int| lo <= k < i ==> is_theme_char(v@[k]),
        decreases hi - i,
    {
        let c = v[i];
        if !(('a' <= c && c <= 'z') || ('0' <= c && c <= '9') || c == '-') {
            assert(!is_theme_char(v@.subrange(lo as int, hi as int)[i - lo]));
            return false;
        }
        i += 1;
    }
    assert forall|k: int| 0 <= k < hi - lo implies is_theme_char(
        #[trigger] v@.subrange(lo as int, hi as int)[k],
    ) by {
        assert(v@.subrange(lo as int, hi as int)[k] == v@[lo + k]);
    }
    true
}

/// `[a-z][a-z0-9-]{0,31}`.
pub fn is_theme_name(t: &str) -> (r: bool)
    ensures
        r == theme_name(t@),
{
    let cs = chars_of(t);
    assert(cs@.subrange(0, cs@.len() as int) =~= cs@);
    theme_name_range(&cs, 0, cs.len())
}

/// The class of a `c-{class}-{prop}` token body `c` for the property named `p`.
pub open spec fn class_part(c: Seq<char>, p: Seq<char>) -> Option<Seq<char>> {
    if p.is_suffix_of(c) && c.len() > p.len() && c[c.len() - p.len() - 1] == '-' {
        Some(c.take(c.len() - p.len() - 1))
    } else {
        None
    }
}

/// The token of a `c-` name body, or `Rejected`.
pub open spec fn class_token(c: Seq<char>) -> NameView {
    if class_part(c, "fill"@) is Some && class_name(class_part(c, "fill"@)->0) {
        NameView::Theme(TokenView::Class(class_part(c, "fill"@)->0, ClassProp::Fill))
    } else if class_part(c, "stroke"@) is Some && class_name(class_part(c, "stroke"@)->0) {
        NameView::Theme(TokenView::Class(class_part(c, "stroke"@)->0, ClassProp::Stroke))
    } else if class_part(c, "color"@) is Some && class_name(class_part(c, "color"@)->0) {
        NameView::Theme(TokenView::Class(class_part(c, "color"@)->0, ClassProp::Color))
    } else {
        NameView::Rejected
    }
}

/// No theme role is named with `-` as its second character.
proof fn lemma_dash_second_is_no_role(t: Seq<char>)
    requires
        t.len() >= 2,
        t[1] == '-',
    ensures
        role_of_name(t) is None,
{
    reveal_strlit("accent");
    reveal_strlit("bg");
    reveal_strlit("border");
    reveal_strlit("cluster-bg");
    reveal_strlit("cluster-border");
    reveal_strlit("danger");
    reveal_strlit("edge");
    reveal_strlit("edge-label-bg");
    reveal_strlit("fg");
    reveal_strlit("line");
    reveal_strlit("muted");
    reveal_strlit("node-bg");
    reveal_strlit("node-border");
    reveal_strlit("node-detail");
    reveal_strlit("node-text");
    reveal_strlit("ok");
    reveal_strlit("store");
    reveal_strlit("surface");
    reveal_strlit("warn");
}

/// Of the class property names, only `x` ends `n-x`: the last characters of `fill`,
/// `stroke` and `color` differ.
proof fn lemma_class_part_of(n: Seq<char>, x: Seq<char>)
    requires
        n.len() >= 1,
        x == "fill"@ || x == "stroke"@ || x == "color"@,
    ensures
        class_part(n + "-"@ + x, x) == Some(n),
        x != "fill"@ ==> class_part(n + "-"@ + x, "fill"@) is None,
        x != "stroke"@ ==> class_part(n + "-"@ + x, "stroke"@) is None,
        x != "color"@ ==> class_part(n + "-"@ + x, "color"@) is None,
{
    reveal_strlit("fill");
    reveal_strlit("stroke");
    reveal_strlit("color");
    reveal_strlit("-");
    let c = n + "-"@ + x;
    assert(x.is_suffix_of(c)) by {
        assert(x =~= c.subrange(c.len() - x.len(), c.len() as int));
    }
    assert(c[c.len() - x.len() - 1] == '-');
    assert(c.take(c.len() - x.len() - 1) =~= n);
    let last = c[c.len() - 1];
    assert(last == x[x.len() - 1]);
    let ys = seq!["fill"@, "stroke"@, "color"@];
    assert forall|w: int| 0 <= w < 3 && ys[w] != x implies !ys[w].is_suffix_of(c) by {
        let y = ys[w];
        if y.is_suffix_of(c) {
            assert(y[y.len() - 1] == c.subrange(c.len() - y.len(), c.len() as int)[y.len() - 1]);
        }
    }
    assert(ys[0] == "fill"@ && ys[1] == "stroke"@ && ys[2] == "color"@);
}

/// A `classDef` token's suffix decides its property: for every class name `n`,
/// `--merlion-c-{n}-fill`, `-stroke` and `-color` set that class's fill, stroke and text
/// colour.
pub proof fn lemma_class_token_suffix_decides(n: Seq<char>)
    requires
        class_name(n),
    ensures
        classify_spec("--merlion-c-"@ + n + "-fill"@) == NameView::Theme(TokenView::Class(n, ClassProp::Fill)),
        classify_spec("--merlion-c-"@ + n + "-stroke"@) == NameView::Theme(
            TokenView::Class(n, ClassProp::Stroke),
        ),
        classify_spec("--merlion-c-"@ + n + "-color"@) == NameView::Theme(
            TokenView::Class(n, ClassProp::Color),
        ),
{
    lemma_class_name_via(n, "fill"@);
    lemma_class_name_via(n, "stroke"@);
    lemma_class_name_via(n, "color"@);
    lemma_dash_names();
    lemma_concat_suffix(n, "-fill"@, "fill"@);
    lemma_concat_suffix(n, "-stroke"@, "stroke"@);
    lemma_concat_suffix(n, "-color"@, "color"@);
}

proof fn lemma_dash_names()
    ensures
        "-fill"@ =~= "-"@ + "fill"@,
        "-stroke"@ =~= "-"@ + "stroke"@,
        "-color"@ =~= "-"@ + "color"@,
        "stroke"@ != "fill"@,
        "color"@ != "fill"@,
        "color"@ != "stroke"@,
{
    reveal_strlit("-fill");
    reveal_strlit("-stroke");
    reveal_strlit("-color");
    reveal_strlit("fill");
    reveal_strlit("stroke");
    reveal_strlit("color");
    reveal_strlit("-");
    assert("stroke"@.len() != "fill"@.len());
    assert("color"@.len() != "fill"@.len());
    assert("color"@[0] != "stroke"@[0]);
}

/// `"--merlion-c-" + n + "-x"` is `"--merlion-c-" + n + ("-" + "x")`.
proof fn lemma_concat_suffix(n: Seq<char>, dx: Seq<char>, x: Seq<char>)
    requires
        dx =~= "-"@ + x,
    ensures
        "--merlion-c-"@ + n + dx == "--merlion-c-"@ + n + ("-"@ + x),
{
    assert("--merlion-c-"@ + n + dx =~= "--merlion-c-"@ + n + ("-"@ + x));
}

/// `--merlion-c-` then `n-x` classifies as the class token of `n` and the property named
/// `x`.
proof fn lemma_class_name_via(n: Seq<char>, x: Seq<char>)
    requires
        class_name(n),
        x == "fill"@ || x == "stroke"@ || x == "color"@,
    ensures
        classify_spec("--merlion-c-"@ + n + ("-"@ + x)) == NameView::Theme(
            TokenView::Class(
                n,
                if x == "fill"@ {
                    ClassProp::Fill
                } else if x == "stroke"@ {
                    ClassProp::Stroke
                } else {
                    ClassProp::Color
                },
            ),
        ),
{
    reveal_strlit("--merlion-c-");
    reveal_strlit("--");
    reveal_strlit("merlion-");
    reveal_strlit("c-");
    reveal_strlit("-");
    reveal_strlit("stroke");
    reveal_strlit("tone");
    reveal_strlit("dash");
    reveal_strlit("series-");
    reveal_strlit("fill");
    reveal_strlit("color");
    let s = "--merlion-c-"@ + n + ("-"@ + x);
    assert("--"@.is_prefix_of(s)) by {
        assert("--"@ =~= s.subrange(0, 2));
    }
    let rest = s.skip(2);
    assert("merlion-"@.is_prefix_of(rest)) by {
        assert("merlion-"@ =~= rest.subrange(0, 8));
    }
    let t = rest.skip(8);
    let c = n + "-"@ + x;
    assert(t =~= "c-"@ + c);
    assert(t[0] == 'c' && t[1] == '-');
    lemma_dash_second_is_no_role(t);
    assert(t != "stroke"@ && t != "tone"@ && t != "dash"@) by {
        if t == "stroke"@ || t == "tone"@ || t == "dash"@ {
            assert(t[0] != 'c');
        }
    }
    assert(!"series-"@.is_prefix_of(t)) by {
        if "series-"@.is_prefix_of(t) {
            assert("series-"@[0] == t.subrange(0, 7)[0]);
        }
    }
    assert("c-"@.is_prefix_of(t)) by {
        assert("c-"@ =~= t.subrange(0, 2));
    }
    assert(t.skip(2) =~= c);
    lemma_class_part_of(n, x);
}

/// The series tones: `--merlion-series-1` to `--merlion-series-8` name series tones 1
/// to 8, each by its own digit.
pub proof fn lemma_series_token(d: u8)
    requires
        1 <= d <= 8,
    ensures
        classify_spec("--merlion-series-"@ + seq![(d as u32 + 48) as char]) == NameView::Theme(
            TokenView::Series(d),
        ),
{
    reveal_strlit("accent");
    reveal_strlit("bg");
    reveal_strlit("border");
    reveal_strlit("cluster-bg");
    reveal_strlit("cluster-border");
    reveal_strlit("danger");
    reveal_strlit("edge");
    reveal_strlit("edge-label-bg");
    reveal_strlit("fg");
    reveal_strlit("line");
    reveal_strlit("muted");
    reveal_strlit("node-bg");
    reveal_strlit("node-border");
    reveal_strlit("node-detail");
    reveal_strlit("node-text");
    reveal_strlit("ok");
    reveal_strlit("store");
    reveal_strlit("surface");
    reveal_strlit("warn");
    reveal_strlit("--merlion-series-");
    reveal_strlit("--");
    reveal_strlit("merlion-");
    reveal_strlit("series-");
    reveal_strlit("stroke");
    reveal_strlit("tone");
    reveal_strlit("dash");
    let ch = (d as u32 + 48) as char;
    let s = "--merlion-series-"@ + seq![ch];
    assert("--"@.is_prefix_of(s)) by {
        assert("--"@ =~= s.subrange(0, 2));
    }
    let rest = s.skip(2);
    assert("merlion-"@.is_prefix_of(rest)) by {
        assert("merlion-"@ =~= rest.subrange(0, 8));
    }
    let t = rest.skip(8);
    assert(t =~= "series-"@ + seq![ch]);
    assert(t.len() == 8);
    assert(t[0] == 's' && t[1] == 'e' && t[6] == '-');
    assert(role_of_name(t) is None);
    assert(t != "stroke"@ && t != "tone"@ && t != "dash"@);
    assert("series-"@.is_prefix_of(t)) by {
        assert("series-"@ =~= t.subrange(0, 7));
    }
    let n = t.skip(7);
    assert(n =~= seq![ch]);
    assert(ch as u32 - 48 == d);
}

/// A theme token's own name classifies back to it: for every role colour, the stroke
/// width, the series tones 1 to 8 and every `classDef` token of a valid class name,
/// `classify` of `--merlion-` followed by the token's name gives that token.
pub proof fn lemma_token_name_classifies_back(t: TokenView)
    requires
        t matches TokenView::Series(d) ==> 1 <= d <= 8,
        t matches TokenView::Class(c, _) ==> class_name(c),
    ensures
        classify_spec("--merlion-"@ + token_name(t)) == NameView::Theme(t),
{
    match t {
        TokenView::Series(d) => lemma_series_name_back(d),
        TokenView::Class(c, p) => lemma_class_name_back(c, p),
        TokenView::Colour(r) => lemma_colour_name_back(r),
        TokenView::Stroke => lemma_stroke_name_back(),
    }
}

proof fn lemma_series_name_back(d: u8)
    requires
        1 <= d <= 8,
    ensures
        classify_spec("--merlion-"@ + token_name(TokenView::Series(d))) == NameView::Theme(
            TokenView::Series(d),
        ),
{
    reveal_strlit("--merlion-");
    reveal_strlit("--merlion-series-");
    reveal_strlit("series-");
    assert(decimal(d as nat) =~= seq![(d as u32 + 48) as char]);
    assert("--merlion-"@ + token_name(TokenView::Series(d)) =~= "--merlion-series-"@ + seq![
        (d as u32 + 48) as char,
    ]);
    lemma_series_token(d);
}

proof fn lemma_class_name_back(c: Seq<char>, p: ClassProp)
    requires
        class_name(c),
    ensures
        classify_spec("--merlion-"@ + token_name(TokenView::Class(c, p))) == NameView::Theme(
            TokenView::Class(c, p),
        ),
{
    lemma_class_spelling(c, class_prop_name(p)@);
    lemma_dash_names();
    lemma_class_token_suffix_decides(c);
}

/// `--merlion-` before a class token's name spells `--merlion-c-{c}-{x}`.
proof fn lemma_class_spelling(c: Seq<char>, x: Seq<char>)
    ensures
        "--merlion-"@ + ("c-"@ + c + "-"@ + x) == "--merlion-c-"@ + c + ("-"@ + x),
{
    reveal_strlit("--merlion-");
    reveal_strlit("--merlion-c-");
    reveal_strlit("c-");
    assert("--merlion-"@ + ("c-"@ + c + "-"@ + x) =~= "--merlion-c-"@ + c + ("-"@ + x));
}

proof fn lemma_colour_name_back(r: Role)
    ensures
        classify_spec("--merlion-"@ + token_name(TokenView::Colour(r))) == NameView::Theme(
            TokenView::Colour(r),
        ),
{
    reveal_strlit("--merlion-");
    reveal_strlit("--");
    reveal_strlit("merlion-");
    let s = "--merlion-"@ + role_name(r)@;
    assert("--"@.is_prefix_of(s)) by {
        assert("--"@ =~= s.subrange(0, 2));
    }
    let rest = s.skip(2);
    assert("merlion-"@.is_prefix_of(rest)) by {
        assert("merlion-"@ =~= rest.subrange(0, 8));
    }
    assert(rest.skip(8) =~= role_name(r)@);
    crate::svg::theme::lemma_role_name_round_trip(r);
}

proof fn lemma_stroke_name_back()
    ensures
        classify_spec("--merlion-"@ + token_name(TokenView::Stroke)) == NameView::Theme(
            TokenView::Stroke,
        ),
{
    reveal_strlit("--merlion-");
    reveal_strlit("--");
    reveal_strlit("merlion-");
    reveal_strlit("stroke");
    let s = "--merlion-"@ + "stroke"@;
    assert("--"@.is_prefix_of(s)) by {
        assert("--"@ =~= s.subrange(0, 2));
    }
    let rest = s.skip(2);
    assert("merlion-"@.is_prefix_of(rest)) by {
        assert("merlion-"@ =~= rest.subrange(0, 8));
    }
    assert(rest.skip(8) =~= "stroke"@);
    lemma_stroke_is_no_role(rest.skip(8));
}

/// `stroke` names no role colour.
proof fn lemma_stroke_is_no_role(n: Seq<char>)
    requires
        n == "stroke"@,
    ensures
        role_of_name(n) is None,
{
    reveal_strlit("stroke");
    reveal_strlit("accent");
    reveal_strlit("bg");
    reveal_strlit("border");
    reveal_strlit("cluster-bg");
    reveal_strlit("cluster-border");
    reveal_strlit("danger");
    reveal_strlit("edge");
    reveal_strlit("edge-label-bg");
    reveal_strlit("fg");
    reveal_strlit("line");
    reveal_strlit("muted");
    reveal_strlit("node-bg");
    reveal_strlit("node-border");
    reveal_strlit("node-detail");
    reveal_strlit("node-text");
    reveal_strlit("ok");
    reveal_strlit("store");
    reveal_strlit("surface");
    reveal_strlit("warn");
    assert(n.len() == 6 && n[0] == 's' && n[1] == 't' && n[2] == 'r');
}

/// What the declaration name `s` denotes.
pub open spec fn classify_spec(s: Seq<char>) -> NameView {
    if !"--"@.is_prefix_of(s) {
        NameView::Rejected
    } else {
        let rest = s.skip(2);
        if !"merlion-"@.is_prefix_of(rest) {
            if ident(rest) {
                NameView::Private(s)
            } else {
                NameView::Rejected
            }
        } else {
            let t = rest.skip(8);
            if role_of_name(t) is Some {
                NameView::Theme(TokenView::Colour(role_of_name(t)->0))
            } else if t == "stroke"@ {
                NameView::Theme(TokenView::Stroke)
            } else if t == "tone"@ {
                NameView::Tone
            } else if t == "dash"@ {
                NameView::Dash
            } else if "series-"@.is_prefix_of(t) {
                let n = t.skip(7);
                if n.len() == 1 && '1' <= n[0] && n[0] <= '8' {
                    NameView::Theme(TokenView::Series((n[0] as u32 - 48) as u8))
                } else {
                    NameView::Rejected
                }
            } else if "c-"@.is_prefix_of(t) {
                class_token(t.skip(2))
            } else {
                NameView::Rejected
            }
        }
    }
}

/// The class in `v[lo..hi]` (a `c-` token body) for the property `p`, as a range.
fn class_part_range(v: &Vec<char>, lo: usize, hi: usize, p: &str) -> (r: Option<usize>)
    requires
        lo <= hi <= v@.len(),
    ensures
        match class_part(v@.subrange(lo as int, hi as int), p@) {
            Some(x) => r matches Some(e) && lo <= e <= hi && x == v@.subrange(lo as int, e as int),
            None => r is None,
        },
{
    let pc = chars_of(p);
    let ghost c = v@.subrange(lo as int, hi as int);
    if !ends_with_at(v, lo, hi, p) || hi - lo <= pc.len() {
        return None;
    }
    let e = hi - pc.len() - 1;
    assert(c[c.len() - p@.len() - 1] == v@[e as int]);
    if v[e] != '-' {
        return None;
    }
    assert(c.take(c.len() - p@.len() - 1) =~= v@.subrange(lo as int, e as int));
    Some(e)
}

/// Classifies a declaration name.
pub fn classify(name: &str) -> (r: Name)
    ensures
        r@ == classify_spec(name@),
{
    let cs = chars_of(name);
    let n = cs.len();
    assert(cs@.subrange(0, n as int) =~= cs@);
    if !starts_with_at(&cs, 0, n, "--") {
        return Name::Rejected;
    }
    proof {
        reveal_strlit("--");
        reveal_strlit("merlion-");
        reveal_strlit("series-");
        reveal_strlit("c-");
    }
    let ghost rest = name@.skip(2);
    assert(rest =~= cs@.subrange(2, n as int));
    if !starts_with_at(&cs, 2, n, "merlion-") {
        if ident_range(&cs, 2, n) {
            return Name::Private(owned(name));
        }
        return Name::Rejected;
    }
    let ghost t = rest.skip(8);
    assert(t =~= cs@.subrange(10, n as int));
    let ts = char_slice(name, &cs, 10, n);
    if let Some(r) = Role::from_name(ts) {
        return Name::Theme(Token::Colour(r));
    }
    if range_eq(&cs, 10, n, "stroke") {
        return Name::Theme(Token::Stroke);
    }
    if range_eq(&cs, 10, n, "tone") {
        return Name::Tone;
    }
    if range_eq(&cs, 10, n, "dash") {
        return Name::Dash;
    }
    if starts_with_at(&cs, 10, n, "series-") {
        assert(t.skip(7) =~= cs@.subrange(17, n as int));
        if n == 18 && '1' <= cs[17] && cs[17] <= '8' {
            let d = (cs[17] as u32 - 48) as u8;
            return Name::Theme(Token::Series(d));
        }
        return Name::Rejected;
    }
    if starts_with_at(&cs, 10, n, "c-") {
        let ghost c = t.skip(2);
        assert(c =~= cs@.subrange(12, n as int));
        if let Some(e) = class_part_range(&cs, 12, n, "fill") {
            let s = char_slice(name, &cs, 12, e);
            if is_class_name(s) {
                return Name::Theme(Token::Class(owned(s), ClassProp::Fill));
            }
        }
        if let Some(e) = class_part_range(&cs, 12, n, "stroke") {
            let s = char_slice(name, &cs, 12, e);
            if is_class_name(s) {
                return Name::Theme(Token::Class(owned(s), ClassProp::Stroke));
            }
        }
        if let Some(e) = class_part_range(&cs, 12, n, "color") {
            let s = char_slice(name, &cs, 12, e);
            if is_class_name(s) {
                return Name::Theme(Token::Class(owned(s), ClassProp::Color));
            }
        }
    }
    Name::Rejected
}

// ---------------------------------------------------------------------------------------
// Values
// ---------------------------------------------------------------------------------------

/// Functions whose values are never accepted.
pub open spec fn banned_functions() -> Seq<Seq<char>> {
    seq![
        "url("@,
        "color-mix("@,
        "calc("@,
        "env("@,
        "attr("@,
        "image-set("@,
        "image("@,
        "element("@,
        "paint("@,
        "src("@,
    ]
}

/// Characters never accepted in a value.
pub open spec fn is_banned_char(c: char) -> bool {
    c == '{' || c == '}' || c == ';' || c == '<' || c == '>' || c == '&' || c == '@' || c == '*'
}

/// The colour functions whose syntax uses `/`.
pub open spec fn functional(lower: Seq<char>) -> bool {
    "rgb"@.is_prefix_of(lower) || "hsl"@.is_prefix_of(lower) || "oklab("@.is_prefix_of(lower)
        || "oklch("@.is_prefix_of(lower)
}

/// Why a value text is refused before any grammar applies, or `None`.
pub open spec fn forbidden_spec(v: Seq<char>) -> Option<&'static str> {
    let lower = lower_seq(v);
    if contains_char(v, '\\') {
        Some("CSS escapes are not accepted")
    } else if contains_char(v, '"') || contains_char(v, '\'') {
        Some("quoted strings are not accepted")
    } else if contains_char(lower, '!') {
        Some("`!important` is not accepted")
    } else if !vstd::utf8::is_ascii_chars(v) {
        Some("values are ASCII")
    } else if exists|k: int|
        0 <= k < banned_functions().len() && contains_seq(lower, #[trigger] banned_functions()[k]) {
        Some("only literal colours, numbers and `var()` are accepted")
    } else if exists|i: int| 0 <= i < v.len() && is_banned_char(#[trigger] v[i]) {
        Some("unexpected character")
    } else if contains_char(v, '/') && !functional(lower) {
        Some("unexpected character")
    } else {
        None
    }
}

/// Whether some character of `cs` is never accepted in a value.
fn has_banned_char(cs: &Vec<char>) -> (r: bool)
    ensures
        r == exists|i: int| 0 <= i < cs@.len() && is_banned_char(#[trigger] cs@[i]),
{
    let n = cs.len();
    let mut j: usize = 0;
    while j < n
        invariant
            n == cs@.len(),
            j <= n,
            forall|k: int| 0 <= k < j ==> !is_banned_char(#[trigger] cs@[k]),
        decreases n - j,
    {
        let c = cs[j];
        if c == '{' || c == '}' || c == ';' || c == '<' || c == '>' || c == '&' || c == '@' || c
            == '*' {
            assert(is_banned_char(cs@[j as int]));
            return true;
        }
        j += 1;
    }
    false
}

/// Why a value text was refused, before any grammar applies (`W018`).
pub fn forbidden(v: &str) -> (r: Option<&'static str>)
    ensures
        r == forbidden_spec(v@),
{
    let cs = chars_of(v);
    let n = cs.len();
    let lower = lower_chars(v);
    assert(cs@.subrange(0, n as int) =~= cs@);
    assert(lower@.subrange(0, n as int) =~= lower@);
    if has_char(&cs, 0, n, '\\') {
        return Some("CSS escapes are not accepted");
    }
    if has_char(&cs, 0, n, '"') || has_char(&cs, 0, n, '\'') {
        return Some("quoted strings are not accepted");
    }
    if has_char(&lower, 0, n, '!') {
        return Some("`!important` is not accepted");
    }
    if !v.is_ascii() {
        return Some("values are ASCII");
    }
    let banned = contains_at(&lower, 0, n, "url(") || contains_at(&lower, 0, n, "color-mix(")
        || contains_at(&lower, 0, n, "calc(") || contains_at(&lower, 0, n, "env(") || contains_at(
        &lower,
        0,
        n,
        "attr(",
    ) || contains_at(&lower, 0, n, "image-set(") || contains_at(&lower, 0, n, "image(")
        || contains_at(&lower, 0, n, "element(") || contains_at(&lower, 0, n, "paint(")
        || contains_at(&lower, 0, n, "src(");
    proof {
        let b = banned_functions();
        if banned {
            if contains_seq(lower@, "url("@) {
                assert(contains_seq(lower@, b[0]));
            } else if contains_seq(lower@, "color-mix("@) {
                assert(contains_seq(lower@, b[1]));
            } else if contains_seq(lower@, "calc("@) {
                assert(contains_seq(lower@, b[2]));
            } else if contains_seq(lower@, "env("@) {
                assert(contains_seq(lower@, b[3]));
            } else if contains_seq(lower@, "attr("@) {
                assert(contains_seq(lower@, b[4]));
            } else if contains_seq(lower@, "image-set("@) {
                assert(contains_seq(lower@, b[5]));
            } else if contains_seq(lower@, "image("@) {
                assert(contains_seq(lower@, b[6]));
            } else if contains_seq(lower@, "element("@) {
                assert(contains_seq(lower@, b[7]));
            } else if contains_seq(lower@, "paint("@) {
                assert(contains_seq(lower@, b[8]));
            } else {
                assert(contains_seq(lower@, b[9]));
            }
        } else {
            assert forall|k: int| 0 <= k < b.len() implies !contains_seq(lower@, #[trigger] b[k]) by {
                if k == 0 {} else if k == 1 {} else if k == 2 {} else if k == 3 {} else if k == 4 {}
                else if k == 5 {} else if k == 6 {} else if k == 7 {} else if k == 8 {} else {}
            }
        }
    }
    if banned {
        return Some("only literal colours, numbers and `var()` are accepted");
    }
    if has_banned_char(&cs) {
        return Some("unexpected character");
    }
    if has_char(&cs, 0, n, '/') {
        let f = starts_with_at(&lower, 0, n, "rgb") || starts_with_at(&lower, 0, n, "hsl")
            || starts_with_at(&lower, 0, n, "oklab(") || starts_with_at(&lower, 0, n, "oklch(");
        if !f {
            return Some("unexpected character");
        }
    }
    None
}

/// The parts of a `var(--name)` or `var(--name, fallback)` text: the trimmed name and
/// the trimmed fallback.
pub open spec fn var_parts(v: Seq<char>) -> Option<(Seq<char>, Option<Seq<char>>)> {
    if v.len() >= 5 && "var("@.is_prefix_of(v) && v.last() == ')' {
        let inner = v.subrange(4, v.len() - 1);
        let comma = index_from(inner, ',', 0);
        let name = if comma < inner.len() {
            trim_ws(inner.take(comma))
        } else {
            trim_ws(inner)
        };
        let fallback = if comma < inner.len() {
            Some(trim_ws(inner.skip(comma + 1)))
        } else {
            None
        };
        if "--"@.is_prefix_of(name) && ident(name.skip(2)) {
            Some((name, fallback))
        } else {
            None
        }
    } else {
        None
    }
}

/// `var(--name)` or `var(--name, fallback)`: `Some((name, fallback))`. A nested `var()`
/// in the fallback is refused by the caller.
pub fn parse_var(v: &str) -> (r: Option<(&str, Option<&str>)>)
    ensures
        match var_parts(v@) {
            None => r is None,
            Some((name, fallback)) => r matches Some((n, f)) && n@ == name && match fallback {
                None => f is None,
                Some(x) => f matches Some(y) && y@ == x,
            },
        },
{
    let cs = chars_of(v);
    let n = cs.len();
    assert(cs@.subrange(0, n as int) =~= cs@);
    if n < 5 || !starts_with_at(&cs, 0, n, "var(") || cs[n - 1] != ')' {
        return None;
    }
    let ghost inner = cs@.subrange(4, n - 1);
    let mut comma: usize = 4;
    while comma < n - 1 && cs[comma] != ','
        invariant
            4 <= comma <= n - 1,
            n == cs@.len(),
            inner == cs@.subrange(4, n - 1),
            index_from(inner, ',', comma - 4) == index_from(inner, ',', 0),
        decreases n - 1 - comma,
    {
        assert(inner[comma - 4] == cs@[comma as int]);
        comma += 1;
    }
    proof {
        if comma < n - 1 {
            assert(inner[comma - 4] == cs@[comma as int]);
        }
        lemma_index_from(inner, ',', 0);
        assert(index_from(inner, ',', 0) == comma - 4);
    }
    let (a, b) = if comma < n - 1 {
        assert(inner.take(comma - 4) =~= cs@.subrange(4, comma as int));
        trim_bounds(&cs, 4, comma)
    } else {
        trim_bounds(&cs, 4, n - 1)
    };
    let fallback = if comma < n - 1 {
        assert(inner.skip(comma - 4 + 1) =~= cs@.subrange(comma + 1, n - 1));
        let (x, y) = trim_bounds(&cs, comma + 1, n - 1);
        Some(char_slice(v, &cs, x, y))
    } else {
        None
    };
    proof {
        let name = if comma < n - 1 {
            trim_ws(inner.take(comma - 4))
        } else {
            trim_ws(inner)
        };
        assert(name =~= cs@.subrange(a as int, b as int));
    }
    if !(b - a >= 2 && cs[a] == '-' && cs[a + 1] == '-') {
        proof {
            reveal_strlit("--");
            let name = cs@.subrange(a as int, b as int);
            if "--"@.is_prefix_of(name) {
                assert(name.subrange(0, 2)[0] == name[0] && name.subrange(0, 2)[1] == name[1]);
                assert(name[0] == cs@[a as int] && name[1] == cs@[a + 1]);
                assert("--"@[0] == '-' && "--"@[1] == '-');
            }
        }
        return None;
    }
    proof {
        reveal_strlit("--");
        assert("--"@ =~= cs@.subrange(a as int, b as int).subrange(0, 2));
        assert(cs@.subrange(a as int, b as int).skip(2) =~= cs@.subrange(a + 2, b as int));
    }
    if !ident_range(&cs, a + 2, b) {
        return None;
    }
    Some((char_slice(v, &cs, a, b), fallback))
}

// ---------------------------------------------------------------------------------------
// Selectors
// ---------------------------------------------------------------------------------------

/// One selector of the subset.
#[derive(Clone, Debug, PartialEq, Eq)]
pub enum Selector {
    Root,
    Theme(String),
    AutoDark,
    Role { theme: Option<String>, cluster: bool, name: String },
}

pub enum SelectorView {
    Root,
    Theme(Seq<char>),
    AutoDark,
    Role { theme: Option<Seq<char>>, cluster: bool, name: Seq<char> },
}

impl View for Selector {
    type V = SelectorView;

    open spec fn view(&self) -> SelectorView {
        match self {
            Selector::Root => SelectorView::Root,
            Selector::Theme(t) => SelectorView::Theme(t@),
            Selector::AutoDark => SelectorView::AutoDark,
            Selector::Role { theme, cluster, name } => SelectorView::Role {
                theme: match theme {
                    Some(t) => Some(t@),
                    None => None,
                },
                cluster: *cluster,
                name: name@,
            },
        }
    }
}

/// The theme name of a `[data-theme="…"]` or `[data-theme='…']` attribute selector.
pub open spec fn theme_attr_spec(s: Seq<char>) -> Option<Seq<char>> {
    if s.len() >= 13 && "[data-theme="@.is_prefix_of(s) && s.last() == ']' {
        let inner = s.subrange(12, s.len() - 1);
        let quoted = if inner.len() >= 2 && inner[0] == '"' && inner.last() == '"' {
            Some(inner.subrange(1, inner.len() - 1))
        } else if inner.len() >= 2 && inner[0] == '\'' && inner.last() == '\'' {
            Some(inner.subrange(1, inner.len() - 1))
        } else {
            None
        };
        match quoted {
            Some(t) => if theme_name(t) {
                Some(t)
            } else {
                None
            },
            None => None,
        }
    } else {
        None
    }
}

/// Whether a role class names a cluster role, and the role name.
pub open spec fn role_class_spec(s: Seq<char>) -> Option<(bool, Seq<char>)> {
    if ".merlion-cc-"@.is_prefix_of(s) {
        if class_name(s.skip(12)) {
            Some((true, s.skip(12)))
        } else {
            None
        }
    } else if ".merlion-c-"@.is_prefix_of(s) {
        if class_name(s.skip(11)) {
            Some((false, s.skip(11)))
        } else {
            None
        }
    } else {
        None
    }
}

/// `s` split at every space.
pub open spec fn split_spaces(s: Seq<char>) -> Seq<Seq<char>>
    decreases s.len(),
{
    let i = index_from(s, ' ', 0);
    proof {
        lemma_index_from(s, ' ', 0);
    }
    if i >= s.len() {
        seq![s]
    } else {
        seq![s.take(i)] + split_spaces(s.skip(i + 1))
    }
}

/// The selector `s` denotes (whitespace already collapsed to single spaces).
pub open spec fn selector_spec(s: Seq<char>, in_media: bool) -> Option<SelectorView> {
    if !vstd::utf8::is_ascii_chars(s) {
        None
    } else if in_media {
        if s == ":root:not([data-theme])"@ {
            Some(SelectorView::AutoDark)
        } else {
            None
        }
    } else if s == ":root"@ {
        Some(SelectorView::Root)
    } else if theme_attr_spec(s) is Some {
        Some(SelectorView::Theme(theme_attr_spec(s)->0))
    } else {
        let parts = split_spaces(s);
        let themed = parts[0].len() > 0 && parts[0][0] == '[';
        if themed && theme_attr_spec(parts[0]) is None {
            None
        } else {
            let theme = if themed {
                Some(theme_attr_spec(parts[0])->0)
            } else {
                None
            };
            let rest = if themed {
                parts.skip(1)
            } else {
                parts
            };
            let class = if rest.len() == 1 {
                Some(rest[0])
            } else if rest.len() == 2 && rest[0] == ".merlion"@ {
                Some(rest[1])
            } else {
                None
            };
            match class {
                None => None,
                Some(c) => match role_class_spec(c) {
                    None => None,
                    Some((cluster, name)) => Some(SelectorView::Role { theme, cluster, name }),
                },
            }
        }
    }
}

/// The theme name in `v[lo..hi]` as an attribute selector, as a range.
fn theme_attr_range(v: &Vec<char>, lo: usize, hi: usize) -> (r: Option<(usize, usize)>)
    requires
        lo <= hi <= v@.len(),
    ensures
        match theme_attr_spec(v@.subrange(lo as int, hi as int)) {
            None => r is None,
            Some(t) => r matches Some((a, b)) && lo <= a <= b <= hi && t == v@.subrange(a as int, b as int),
        },
{
    let ghost s = v@.subrange(lo as int, hi as int);
    if hi - lo < 13 || !starts_with_at(v, lo, hi, "[data-theme=") || v[hi - 1] != ']' {
        proof {
            if hi - lo >= 13 {
                assert(s.last() == v@[hi - 1]);
            }
        }
        return None;
    }
    assert(s.last() == v@[hi - 1]);
    let a = lo + 12;
    let b = hi - 1;
    let ghost inner = s.subrange(12, s.len() - 1);
    assert(inner =~= v@.subrange(a as int, b as int));
    if b - a >= 2 && ((v[a] == '"' && v[b - 1] == '"') || (v[a] == '\'' && v[b - 1] == '\'')) {
        assert(inner[0] == v@[a as int] && inner.last() == v@[b - 1]);
        assert(inner.subrange(1, inner.len() - 1) =~= v@.subrange(a + 1, b - 1));
        if theme_name_range(v, a + 1, b - 1) {
            return Some((a + 1, b - 1));
        }
        return None;
    }
    proof {
        if b - a >= 2 {
            assert(inner[0] == v@[a as int] && inner.last() == v@[b - 1]);
        }
    }
    None
}

/// The role class in `v[lo..hi]`: whether it is a cluster role, and the name's range.
fn role_class_range(v: &Vec<char>, lo: usize, hi: usize) -> (r: Option<(bool, usize)>)
    requires
        lo <= hi <= v@.len(),
    ensures
        match role_class_spec(v@.subrange(lo as int, hi as int)) {
            None => r is None,
            Some((cluster, name)) => r matches Some((c, a)) && c == cluster && lo <= a <= hi && name
                == v@.subrange(a as int, hi as int),
        },
{
    let ghost s = v@.subrange(lo as int, hi as int);
    if starts_with_at(v, lo, hi, ".merlion-cc-") {
        proof {
            reveal_strlit(".merlion-cc-");
        }
        assert(s.skip(12) =~= v@.subrange(lo + 12, hi as int));
        let n = char_slice_len_check(v, lo + 12, hi);
        if n {
            return Some((true, lo + 12));
        }
        return None;
    }
    if starts_with_at(v, lo, hi, ".merlion-c-") {
        proof {
            reveal_strlit(".merlion-c-");
        }
        assert(s.skip(11) =~= v@.subrange(lo + 11, hi as int));
        let n = char_slice_len_check(v, lo + 11, hi);
        if n {
            return Some((false, lo + 11));
        }
        return None;
    }
    None
}

/// Whether `v[lo..hi]` is a class name.
fn char_slice_len_check(v: &Vec<char>, lo: usize, hi: usize) -> (r: bool)
    requires
        lo <= hi <= v@.len(),
    ensures
        r == class_name(v@.subrange(lo as int, hi as int)),
{
    let s = string_from_chars(v, lo, hi);
    is_valid_class_name(s.as_str())
}

/// Parses one selector (whitespace already collapsed to single spaces). `in_media` is
/// true inside `@media (prefers-color-scheme: dark)`.
#[verifier::rlimit(40)]
pub fn parse_selector(s: &str, in_media: bool) -> (r: Option<Selector>)
    ensures
        match selector_spec(s@, in_media) {
            None => r is None,
            Some(x) => r matches Some(y) && y@ == x,
        },
{
    if !s.is_ascii() {
        return None;
    }
    let cs = chars_of(s);
    let n = cs.len();
    assert(cs@.subrange(0, n as int) =~= cs@);
    if in_media {
        if range_eq(&cs, 0, n, ":root:not([data-theme])") {
            return Some(Selector::AutoDark);
        }
        return None;
    }
    if range_eq(&cs, 0, n, ":root") {
        return Some(Selector::Root);
    }
    if let Some((a, b)) = theme_attr_range(&cs, 0, n) {
        return Some(Selector::Theme(string_from_chars(&cs, a, b)));
    }
    // The first space-separated part, and whether it is a theme attribute.
    let mut sp: usize = 0;
    while sp < n && cs[sp] != ' '
        invariant
            sp <= n,
            n == cs@.len(),
            index_from(cs@, ' ', sp as int) == index_from(cs@, ' ', 0),
        decreases n - sp,
    {
        sp += 1;
    }
    proof {
        lemma_index_from(cs@, ' ', 0);
        reveal_with_fuel(split_spaces, 2);
        if sp < n {
            assert(split_spaces(cs@)[0] == cs@.take(sp as int));
        } else {
            assert(cs@.take(sp as int) =~= cs@);
        }
        assert(cs@.take(sp as int) =~= cs@.subrange(0, sp as int));
    }
    let themed = sp > 0 && cs[0] == '[';
    let mut theme: Option<String> = None;
    let mut from: usize = 0;
    let ghost parts = split_spaces(cs@);
    proof {
        lemma_split_len(cs@);
        if sp > 0 {
            assert(parts[0][0] == cs@[0]);
        }
    }
    if themed {
        match theme_attr_range(&cs, 0, sp) {
            Some((a, b)) => {
                theme = Some(string_from_chars(&cs, a, b));
            },
            None => {
                return None;
            },
        }
        if sp >= n {
            // A theme attribute alone has no role class.
            proof {
                assert(parts.skip(1).len() == 0);
            }
            return None;
        }
        from = sp + 1;
    }
    // `rest` is the split of `cs[from..]`.
    proof {
        if themed {
            assert(parts.skip(1) =~= split_spaces(cs@.skip(from as int)));
        } else {
            assert(cs@.skip(0) =~= cs@);
        }
    }
    let ghost t = cs@.skip(from as int);
    let mut e1: usize = from;
    while e1 < n && cs[e1] != ' '
        invariant
            from <= e1 <= n,
            n == cs@.len(),
            index_from(cs@, ' ', e1 as int) == index_from(cs@, ' ', from as int),
        decreases n - e1,
    {
        e1 += 1;
    }
    proof {
        lemma_index_from(cs@, ' ', from as int);
        lemma_index_shift(cs@, ' ', 0, from as int);
        lemma_split_len(t);
    }
    let (c_lo, c_hi) = if e1 >= n {
        assert(t =~= cs@.subrange(from as int, n as int));
        (from, n)
    } else {
        let mut e2: usize = e1 + 1;
        while e2 < n && cs[e2] != ' '
            invariant
                e1 < e2 <= n,
                n == cs@.len(),
                index_from(cs@, ' ', e2 as int) == index_from(cs@, ' ', e1 + 1),
            decreases n - e2,
        {
            e2 += 1;
        }
        proof {
            lemma_index_from(cs@, ' ', e1 + 1);
            let u = t.skip(e1 - from + 1);
            assert(u =~= cs@.skip(e1 + 1));
            lemma_index_shift(cs@, ' ', 0, e1 + 1);
            lemma_split_len(u);
            assert(split_spaces(t) == seq![t.take(e1 - from)] + split_spaces(u));
            assert(t.take(e1 - from) =~= cs@.subrange(from as int, e1 as int));
        }
        if e2 < n {
            return None;
        }
        proof {
            assert(cs@.skip(e1 + 1) =~= cs@.subrange(e1 + 1, n as int));
        }
        if !range_eq(&cs, from, e1, ".merlion") {
            return None;
        }
        (e1 + 1, n)
    };
    match role_class_range(&cs, c_lo, c_hi) {
        None => None,
        Some((cluster, a)) => Some(Selector::Role { theme, cluster, name: string_from_chars(&cs, a, c_hi) }),
    }
}

/// Searching from `j` in `s.skip(k)` is searching from `j + k` in `s`.
pub proof fn lemma_index_shift(s: Seq<char>, c: char, j: int, k: int)
    requires
        0 <= k <= s.len(),
        0 <= j,
    ensures
        index_from(s.skip(k), c, j) == index_from(s, c, j + k) - k,
    decreases s.len() - (j + k),
{
    if j + k < s.len() && s[j + k] != c {
        lemma_index_shift(s, c, j + 1, k);
        assert(s.skip(k)[j] == s[j + k]);
    } else if j + k < s.len() {
        assert(s.skip(k)[j] == s[j + k]);
    }
}

/// A split has one part exactly when there is no space, and that part is the text.
pub proof fn lemma_split_len(s: Seq<char>)
    ensures
        split_spaces(s).len() >= 1,
        split_spaces(s).len() == 1 <==> index_from(s, ' ', 0) >= s.len(),
        index_from(s, ' ', 0) >= s.len() ==> split_spaces(s) == seq![s],
    decreases s.len(),
{
    lemma_index_from(s, ' ', 0);
    let i = index_from(s, ' ', 0);
    if i < s.len() {
        lemma_split_len(s.skip(i + 1));
    }
}

} // verus!
