//! Plain-text outline: labels as plain text.

use vstd::prelude::*;

use crate::svg::escape::{dropped, is_dropped};
use crate::model::{Edge, Flowchart, Node, Stroke, Subgraph};
use crate::options::Direction;
use crate::svg::tree::{effective_links, effective_parents, group, lemma_members_below, members_of};
use crate::text::{char_count, chars_of, owned, decimal, is_whitespace, is_unicode_ws, push_char, push_decimal, push_str};

verus! {

/// A paired Markdown delimiter.
#[derive(Clone, Copy, Debug, PartialEq, Eq, Structural)]
pub enum Delim {
    /// `**`
    Double,
    /// `*`
    Star,
    /// `` ` ``
    Tick,
}

/// One token of a label: a character of text, a delimiter, or a hard line break.
#[derive(Clone, Copy, Debug, PartialEq, Eq, Structural)]
pub enum Tok {
    Text(char),
    Mark(Delim),
    Space,
}

/// The tokens of a label from its `i`-th character on: `\n` is a break, `**` a double
/// delimiter (leftmost first), `*` and `` ` `` single ones, and every other character
/// text.
pub open spec fn tokens_from(cs: Seq<char>, i: int) -> Seq<Tok>
    decreases cs.len() - i,
{
    if i < 0 || i >= cs.len() {
        Seq::empty()
    } else if cs[i] == '\n' {
        seq![Tok::Space] + tokens_from(cs, i + 1)
    } else if cs[i] == '*' && i + 1 < cs.len() && cs[i + 1] == '*' {
        seq![Tok::Mark(Delim::Double)] + tokens_from(cs, i + 2)
    } else if cs[i] == '*' {
        seq![Tok::Mark(Delim::Star)] + tokens_from(cs, i + 1)
    } else if cs[i] == '`' {
        seq![Tok::Mark(Delim::Tick)] + tokens_from(cs, i + 1)
    } else {
        seq![Tok::Text(cs[i])] + tokens_from(cs, i + 1)
    }
}

/// The token at `i`, and how many characters it takes.
pub open spec fn token_at(cs: Seq<char>, i: int) -> (Tok, int) {
    if cs[i] == '\n' {
        (Tok::Space, 1)
    } else if cs[i] == '*' && i + 1 < cs.len() && cs[i + 1] == '*' {
        (Tok::Mark(Delim::Double), 2)
    } else if cs[i] == '*' {
        (Tok::Mark(Delim::Star), 1)
    } else if cs[i] == '`' {
        (Tok::Mark(Delim::Tick), 1)
    } else {
        (Tok::Text(cs[i]), 1)
    }
}

proof fn lemma_tokens_step(cs: Seq<char>, i: int)
    requires
        0 <= i < cs.len(),
    ensures
        tokens_from(cs, i) == seq![token_at(cs, i).0] + tokens_from(cs, i + token_at(cs, i).1),
{
}

proof fn lemma_push_then_add(a: Seq<Tok>, t: Tok, b: Seq<Tok>)
    ensures
        a.push(t) + b == a + (seq![t] + b),
{
    assert(a.push(t) + b =~= a + (seq![t] + b));
}

/// The tokens of a label.
pub open spec fn tokens(cs: Seq<char>) -> Seq<Tok> {
    tokens_from(cs, 0)
}

/// How many delimiters of kind `d` the tokens hold.
pub open spec fn delim_count(ts: Seq<Tok>, d: Delim) -> nat
    decreases ts.len(),
{
    if ts.len() == 0 {
        0
    } else {
        delim_count(ts.drop_last(), d) + if ts.last() == Tok::Mark(d) {
            1nat
        } else {
            0nat
        }
    }
}

/// Whether the delimiter at `i` of kind `d` stays literal: occurrences of one kind pair
/// up in order (first with second, third with fourth, …) and are dropped, and an odd
/// last occurrence stays.
pub open spec fn stays(ts: Seq<Tok>, i: int, d: Delim) -> bool {
    delim_count(ts, d) % 2 == 1 && delim_count(ts.take(i), d) + 1 == delim_count(ts, d)
}

pub open spec fn delim_text(d: Delim) -> Seq<char> {
    match d {
        Delim::Double => seq!['*', '*'],
        Delim::Star => seq!['*'],
        Delim::Tick => seq!['`'],
    }
}

/// What token `i` contributes to the unpaired text.
pub open spec fn piece(ts: Seq<Tok>, i: int) -> Seq<char> {
    match ts[i] {
        Tok::Text(c) => seq![c],
        Tok::Space => seq![' '],
        Tok::Mark(d) => if stays(ts, i, d) {
            delim_text(d)
        } else {
            Seq::empty()
        },
    }
}

/// The text of the first `j` tokens, paired delimiters removed.
pub open spec fn unpaired(ts: Seq<Tok>, j: int) -> Seq<char>
    decreases j,
{
    if j <= 0 {
        Seq::empty()
    } else {
        unpaired(ts, j - 1) + piece(ts, j - 1)
    }
}

/// `cs` without the characters that never reach the output.
pub open spec fn visible(cs: Seq<char>) -> Seq<char>
    decreases cs.len(),
{
    if cs.len() == 0 {
        Seq::empty()
    } else if dropped(cs.last()) {
        visible(cs.drop_last())
    } else {
        visible(cs.drop_last()).push(cs.last())
    }
}

/// Appends `cs` to `out`, where `space` says a whitespace run is pending: runs of
/// whitespace become one space between words, and none at either end.
pub open spec fn collapse(cs: Seq<char>, out: Seq<char>, space: bool) -> Seq<char>
    decreases cs.len(),
{
    if cs.len() == 0 {
        out
    } else if is_unicode_ws(cs[0]) {
        collapse(cs.skip(1), out, out.len() > 0)
    } else if space {
        collapse(cs.skip(1), out + seq![' ', cs[0]], false)
    } else {
        collapse(cs.skip(1), out.push(cs[0]), false)
    }
}

/// A label as plain text.
pub open spec fn plain(label: Seq<char>) -> Seq<char> {
    let ts = tokens(label);
    collapse(visible(unpaired(ts, ts.len() as int)), Seq::empty(), false)
}

/// Label as plain text: a hard line break (`\n`) becomes a space, paired Markdown
/// delimiters (`**`, `*`, `` ` ``) are removed, whitespace collapses, dropped
/// characters vanish. A `<br>` still in the label came from `#lt;br#gt;` and is text.
#[verifier::spinoff_prover]
#[verifier::rlimit(30)]
pub fn plain_label(label: &str) -> (r: String)
    ensures
        r@ == plain(label@),
{
    let cs = chars_of(label);
    let n = cs.len();
    // Pass 1: split into tokens so delimiters can be paired.
    let mut toks: Vec<Tok> = Vec::new();
    let mut i: usize = 0;
    assert(toks@ + tokens_from(cs@, 0) =~= tokens_from(cs@, 0));
    while i < n
        invariant
            n == cs@.len(),
            cs@ == label@,
            i <= n,
            tokens(cs@) == toks@ + tokens_from(cs@, i as int),
        decreases n - i,
    {
        let ghost before = toks@;
        let c = cs[i];
        let (t, step): (Tok, usize) = if c == '\n' {
            (Tok::Space, 1)
        } else if c == '*' && n - i >= 2 && cs[i + 1] == '*' {
            (Tok::Mark(Delim::Double), 2)
        } else if c == '*' {
            (Tok::Mark(Delim::Star), 1)
        } else if c == '`' {
            (Tok::Mark(Delim::Tick), 1)
        } else {
            (Tok::Text(c), 1)
        };
        let ghost next = tokens_from(cs@, i + step);
        proof {
            assert(token_at(cs@, i as int) == (t, step as int));
            lemma_tokens_step(cs@, i as int);
            lemma_push_then_add(before, t, next);
        }
        toks.push(t);
        i += step;
        assert(toks@ == before.push(t));
    }
    proof {
        assert(toks@ + Seq::<Tok>::empty() =~= toks@);
    }
    let m = toks.len();
    let ghost ts = toks@;
    // How many delimiters of each kind there are.
    let mut total_double: usize = 0;
    let mut total_star: usize = 0;
    let mut total_tick: usize = 0;
    let mut j: usize = 0;
    assert(ts.take(0) =~= Seq::<Tok>::empty());
    while j < m
        invariant
            ts == toks@,
            m == ts.len(),
            j <= m,
            total_double == delim_count(ts.take(j as int), Delim::Double),
            total_star == delim_count(ts.take(j as int), Delim::Star),
            total_tick == delim_count(ts.take(j as int), Delim::Tick),
            total_double + total_star + total_tick <= j,
        decreases m - j,
    {
        proof {
            assert(ts.take(j + 1).drop_last() =~= ts.take(j as int));
            assert(ts.take(j + 1).last() == ts[j as int]);
        }
        match toks[j] {
            Tok::Mark(Delim::Double) => total_double += 1,
            Tok::Mark(Delim::Star) => total_star += 1,
            Tok::Mark(Delim::Tick) => total_tick += 1,
            _ => {},
        }
        j += 1;
    }
    assert(ts.take(m as int) =~= ts);
    // Pass 2: keep the delimiters that stay, and the text.
    let mut raw: Vec<char> = Vec::new();
    let mut seen_double: usize = 0;
    let mut seen_star: usize = 0;
    let mut seen_tick: usize = 0;
    let mut j: usize = 0;
    while j < m
        invariant
            ts == toks@,
            m == ts.len(),
            j <= m,
            total_double == delim_count(ts, Delim::Double),
            total_star == delim_count(ts, Delim::Star),
            total_tick == delim_count(ts, Delim::Tick),
            seen_double == delim_count(ts.take(j as int), Delim::Double),
            seen_star == delim_count(ts.take(j as int), Delim::Star),
            seen_tick == delim_count(ts.take(j as int), Delim::Tick),
            seen_double <= j,
            seen_star <= j,
            seen_tick <= j,
            raw@ == unpaired(ts, j as int),
        decreases m - j,
    {
        proof {
            assert(ts.take(j + 1).drop_last() =~= ts.take(j as int));
            assert(ts.take(j + 1).last() == ts[j as int]);
        }
        let ghost before = raw@;
        match toks[j] {
            Tok::Text(c) => {
                raw.push(c);
            },
            Tok::Space => {
                raw.push(' ');
            },
            Tok::Mark(Delim::Double) => {
                if total_double % 2 == 1 && seen_double + 1 == total_double {
                    raw.push('*');
                    raw.push('*');
                }
                seen_double += 1;
            },
            Tok::Mark(Delim::Star) => {
                if total_star % 2 == 1 && seen_star + 1 == total_star {
                    raw.push('*');
                }
                seen_star += 1;
            },
            Tok::Mark(Delim::Tick) => {
                if total_tick % 2 == 1 && seen_tick + 1 == total_tick {
                    raw.push('`');
                }
                seen_tick += 1;
            },
        }
        assert(raw@ =~= before + piece(ts, j as int));
        j += 1;
    }
    // Pass 3: drop what never reaches the output and collapse whitespace.
    let mut out = String::new();
    let mut space = false;
    let mut started = false;
    let ghost vis = visible(raw@);
    let mut k: usize = 0;
    let ghost mut kept: Seq<char> = Seq::empty();
    assert(raw@.take(0) =~= Seq::<char>::empty());
    assert(vis.skip(0) =~= vis);
    while k < raw.len()
        invariant
            k <= raw@.len(),
            raw@ == unpaired(ts, m as int),
            ts == tokens(label@),
            m == ts.len(),
            kept == visible(raw@.take(k as int)),
            started == (out@.len() > 0),
            collapse(vis, Seq::empty(), false) == collapse(vis.skip(kept.len() as int), out@, space),
            vis == visible(raw@),
            kept.len() <= vis.len(),
            vis.take(kept.len() as int) == kept,
        decreases raw@.len() - k,
    {
        let c = raw[k];
        proof {
            assert(raw@.take(k + 1).drop_last() =~= raw@.take(k as int));
            assert(raw@.take(k + 1).last() == c);
            lemma_visible_prefix(raw@, k + 1);
        }
        if !is_dropped(c) {
            proof {
                let rest = vis.skip(kept.len() as int);
                assert(vis.take(kept.len() as int + 1) == kept.push(c));
                assert(rest[0] == c) by {
                    assert(vis.take(kept.len() as int + 1)[kept.len() as int] == c);
                }
                assert(rest.skip(1) =~= vis.skip(kept.len() as int + 1));
            }
            let ghost out0 = out@;
            let ghost sp0 = space;
            if is_whitespace(c) {
                space = started;
            } else {
                if space {
                    push_char(&mut out, ' ');
                    space = false;
                }
                push_char(&mut out, c);
                started = true;
            }
            proof {
                let rest = vis.skip(kept.len() as int);
                if !is_unicode_ws(c) && sp0 {
                    assert(out@ =~= out0 + seq![' ', c]);
                }
                assert(collapse(rest, out0, sp0) == collapse(rest.skip(1), out@, space));
                kept = kept.push(c);
            }
        }
        k += 1;
    }
    proof {
        assert(raw@.take(raw@.len() as int) =~= raw@);
        assert(vis.skip(vis.len() as int) =~= Seq::<char>::empty());
    }
    out
}

/// The visible characters of a prefix are a prefix of the visible characters.
proof fn lemma_visible_prefix(cs: Seq<char>, k: int)
    requires
        0 <= k <= cs.len(),
    ensures
        visible(cs.take(k)).len() <= visible(cs).len(),
        visible(cs).take(visible(cs.take(k)).len() as int) == visible(cs.take(k)),
    decreases cs.len(),
{
    if k == cs.len() {
        assert(cs.take(k) =~= cs);
        assert(visible(cs).take(visible(cs).len() as int) =~= visible(cs));
    } else {
        let d = cs.drop_last();
        lemma_visible_prefix(d, k);
        assert(d.take(k) =~= cs.take(k));
        let v = visible(d);
        let w = visible(d.take(k));
        if !dropped(cs.last()) {
            assert(v.push(cs.last()).take(w.len() as int) =~= v.take(w.len() as int));
        }
    }
}

/// Text in the outline's shape: no whitespace but single spaces between words, none at
/// either end, and no dropped characters.
pub open spec fn single_spaced(r: Seq<char>) -> bool {
    &&& forall|i: int| 0 <= i < r.len() ==> !dropped(#[trigger] r[i])
    &&& forall|i: int| 0 <= i < r.len() && is_unicode_ws(#[trigger] r[i]) ==> r[i] == ' '
    &&& r.len() > 0 ==> r[0] != ' ' && r[r.len() - 1] != ' '
    &&& forall|i: int| 0 <= i < r.len() - 1 && #[trigger] r[i] == ' ' ==> r[i + 1] != ' '
}

proof fn lemma_visible_kept(cs: Seq<char>)
    ensures
        forall|i: int| 0 <= i < visible(cs).len() ==> !dropped(#[trigger] visible(cs)[i]),
    decreases cs.len(),
{
    if cs.len() > 0 {
        lemma_visible_kept(cs.drop_last());
        let p = visible(cs.drop_last());
        if !dropped(cs.last()) {
            assert forall|i: int| 0 <= i < p.push(cs.last()).len() implies !dropped(
                #[trigger] p.push(cs.last())[i],
            ) by {
                if i < p.len() {
                    assert(p.push(cs.last())[i] == p[i]);
                }
            }
        }
    }
}

proof fn lemma_collapse_shape(cs: Seq<char>, out: Seq<char>, space: bool)
    requires
        forall|i: int| 0 <= i < cs.len() ==> !dropped(#[trigger] cs[i]),
        single_spaced(out),
        space ==> out.len() > 0,
    ensures
        single_spaced(collapse(cs, out, space)),
    decreases cs.len(),
{
    if cs.len() > 0 {
        let rest = cs.skip(1);
        assert forall|i: int| 0 <= i < rest.len() implies !dropped(#[trigger] rest[i]) by {
            assert(rest[i] == cs[i + 1]);
        }
        let c = cs[0];
        assert(!dropped(c));
        if is_unicode_ws(c) {
            lemma_collapse_shape(rest, out, out.len() > 0);
        } else {
            assert(c != ' ');
            assert(!dropped(' '));
            let no = if space {
                out + seq![' ', c]
            } else {
                out.push(c)
            };
            assert forall|i: int| 0 <= i < no.len() implies !dropped(#[trigger] no[i]) by {
                if i < out.len() {
                    assert(no[i] == out[i]);
                }
            }
            assert forall|i: int| 0 <= i < no.len() && is_unicode_ws(#[trigger] no[i]) implies no[i]
                == ' ' by {
                if i < out.len() {
                    assert(no[i] == out[i]);
                }
            }
            assert forall|i: int| 0 <= i < no.len() - 1 && #[trigger] no[i] == ' ' implies no[i + 1]
                != ' ' by {
                if i + 1 < out.len() {
                    assert(no[i] == out[i] && no[i + 1] == out[i + 1]);
                } else if i + 1 == out.len() {
                    assert(no[i] == out[i]);
                    assert(out[out.len() - 1] != ' ');
                }
            }
            if out.len() > 0 {
                assert(no[0] == out[0]);
            }
            assert(single_spaced(no));
            lemma_collapse_shape(rest, no, false);
        }
    }
}

/// The outline's text of a label is single-spaced: no line breaks or other whitespace
/// but single spaces between words, no space at either end, and no dropped characters.
pub proof fn lemma_plain_is_single_spaced(label: Seq<char>)
    ensures
        single_spaced(plain(label)),
{
    let ts = tokens(label);
    let v = visible(unpaired(ts, ts.len() as int));
    lemma_visible_kept(unpaired(ts, ts.len() as int));
    lemma_collapse_shape(v, Seq::empty(), false);
}

/// The marker at one end of an edge; `Plain` is an end without a marker.
#[derive(Clone, Copy, Debug, PartialEq, Eq)]
pub enum Arrow {
    Plain,
    Arrow,
    Circle,
    Cross,
}

/// The outline's glyph for an edge: which way it points, by which ends carry a marker.
pub open spec fn glyph(start: Arrow, end: Arrow) -> Seq<char> {
    if start is Plain && !(end is Plain) {
        "→"@
    } else if !(start is Plain) && !(end is Plain) {
        "↔"@
    } else if !(start is Plain) {
        "←"@
    } else {
        "—"@
    }
}

/// The outline's glyph for an edge with these end markers: `→`, `←`, `↔`, or `—` for
/// an edge with no marker.
pub fn arrow_glyph(start: Arrow, end: Arrow) -> (r: &'static str)
    ensures
        r@ == glyph(start, end),
{
    let s = !matches!(start, Arrow::Plain);
    let e = !matches!(end, Arrow::Plain);
    if !s && e {
        "→"
    } else if s && e {
        "↔"
    } else if s {
        "←"
    } else {
        "—"
    }
}

/// How the outline reads a diagram's direction.
pub open spec fn phrase(d: Direction) -> Seq<char> {
    match d {
        Direction::TB => "top to bottom"@,
        Direction::BT => "bottom to top"@,
        Direction::LR => "left to right"@,
        Direction::RL => "right to left"@,
    }
}

/// The outline's words for the direction `d`.
pub fn direction_phrase(d: Direction) -> (r: &'static str)
    ensures
        r@ == phrase(d),
{
    match d {
        Direction::TB => "top to bottom",
        Direction::BT => "bottom to top",
        Direction::LR => "left to right",
        Direction::RL => "right to left",
    }
}

/// Appends `n` and the noun for that many: `one` when `n` is 1, `many` otherwise
/// (`1 node`, `3 nodes`).
pub fn count(out: &mut String, n: usize, one: &str, many: &str)
    ensures
        final(out)@ == old(out)@ + decimal(n as nat) + " "@ + (if n == 1 {
            one@
        } else {
            many@
        }),
{
    push_decimal(out, n);
    push_str(out, " ");
    if n == 1 {
        push_str(out, one);
    } else {
        push_str(out, many);
    }
    assert(final(out)@ =~= old(out)@ + decimal(n as nat) + " "@ + (if n == 1 {
        one@
    } else {
        many@
    }));
}

// ---------------------------------------------------------------------------------------
// The flowchart outline
// ---------------------------------------------------------------------------------------

/// An edge the outline counts and lists: every edge but an invisible one.
pub open spec fn shown(e: Edge) -> bool {
    !(e.stroke is Invisible)
}

/// How many of the first `k` edges are shown.
pub open spec fn shown_count(es: Seq<Edge>, k: int) -> nat
    decreases k,
{
    if k <= 0 {
        0
    } else {
        shown_count(es, k - 1) + if shown(es[k - 1]) {
            1nat
        } else {
            0nat
        }
    }
}

/// Each edge filed under its source node when it is shown.
pub open spec fn out_home(es: Seq<Edge>) -> Seq<Option<usize>> {
    Seq::new(
        es.len(),
        |e: int|
            if shown(es[e]) {
                Some(es[e].from)
            } else {
                None
            },
    )
}

/// The shown edges leaving node `i` of `n`, in order.
pub open spec fn outgoing(es: Seq<Edge>, n: nat, i: int) -> Seq<usize> {
    members_of(out_home(es), n, Some(i as usize))
}

/// One of the first `k` edges is shown and starts or ends at node `i`.
pub open spec fn touched_upto(es: Seq<Edge>, i: int, k: int) -> bool {
    exists|e: int| 0 <= e < k && #[trigger] shown(es[e]) && (es[e].from == i || es[e].to == i)
}

/// `a`, or `b` when `a` is empty.
pub open spec fn or_else(a: Seq<char>, b: Seq<char>) -> Seq<char> {
    if a.len() == 0 {
        b
    } else {
        a
    }
}

/// How the outline names node `i`: its label as plain text, else its id, else `?` for
/// an index that names no node.
pub open spec fn node_name_text(nodes: Seq<Node>, i: int) -> Seq<char> {
    if 0 <= i < nodes.len() {
        or_else(plain(nodes[i].label@), plain(nodes[i].id@))
    } else {
        "?"@
    }
}

/// How the outline names cluster `s`: its title as plain text, else its id.
pub open spec fn cluster_name(subs: Seq<Subgraph>, s: int) -> Seq<char> {
    or_else(plain(subs[s].title@), plain(subs[s].id@))
}

/// The names of cluster `sg` and the clusters above it, innermost first, for at most
/// `fuel` clusters.
pub open spec fn path_names(
    subs: Seq<Subgraph>,
    links: Seq<Option<usize>>,
    sg: int,
    fuel: nat,
) -> Seq<Seq<char>>
    decreases fuel,
{
    if fuel == 0 || sg < 0 || sg >= subs.len() {
        Seq::empty()
    } else {
        seq![cluster_name(subs, sg)] + match links[sg] {
            Some(p) => path_names(subs, links, p as int, (fuel - 1) as nat),
            None => Seq::empty(),
        }
    }
}

/// The names, last first, joined by ` / `.
pub open spec fn joined_back(names: Seq<Seq<char>>) -> Seq<char>
    decreases names.len(),
{
    if names.len() == 0 {
        Seq::empty()
    } else if names.len() == 1 {
        names[0]
    } else {
        joined_back(names.drop_first()) + " / "@ + names[0]
    }
}

/// A cluster's path from the top-level cluster down: `Outer / Inner`.
pub open spec fn cluster_path_text(subs: Seq<Subgraph>, links: Seq<Option<usize>>, sg: int) -> Seq<
    char,
> {
    joined_back(path_names(subs, links, sg, (subs.len() + 1) as nat))
}

/// An edge label in brackets, when it has plain text.
pub open spec fn label_text(l: Option<String>) -> Seq<char> {
    match l {
        Some(s) => if plain(s@).len() > 0 {
            " ["@ + plain(s@) + "]"@
        } else {
            Seq::empty()
        },
        None => Seq::empty(),
    }
}

/// One outgoing edge on its source's line.
pub open spec fn edge_text(nodes: Seq<Node>, e: Edge, first: bool) -> Seq<char> {
    (if first {
        " "@
    } else {
        "; "@
    }) + glyph(e.arrow_start, e.arrow_end) + " "@ + node_name_text(nodes, e.to as int) + label_text(
        e.label,
    )
}

/// The first `k` edges of `outs`.
pub open spec fn edges_text(nodes: Seq<Node>, es: Seq<Edge>, outs: Seq<usize>, k: int) -> Seq<char>
    decreases k,
{
    if k <= 0 {
        Seq::empty()
    } else {
        edges_text(nodes, es, outs, k - 1) + edge_text(nodes, es[outs[k - 1] as int], k == 1)
    }
}

/// The line of node `i`: none for a node outside every cluster that has edges but no
/// outgoing one; otherwise its cluster path, its name and its outgoing edges.
pub open spec fn node_line(c: Flowchart, links: Seq<Option<usize>>, i: int) -> Seq<char> {
    let nodes = c.nodes@;
    let es = c.edges@;
    let subs = c.subgraphs@;
    let sg = nodes[i].subgraph;
    let inside = sg is Some && sg->0 < subs.len();
    let outs = outgoing(es, nodes.len(), i);
    if outs.len() == 0 && touched_upto(es, i, es.len() as int) && !inside {
        Seq::empty()
    } else {
        "\n"@ + (if inside {
            cluster_path_text(subs, links, sg->0 as int) + ": "@
        } else {
            Seq::empty()
        }) + node_name_text(nodes, i) + edges_text(nodes, es, outs, outs.len() as int)
    }
}

pub open spec fn node_lines(c: Flowchart, links: Seq<Option<usize>>, k: int) -> Seq<char>
    decreases k,
{
    if k <= 0 {
        Seq::empty()
    } else {
        node_lines(c, links, k - 1) + node_line(c, links, k - 1)
    }
}

/// Cluster `si` has a member node or a nested cluster.
pub open spec fn holds_something(c: Flowchart, links: Seq<Option<usize>>, si: int) -> bool {
    (exists|m: int| 0 <= m < c.nodes@.len() && #[trigger] c.nodes@[m].subgraph == Some(si as usize))
        || links.contains(Some(si as usize))
}

/// The line of a cluster that would otherwise not appear: its path and a colon.
pub open spec fn cluster_line(c: Flowchart, links: Seq<Option<usize>>, si: int) -> Seq<char> {
    if holds_something(c, links, si) {
        Seq::empty()
    } else {
        "\n"@ + cluster_path_text(c.subgraphs@, links, si) + ":"@
    }
}

pub open spec fn cluster_lines(c: Flowchart, links: Seq<Option<usize>>, k: int) -> Seq<char>
    decreases k,
{
    if k <= 0 {
        Seq::empty()
    } else {
        cluster_lines(c, links, k - 1) + cluster_line(c, links, k - 1)
    }
}

/// The clusters' effective parent links.
pub open spec fn chart_links(c: Flowchart) -> Seq<Option<usize>> {
    effective_links(c.subgraphs@.map_values(|s: Subgraph| s.parent))
}

/// The outline's first line: type, direction and counts.
pub open spec fn outline_head(c: Flowchart, d: Direction) -> Seq<char> {
    let n = c.nodes@.len();
    let v = shown_count(c.edges@, c.edges@.len() as int);
    "Flowchart, "@ + phrase(d) + ". "@ + decimal(n) + " "@ + (if n == 1 {
        "node"@
    } else {
        "nodes"@
    }) + ", "@ + decimal(v) + " "@ + (if v == 1 {
        "edge"@
    } else {
        "edges"@
    }) + "."@
}

/// The plain-text outline of a flowchart drawn in direction `d`.
pub open spec fn outline_text(c: Flowchart, d: Direction) -> Seq<char> {
    outline_head(c, d) + node_lines(c, chart_links(c), c.nodes@.len() as int) + cluster_lines(
        c,
        chart_links(c),
        c.subgraphs@.len() as int,
    )
}

fn push_node_name(out: &mut String, nodes: &Vec<Node>, i: usize)
    ensures
        final(out)@ == old(out)@ + node_name_text(nodes@, i as int),
{
    if i < nodes.len() {
        let l = plain_label(nodes[i].label.as_str());
        if char_count(l.as_str()) == 0 {
            let d = plain_label(nodes[i].id.as_str());
            push_str(out, d.as_str());
        } else {
            push_str(out, l.as_str());
        }
    } else {
        push_str(out, "?");
    }
}

fn cluster_title(subs: &Vec<Subgraph>, s: usize) -> (r: String)
    requires
        s < subs@.len(),
    ensures
        r@ == cluster_name(subs@, s as int),
{
    let t = plain_label(subs[s].title.as_str());
    if char_count(t.as_str()) == 0 {
        plain_label(subs[s].id.as_str())
    } else {
        t
    }
}

pub open spec fn name_views(v: Seq<String>) -> Seq<Seq<char>> {
    v.map_values(|s: String| s@)
}

/// Appends the path of cluster `sg`, outermost first.
fn push_cluster_path(out: &mut String, subs: &Vec<Subgraph>, links: &Vec<Option<usize>>, sg: usize)
    requires
        links@.len() == subs@.len(),
        subs@.len() < usize::MAX,
    ensures
        final(out)@ == old(out)@ + cluster_path_text(subs@, links@, sg as int),
{
    let k = subs.len();
    let ghost whole = path_names(subs@, links@, sg as int, (k + 1) as nat);
    let mut names: Vec<String> = Vec::new();
    let mut at: usize = sg;
    let mut going = true;
    let mut fuel: usize = k + 1;
    while going && fuel > 0
        invariant
            k == subs@.len(),
            links@.len() == k,
            fuel <= k + 1,
            whole == name_views(names@) + if going {
                path_names(subs@, links@, at as int, fuel as nat)
            } else {
                Seq::empty()
            },
        decreases fuel as int + if going {
            1int
        } else {
            0int
        },
    {
        if at >= k {
            going = false;
            assert(name_views(names@) + Seq::<Seq<char>>::empty() =~= name_views(names@));
        } else {
            let ghost before = names@;
            let t = cluster_title(subs, at);
            names.push(t);
            assert(name_views(names@) =~= name_views(before).push(cluster_name(subs@, at as int)));
            match links[at] {
                Some(p) => {
                    assert(name_views(names@) + path_names(subs@, links@, p as int, (fuel - 1) as nat)
                        =~= name_views(before) + path_names(subs@, links@, at as int, fuel as nat));
                    at = p;
                },
                None => {
                    going = false;
                    assert(name_views(names@) + Seq::<Seq<char>>::empty() =~= name_views(before)
                        + path_names(subs@, links@, at as int, fuel as nat));
                },
            }
            fuel -= 1;
        }
    }
    assert(whole =~= name_views(names@));
    let ghost nv = name_views(names@);
    let ghost o = out@;
    let m = names.len();
    let mut j = m;
    assert(nv.subrange(m as int, m as int).len() == 0);
    while j > 0
        invariant
            j <= m,
            m == names@.len(),
            nv == name_views(names@),
            out@ == o + joined_back(nv.subrange(j as int, m as int)),
        decreases j,
    {
        let ghost prev = nv.subrange(j as int, m as int);
        if j < m {
            push_str(out, " / ");
        }
        push_str(out, names[j - 1].as_str());
        proof {
            let cur = nv.subrange(j - 1, m as int);
            assert(cur[0] == nv[j - 1]);
            assert(nv[j - 1] == names@[j - 1]@);
            assert(cur.drop_first() =~= prev);
            if j == m {
                assert(cur.len() == 1);
            }
        }
        j -= 1;
    }
    assert(nv.subrange(0, m as int) =~= nv);
}

/// Appends one outgoing edge of a node's line.
fn push_edge(out: &mut String, nodes: &Vec<Node>, ed: &Edge, first: bool)
    ensures
        final(out)@ == old(out)@ + edge_text(nodes@, *ed, first),
{
    if first {
        push_str(out, " ");
    } else {
        push_str(out, "; ");
    }
    push_str(out, arrow_glyph(ed.arrow_start, ed.arrow_end));
    push_str(out, " ");
    push_node_name(out, nodes, ed.to);
    match &ed.label {
        Some(l) => {
            let p = plain_label(l.as_str());
            if char_count(p.as_str()) > 0 {
                push_str(out, " [");
                push_str(out, p.as_str());
                push_str(out, "]");
            }
        },
        None => {},
    }
    assert(final(out)@ =~= old(out)@ + edge_text(nodes@, *ed, first));
}

/// Appends the outline line of node `i`.
fn push_node_line(
    out: &mut String,
    chart: &Flowchart,
    links: &Vec<Option<usize>>,
    outs: &Vec<usize>,
    touched: bool,
    i: usize,
)
    requires
        i < chart.nodes@.len(),
        links@.len() == chart.subgraphs@.len(),
        chart.subgraphs@.len() < usize::MAX,
        outs@ == outgoing(chart.edges@, chart.nodes@.len() as nat, i as int),
        forall|q: int| 0 <= q < outs@.len() ==> #[trigger] outs@[q] < chart.edges@.len(),
        touched == touched_upto(chart.edges@, i as int, chart.edges@.len() as int),
    ensures
        final(out)@ == old(out)@ + node_line(*chart, links@, i as int),
{
    let nodes = &chart.nodes;
    let edges = &chart.edges;
    let subs = &chart.subgraphs;
    let ghost es = edges@;
    let sg = nodes[i].subgraph;
    let inside = match sg {
        Some(s) => s < subs.len(),
        None => false,
    };
    if outs.len() == 0 && touched && !inside {
        assert(node_line(*chart, links@, i as int) =~= Seq::<char>::empty());
        assert(final(out)@ =~= old(out)@ + Seq::<char>::empty());
        return;
    }
    push_str(out, "\n");
    if let Some(s) = sg {
        if s < subs.len() {
            push_cluster_path(out, subs, links, s);
            push_str(out, ": ");
        }
    }
    push_node_name(out, nodes, i);
    let ghost pre = out@;
    let mut k: usize = 0;
    assert(edges_text(nodes@, es, outs@, 0) =~= Seq::<char>::empty());
    while k < outs.len()
        invariant
            k <= outs@.len(),
            es == edges@,
            nodes == &chart.nodes,
            edges == &chart.edges,
            forall|q: int| 0 <= q < outs@.len() ==> #[trigger] outs@[q] < es.len(),
            out@ == pre + edges_text(nodes@, es, outs@, k as int),
        decreases outs@.len() - k,
    {
        let ei = outs[k];
        push_edge(out, nodes, &edges[ei], k == 0);
        assert(out@ =~= pre + edges_text(nodes@, es, outs@, k + 1));
        k += 1;
    }
    assert(final(out)@ =~= old(out)@ + node_line(*chart, links@, i as int));
}

/// The outline of a flowchart drawn in direction `dir`.
///
/// The first line names the type, the direction and the counts; invisible edges are
/// neither counted nor listed. Then one line per node, in order, for every node that
/// has outgoing edges, has no edges at all, or sits inside a cluster, prefixed with its
/// cluster path, listing its outgoing edges with their labels. A cluster with no member
/// node and no nested cluster is listed as its path and a colon.
pub fn outline(chart: &Flowchart, dir: Direction) -> (r: String)
    requires
        chart.subgraphs@.len() < usize::MAX,
    ensures
        r@ == outline_text(*chart, dir),
{
    let nodes = &chart.nodes;
    let edges = &chart.edges;
    let subs = &chart.subgraphs;
    let n = nodes.len();
    let ghost es = edges@;
    let mut home: Vec<Option<usize>> = Vec::new();
    let mut shown_n: usize = 0;
    let mut e: usize = 0;
    while e < edges.len()
        invariant
            es == edges@,
            e <= es.len(),
            home@ == out_home(es).take(e as int),
            shown_n == shown_count(es, e as int),
            shown_n <= e,
        decreases es.len() - e,
    {
        let ed = &edges[e];
        if !matches!(ed.stroke, Stroke::Invisible) {
            home.push(Some(ed.from));
            shown_n += 1;
        } else {
            home.push(None);
        }
        assert(home@ =~= out_home(es).take(e + 1));
        e += 1;
    }
    assert(home@ =~= out_home(es));
    assert(home@.len() == es.len());
    assert(es.len() == edges.len());
    let mut out = owned("Flowchart, ");
    push_str(&mut out, direction_phrase(dir));
    push_str(&mut out, ". ");
    count(&mut out, n, "node", "nodes");
    push_str(&mut out, ", ");
    count(&mut out, shown_n, "edge", "edges");
    push_str(&mut out, ".");
    let ghost head = out@;
    assert(head =~= outline_head(*chart, dir));

    let mut decl: Vec<Option<usize>> = Vec::new();
    let mut i: usize = 0;
    while i < subs.len()
        invariant
            i <= subs@.len(),
            decl@ =~= subs@.map_values(|s: Subgraph| s.parent).take(i as int),
        decreases subs@.len() - i,
    {
        decl.push(subs[i].parent);
        i += 1;
    }
    assert(decl@ =~= subs@.map_values(|s: Subgraph| s.parent));
    let links = effective_parents(decl.as_slice());
    let ghost ls = links@;
    assert(ls == chart_links(*chart));
    let (outs_of, _) = group(home.as_slice(), n);
    proof {
        lemma_members_below(home@, n as nat, None, home@.len() as int);
    }

    let mut touched: Vec<bool> = Vec::new();
    let mut i: usize = 0;
    while i < n
        invariant
            i <= n,
            touched@.len() == i,
            forall|j: int| 0 <= j < i ==> !#[trigger] touched@[j],
        decreases n - i,
    {
        touched.push(false);
        i += 1;
    }
    let mut e: usize = 0;
    while e < edges.len()
        invariant
            es == edges@,
            e <= es.len(),
            touched@.len() == n,
            forall|j: int| 0 <= j < n ==> #[trigger] touched@[j] == touched_upto(es, j, e as int),
        decreases es.len() - e,
    {
        let ed = &edges[e];
        let ghost before = touched@;
        if !matches!(ed.stroke, Stroke::Invisible) {
            if ed.from < n {
                touched.set(ed.from, true);
            }
            if ed.to < n {
                touched.set(ed.to, true);
            }
        }
        assert forall|j: int| 0 <= j < n implies #[trigger] touched@[j] == touched_upto(
            es,
            j,
            e + 1,
        ) by {
            if touched_upto(es, j, e + 1) && !touched_upto(es, j, e as int) {
                let w = choose|w: int| 0 <= w < e + 1 && #[trigger] shown(es[w]) && (es[w].from == j
                    || es[w].to == j);
                assert(w == e);
            }
            if touched_upto(es, j, e as int) {
                let w = choose|w: int| 0 <= w < e && #[trigger] shown(es[w]) && (es[w].from == j
                    || es[w].to == j);
                assert(0 <= w < e + 1);
            }
            if touched@[j] && !before[j] {
                assert(shown(es[e as int]));
            }
        }
        e += 1;
    }

    let mut i: usize = 0;
    while i < n
        invariant
            i <= n,
            n == nodes@.len(),
            es == edges@,
            nodes == &chart.nodes,
            edges == &chart.edges,
            subs == &chart.subgraphs,
            subs@.len() < usize::MAX,
            ls == links@,
            ls.len() == subs@.len(),
            home@ == out_home(es),
            home@.len() == es.len(),
            es.len() <= usize::MAX,
            outs_of@.len() == n,
            forall|c: int| 0 <= c < n ==> (#[trigger] outs_of@[c])@ == members_of(home@, n as nat, Some(c as usize)),
            touched@.len() == n,
            forall|j: int| 0 <= j < n ==> #[trigger] touched@[j] == touched_upto(es, j, es.len() as int),
            out@ == head + node_lines(*chart, ls, i as int),
        decreases n - i,
    {
        proof {
            lemma_members_below(home@, n as nat, Some(i), home@.len() as int);
        }
        push_node_line(&mut out, chart, &links, &outs_of[i], touched[i], i);
        i += 1;
    }

    let k = subs.len();
    let mut si: usize = 0;
    while si < k
        invariant
            si <= k,
            k == subs@.len(),
            k < usize::MAX,
            n == nodes@.len(),
            nodes == &chart.nodes,
            subs == &chart.subgraphs,
            ls == links@,
            ls.len() == k,
            out@ == head + node_lines(*chart, ls, n as int) + cluster_lines(*chart, ls, si as int),
        decreases k - si,
    {
        let mut member = false;
        let mut m: usize = 0;
        while m < n
            invariant
                m <= n,
                n == nodes@.len(),
                member == exists|q: int| 0 <= q < m && #[trigger] nodes@[q].subgraph == Some(si),
            decreases n - m,
        {
            let hit = match nodes[m].subgraph {
                Some(x) => x == si,
                None => false,
            };
            if hit {
                member = true;
            }
            assert(hit == (nodes@[m as int].subgraph == Some(si)));
            m += 1;
        }
        let mut child = false;
        let mut q: usize = 0;
        while q < links.len()
            invariant
                q <= ls.len(),
                ls == links@,
                child == exists|w: int| 0 <= w < q && ls[w] == Some(si),
            decreases ls.len() - q,
        {
            let hit = match links[q] {
                Some(x) => x == si,
                None => false,
            };
            if hit {
                child = true;
            }
            q += 1;
        }
        assert(child == ls.contains(Some(si)));
        let ghost before = out@;
        if !member && !child {
            push_str(&mut out, "\n");
            push_cluster_path(&mut out, subs, &links, si);
            push_str(&mut out, ":");
        }
        assert(out@ =~= before + cluster_line(*chart, ls, si as int));
        si += 1;
    }
    out
}

} // verus!
