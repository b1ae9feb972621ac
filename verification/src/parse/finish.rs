//! Resolving a parsed flowchart's clusters: edges to a subgraph id, subgraphs named
//! inside others, and the final order of nodes, edges and clusters.
//!
//! Edges to a subgraph id connect to the cluster; the model has node-to-node edges only,
//! so such an endpoint becomes the subgraph's first member node (in declaration order,
//! nested subgraphs included). A subgraph named inside another subgraph nests there,
//! unless the link would close a cycle. An edge between a subgraph and one of its own
//! members is dropped. Clusters come out parents first, otherwise in declaration order.

use vstd::prelude::*;
use vstd::string::StringSliceAdditionalSpecFns;

use crate::diag::{Diagnostic, Fix, Severity, Span};
use crate::model::{Edge, Flowchart, Link, Node, Shape, Subgraph};
use crate::options::Direction;
use crate::parse::cursor::{span_spec, LineIndex};
use crate::svg::tree::{acyclic, group, holds, lemma_up_no_repeat, members_of, step_up, up};
use crate::text::{decimal, owned, push_decimal, push_str, str_eq};

verus! {

/// A node as the parser collected it: `shaped` when a statement gave it a shape or a
/// label, so that it is a node even where its id names a subgraph.
pub struct NodeBuild {
    pub id: String,
    pub label: String,
    pub shape: Shape,
    pub subgraph: Option<usize>,
    pub span: Span,
    pub shaped: bool,
    /// Given a shape, a label or a statement of its own; a node only ever seen as a bare
    /// edge endpoint is not, and gets `R005`.
    pub declared: bool,
    /// The byte range of the id at its first occurrence.
    pub first_id: (usize, usize),
}

/// A cluster as the parser collected it.
pub struct SubBuild {
    pub id: String,
    pub title: String,
    pub parent: Option<usize>,
    pub direction: Option<Direction>,
    pub span: Span,
}

/// A resolved node before `class`, `:::` and `click` apply.
pub struct NodeCore {
    pub id: String,
    pub label: String,
    pub shape: Shape,
    pub subgraph: Option<usize>,
    pub span: Span,
}

/// A `class`, `:::`, `style` or `click` statement, applied in source order once the
/// nodes are resolved.
pub enum Op {
    /// Adds a class to the node, or else the subgraph, with this id.
    Class { id: String, class: String },
    /// A `style` statement for this id; `W010` when it names neither a node nor a
    /// subgraph. Its declarations are not part of this model.
    Style { id: String, span: Span },
    /// Sets the link of the node with this id.
    Click { id: String, link: Link },
}

/// A flowchart as the parser collected it, before its clusters are resolved.
pub struct FlowBuild {
    pub nodes: Vec<NodeBuild>,
    pub edges: Vec<Edge>,
    pub subs: Vec<SubBuild>,
    pub ops: Vec<Op>,
    /// The edge indices of each `linkStyle` statement, with their spans; the declarations
    /// are not part of this model.
    pub link_styles: Vec<Vec<(usize, Span)>>,
}

// ---------------------------------------------------------------------------------------
// The model
// ---------------------------------------------------------------------------------------

/// The first subgraph from `k` on whose id is `id`.
pub open spec fn sub_named_from(subs: Seq<SubBuild>, id: Seq<char>, k: int) -> Option<usize>
    decreases subs.len() - k,
{
    if k < 0 || k >= subs.len() {
        None
    } else if subs[k].id@ == id {
        Some(k as usize)
    } else {
        sub_named_from(subs, id, k + 1)
    }
}

/// The subgraph a node stands for: the first with its id, for a node that only names one.
pub open spec fn candidate(b: FlowBuild, n: int) -> Option<usize> {
    if 0 <= n < b.nodes@.len() && !b.nodes@[n].shaped {
        sub_named_from(b.subs@, b.nodes@[n].id@, 0)
    } else {
        None
    }
}

/// The link above cluster `c`, `None` past the clusters.
pub open spec fn link_of(ps: Seq<Option<usize>>, c: usize) -> Option<usize> {
    if c < ps.len() {
        ps[c as int]
    } else {
        None
    }
}

/// Climbing the links from `cur`, cluster `x` is met, or the climb outlasts the number of
/// clusters (a cycle, taken as met).
pub open spec fn meets(ps: Seq<Option<usize>>, x: usize, cur: Option<usize>, steps: int) -> bool
    decreases ps.len() + 1 - steps,
{
    match cur {
        None => false,
        Some(c) => if c == x {
            true
        } else if steps > ps.len() || steps < 0 {
            true
        } else {
            meets(ps, x, link_of(ps, c), steps + 1)
        },
    }
}

/// The parent links after the `n`-th node, when it names subgraph `x` inside subgraph
/// `s`, nested `x` in `s`.
pub open spec fn nest_step(b: FlowBuild, ps: Seq<Option<usize>>, n: int) -> Seq<Option<usize>> {
    match (candidate(b, n), b.nodes@[n].subgraph) {
        (Some(x), Some(s)) => if x < ps.len() && ps[x as int] is None && !meets(ps, x, Some(s), 0) {
            ps.update(x as int, Some(s))
        } else {
            ps
        },
        _ => ps,
    }
}

/// The parent links once the first `k` nodes have nested the subgraphs they name.
pub open spec fn nested_parents(b: FlowBuild, k: int) -> Seq<Option<usize>>
    decreases k,
{
    if k <= 0 {
        b.subs@.map_values(|s: SubBuild| s.parent)
    } else {
        nest_step(b, nested_parents(b, k - 1), k - 1)
    }
}

/// The parent links once every node has nested the subgraphs it names.
pub open spec fn final_parents(b: FlowBuild) -> Seq<Option<usize>> {
    nested_parents(b, b.nodes@.len() as int)
}

/// Node `n` names a subgraph that now nests in the subgraph `n` was written in: it is
/// not a node of its own.
pub open spec fn absorbed(b: FlowBuild, n: int) -> bool {
    match (candidate(b, n), b.nodes@[n].subgraph) {
        (Some(x), Some(s)) => x < b.subs@.len() && nested_parents(b, n + 1)[x as int] == Some(s),
        _ => false,
    }
}

/// Climbing the links from `cur` within the bound, cluster `s` is passed.
pub open spec fn passes(ps: Seq<Option<usize>>, s: usize, cur: Option<usize>, steps: int) -> bool
    decreases ps.len() + 1 - steps,
{
    match cur {
        None => false,
        Some(c) => if steps > ps.len() || steps < 0 {
            false
        } else {
            c == s || passes(ps, s, link_of(ps, c), steps + 1)
        },
    }
}

/// The first node from `m` on that is a real node inside cluster `s`, at any depth.
pub open spec fn first_member_from(b: FlowBuild, s: usize, m: int) -> Option<usize>
    decreases b.nodes@.len() - m,
{
    if m < 0 || m >= b.nodes@.len() {
        None
    } else if candidate(b, m) is None && passes(final_parents(b), s, b.nodes@[m].subgraph, 0) {
        Some(m as usize)
    } else {
        first_member_from(b, s, m + 1)
    }
}

/// The node an endpoint naming a subgraph is redirected to: the subgraph's first member.
pub open spec fn redirect(b: FlowBuild, n: int) -> Option<usize> {
    match candidate(b, n) {
        Some(s) => first_member_from(b, s, 0),
        None => None,
    }
}

/// Node `m` lies inside cluster `x`, at any depth.
pub open spec fn inside(b: FlowBuild, m: int, x: usize) -> bool {
    meets(
        final_parents(b),
        x,
        if 0 <= m < b.nodes@.len() {
            b.nodes@[m].subgraph
        } else {
            None
        },
        0,
    )
}

/// Endpoint `sub` stands for a subgraph that holds the real node `other`.
pub open spec fn into(b: FlowBuild, sub: int, other: int) -> bool {
    match candidate(b, sub) {
        Some(x) => redirect(b, sub) is Some && candidate(b, other) is None && inside(b, other, x),
        None => false,
    }
}

/// An edge survives unless it joins a subgraph and one of its own members.
pub open spec fn edge_kept(b: FlowBuild, e: Edge) -> bool {
    !into(b, e.from as int, e.to as int) && !into(b, e.to as int, e.from as int)
}

/// A node survives unless it is redirected or absorbed.
pub open spec fn node_kept(b: FlowBuild, n: int) -> bool {
    redirect(b, n) is None && !absorbed(b, n)
}

/// How many of the first `k` nodes survive.
pub open spec fn kept_before(b: FlowBuild, k: int) -> nat
    decreases k,
{
    if k <= 0 {
        0
    } else {
        kept_before(b, k - 1) + if node_kept(b, k - 1) {
            1nat
        } else {
            0nat
        }
    }
}

/// The new index of node `n`, if it survives.
pub open spec fn new_index(b: FlowBuild, n: int) -> Option<usize> {
    if 0 <= n < b.nodes@.len() && node_kept(b, n) {
        Some(kept_before(b, n) as usize)
    } else {
        None
    }
}

/// Where an edge endpoint lands: its redirect target, or itself, by new index.
pub open spec fn resolve(b: FlowBuild, n: int) -> Option<usize> {
    new_index(
        b,
        match redirect(b, n) {
            Some(r) => r as int,
            None => n,
        },
    )
}

/// Clusters met climbing from `cur` that are not yet placed, stopping at a placed one, a
/// repeat, or the bound; `chain` holds those met so far.
pub open spec fn climb(
    ps: Seq<Option<usize>>,
    placed: Seq<bool>,
    cur: Option<usize>,
    chain: Seq<usize>,
) -> Seq<usize>
    decreases ps.len() + 2 - chain.len(),
{
    match cur {
        None => chain,
        Some(c) => if !(c < placed.len() && !placed[c as int]) || chain.contains(c) || chain.len()
            > ps.len() {
            chain
        } else {
            climb(ps, placed, link_of(ps, c), chain.push(c))
        },
    }
}

/// Marks the clusters of `chain` placed.
pub open spec fn place(placed: Seq<bool>, chain: Seq<usize>) -> Seq<bool> {
    Seq::new(placed.len(), |j: int| placed[j] || chain.contains(j as usize))
}

/// The placed flags and the order after the first `i` clusters: each cluster comes
/// after its unplaced ancestors, outermost first.
pub open spec fn order_after(ps: Seq<Option<usize>>, i: int) -> (Seq<bool>, Seq<usize>)
    decreases i,
{
    if i <= 0 {
        (Seq::new(ps.len(), |j: int| false), Seq::empty())
    } else {
        let (pl, ord) = order_after(ps, i - 1);
        let ch = climb(ps, pl, Some((i - 1) as usize), Seq::empty());
        (place(pl, ch), ord + ch.reverse())
    }
}

/// The clusters in their final order: parents first.
pub open spec fn cluster_order(b: FlowBuild) -> Seq<usize> {
    order_after(final_parents(b), b.subs@.len() as int).1
}

/// The new index of every cluster after the first `j` of the order were numbered.
pub open spec fn numbered(ord: Seq<usize>, k: nat, j: int) -> Seq<usize>
    decreases j,
{
    if j <= 0 {
        Seq::new(k, |q: int| 0usize)
    } else {
        let prev = numbered(ord, k, j - 1);
        if ord[j - 1] < k {
            prev.update(ord[j - 1] as int, (j - 1) as usize)
        } else {
            prev
        }
    }
}

/// The new index of every cluster.
pub open spec fn new_sub(b: FlowBuild) -> Seq<usize> {
    numbered(cluster_order(b), b.subs@.len() as nat, cluster_order(b).len() as int)
}

/// A cluster index renumbered; `None` past the clusters.
pub open spec fn renumber(b: FlowBuild, s: Option<usize>) -> Option<usize> {
    match s {
        Some(x) => if x < b.subs@.len() {
            Some(new_sub(b)[x as int])
        } else {
            None
        },
        None => None,
    }
}

/// The surviving nodes among the first `k`, renumbered.
pub open spec fn nodes_out(b: FlowBuild, k: int) -> Seq<NodeCore>
    decreases k,
{
    if k <= 0 {
        Seq::empty()
    } else {
        let n = b.nodes@[k - 1];
        nodes_out(b, k - 1) + if node_kept(b, k - 1) {
            seq![
                NodeCore {
                    id: n.id,
                    label: n.label,
                    shape: n.shape,
                    subgraph: renumber(b, n.subgraph),
                    span: n.span,
                },
            ]
        } else {
            Seq::empty()
        }
    }
}

/// The surviving edges among the first `k`, with their endpoints resolved.
pub open spec fn edges_out(b: FlowBuild, k: int) -> Seq<Edge>
    decreases k,
{
    if k <= 0 {
        Seq::empty()
    } else {
        let e = b.edges@[k - 1];
        edges_out(b, k - 1) + if edge_kept(b, e) && resolve(b, e.from as int) is Some && resolve(
            b,
            e.to as int,
        ) is Some {
            seq![
                Edge {
                    from: resolve(b, e.from as int)->0,
                    to: resolve(b, e.to as int)->0,
                    label: e.label,
                    stroke: e.stroke,
                    arrow_start: e.arrow_start,
                    arrow_end: e.arrow_end,
                    min_len: e.min_len,
                    span: e.span,
                },
            ]
        } else {
            Seq::empty()
        }
    }
}

/// The clusters of the first `j` places of the order, each once, renumbered.
pub open spec fn clusters_out(b: FlowBuild, j: int) -> Seq<SubBuild>
    decreases j,
{
    if j <= 0 {
        Seq::empty()
    } else {
        let ord = cluster_order(b);
        let old = ord[j - 1];
        clusters_out(b, j - 1) + if old < b.subs@.len() && !ord.take(j - 1).contains(old) {
            seq![
                SubBuild {
                    id: b.subs@[old as int].id,
                    title: b.subs@[old as int].title,
                    parent: renumber(b, final_parents(b)[old as int]),
                    direction: b.subs@[old as int].direction,
                    span: b.subs@[old as int].span,
                },
            ]
        } else {
            Seq::empty()
        }
    }
}

/// The nodes among the first `k` that are never declared and name no subgraph: each
/// gets `R005`, declaring it with its id as the label.
pub open spec fn undeclared(b: FlowBuild, k: int) -> Seq<usize>
    decreases k,
{
    if k <= 0 {
        Seq::empty()
    } else {
        undeclared(b, k - 1) + if !b.nodes@[k - 1].declared && candidate(b, k - 1) is None {
            seq![(k - 1) as usize]
        } else {
            Seq::empty()
        }
    }
}

/// `d` is the `R005` repair of node `n` in the text `src`: a label `[id]` inserted at the
/// end of the id's first occurrence.
pub open spec fn r005(d: Diagnostic, b: FlowBuild, src: Seq<u8>, n: int) -> bool {
    let nb = b.nodes@[n];
    &&& d.severity == Severity::Repair
    &&& d.code@ == "R005"@
    &&& d.span == span_spec(src, nb.first_id.0, nb.first_id.1)
    &&& d.message@ == "node `"@ + nb.id@ + "` is never declared; declared with its id as the label"@
    &&& d.fix is Some
    &&& d.fix->0.span == span_spec(src, nb.first_id.1, nb.first_id.1)
    &&& d.fix->0.replacement@ == "["@ + nb.id@ + "]"@
}

// ---------------------------------------------------------------------------------------
// `class`, `:::`, `style` and `click`
// ---------------------------------------------------------------------------------------

/// The last of the first `k` resolved nodes with id `id`.
pub open spec fn last_named(ns: Seq<NodeCore>, id: Seq<char>, k: int) -> Option<int>
    decreases k,
{
    if k <= 0 {
        None
    } else if ns[k - 1].id@ == id {
        Some(k - 1)
    } else {
        last_named(ns, id, k - 1)
    }
}

/// The resolved node a statement's id names.
pub open spec fn node_for(b: FlowBuild, id: Seq<char>) -> Option<int> {
    let ns = nodes_out(b, b.nodes@.len() as int);
    last_named(ns, id, ns.len() as int)
}

/// The id of the statement names a subgraph.
pub open spec fn sub_for(b: FlowBuild, id: Seq<char>) -> bool {
    sub_named_from(b.subs@, id, 0) is Some
}

pub open spec fn class_views(v: Seq<String>) -> Seq<Seq<char>> {
    v.map_values(|c: String| c@)
}

/// A class list with `c` added unless it is there already.
pub open spec fn add_class(cs: Seq<Seq<char>>, c: Seq<char>) -> Seq<Seq<char>> {
    if cs.contains(c) {
        cs
    } else {
        cs.push(c)
    }
}

/// The classes of resolved node `i` after the first `k` statements.
pub open spec fn node_classes(b: FlowBuild, k: int, i: int) -> Seq<Seq<char>>
    decreases k,
{
    if k <= 0 {
        Seq::empty()
    } else {
        let prev = node_classes(b, k - 1, i);
        match b.ops@[k - 1] {
            Op::Class { id, class } => if node_for(b, id@) == Some(i) {
                add_class(prev, class@)
            } else {
                prev
            },
            _ => prev,
        }
    }
}

/// The link of resolved node `i` after the first `k` statements: the last `click`.
pub open spec fn node_link(b: FlowBuild, k: int, i: int) -> Option<Link>
    decreases k,
{
    if k <= 0 {
        None
    } else {
        match b.ops@[k - 1] {
            Op::Click { id, link } => if node_for(b, id@) == Some(i) {
                Some(link)
            } else {
                node_link(b, k - 1, i)
            },
            _ => node_link(b, k - 1, i),
        }
    }
}

/// The classes the first `k` statements give the subgraph id `sid`, for an id that no
/// node takes.
pub open spec fn id_classes(b: FlowBuild, k: int, sid: Seq<char>) -> Seq<Seq<char>>
    decreases k,
{
    if k <= 0 {
        Seq::empty()
    } else {
        let prev = id_classes(b, k - 1, sid);
        match b.ops@[k - 1] {
            Op::Class { id, class } => if id@ == sid && node_for(b, sid) is None && sub_for(b, sid) {
                add_class(prev, class@)
            } else {
                prev
            },
            _ => prev,
        }
    }
}

/// The `style` statements among the first `k` that name neither a node nor a subgraph.
pub open spec fn style_misses(b: FlowBuild, k: int) -> Seq<int>
    decreases k,
{
    if k <= 0 {
        Seq::empty()
    } else {
        style_misses(b, k - 1) + match b.ops@[k - 1] {
            Op::Style { id, span } => if node_for(b, id@) is None && !sub_for(b, id@) {
                seq![k - 1]
            } else {
                Seq::empty()
            },
            _ => Seq::empty(),
        }
    }
}

/// `d` is the `W010` warning of the `style` statement `op`.
pub open spec fn w010(d: Diagnostic, op: Op) -> bool {
    match op {
        Op::Style { id, span } => {
            &&& d.severity == Severity::Warning
            &&& d.code@ == "W010"@
            &&& d.span == span
            &&& d.message@ == "style target `"@ + id@ + "` is not a node; ignored"@
            &&& d.fix is None
        },
        _ => false,
    }
}

/// The `linkStyle` indices of the first `k` statements, one after the other.
pub open spec fn link_style_entries(b: FlowBuild, k: int) -> Seq<(usize, Span)>
    decreases k,
{
    if k <= 0 {
        Seq::empty()
    } else {
        link_style_entries(b, k - 1) + b.link_styles@[k - 1]@
    }
}

/// The entries that name no edge of the `e` the chart has.
pub open spec fn out_of_range(s: Seq<(usize, Span)>, e: nat) -> Seq<(usize, Span)>
    decreases s.len(),
{
    if s.len() == 0 {
        Seq::empty()
    } else {
        out_of_range(s.drop_last(), e) + if s.last().0 >= e {
            seq![s.last()]
        } else {
            Seq::empty()
        }
    }
}

/// The `linkStyle` indices that name no resolved edge.
pub open spec fn link_style_misses(b: FlowBuild) -> Seq<(usize, Span)> {
    out_of_range(
        link_style_entries(b, b.link_styles@.len() as int),
        edges_out(b, b.edges@.len() as int).len(),
    )
}

/// `d` is the `W010` warning of a `linkStyle` index out of range of `e` edges.
pub open spec fn w010_index(d: Diagnostic, entry: (usize, Span), e: nat) -> bool {
    &&& d.severity == Severity::Warning
    &&& d.code@ == "W010"@
    &&& d.span == entry.1
    &&& d.message@ == "linkStyle index "@ + decimal(entry.0 as nat) + " is out of range: the diagram has "@
        + decimal(e) + " edges; ignored"@
    &&& d.fix is None
}

/// The classes of the `j`-th resolved cluster: those its id collected, unless an earlier
/// cluster with the same id took them.
pub open spec fn cluster_classes(b: FlowBuild, j: int) -> Seq<Seq<char>> {
    let cl = clusters_out(b, cluster_order(b).len() as int);
    if exists|q: int| 0 <= q < j && #[trigger] cl[q].id@ == cl[j].id@ {
        Seq::empty()
    } else {
        id_classes(b, b.ops@.len() as int, cl[j].id@)
    }
}

/// The cluster of each resolved node.
pub open spec fn node_homes(b: FlowBuild) -> Seq<Option<usize>> {
    nodes_out(b, b.nodes@.len() as int).map_values(|c: NodeCore| c.subgraph)
}

// ---------------------------------------------------------------------------------------
// The steps
// ---------------------------------------------------------------------------------------

proof fn lemma_sub_named_below(subs: Seq<SubBuild>, id: Seq<char>, k: int)
    ensures
        sub_named_from(subs, id, k) matches Some(x) ==> x < subs.len(),
    decreases subs.len() - k,
{
    if 0 <= k < subs.len() && subs[k].id@ != id {
        lemma_sub_named_below(subs, id, k + 1);
    }
}

fn sub_named(subs: &Vec<SubBuild>, id: &str) -> (r: Option<usize>)
    ensures
        r == sub_named_from(subs@, id@, 0),
{
    let mut k: usize = 0;
    while k < subs.len()
        invariant
            k <= subs@.len(),
            sub_named_from(subs@, id@, k as int) == sub_named_from(subs@, id@, 0),
        decreases subs@.len() - k,
    {
        if str_eq(subs[k].id.as_str(), id) {
            return Some(k);
        }
        k += 1;
    }
    None
}

fn meets_exec(ps: &Vec<Option<usize>>, x: usize, start: Option<usize>) -> (r: bool)
    requires
        ps@.len() < usize::MAX,
    ensures
        r == meets(ps@, x, start, 0),
{
    let mut cur = start;
    let mut steps: usize = 0;
    loop
        invariant
            ps@.len() < usize::MAX,
            steps <= ps@.len() + 1,
            meets(ps@, x, cur, steps as int) == meets(ps@, x, start, 0),
        decreases ps@.len() + 1 - steps,
    {
        match cur {
            None => {
                return false;
            },
            Some(c) => {
                if c == x {
                    return true;
                }
                if steps > ps.len() {
                    return true;
                }
                steps += 1;
                cur = if c < ps.len() {
                    ps[c]
                } else {
                    None
                };
            },
        }
    }
}

fn passes_exec(ps: &Vec<Option<usize>>, s: usize, start: Option<usize>) -> (r: bool)
    requires
        ps@.len() < usize::MAX,
    ensures
        r == passes(ps@, s, start, 0),
{
    let mut cur = start;
    let mut steps: usize = 0;
    loop
        invariant
            ps@.len() < usize::MAX,
            steps <= ps@.len() + 1,
            passes(ps@, s, cur, steps as int) == passes(ps@, s, start, 0),
        decreases ps@.len() + 1 - steps,
    {
        match cur {
            None => {
                return false;
            },
            Some(c) => {
                if steps > ps.len() {
                    return false;
                }
                if c == s {
                    return true;
                }
                steps += 1;
                cur = if c < ps.len() {
                    ps[c]
                } else {
                    None
                };
            },
        }
    }
}

proof fn lemma_climb_below(ps: Seq<Option<usize>>, placed: Seq<bool>, cur: Option<usize>, chain: Seq<usize>)
    requires
        forall|q: int| 0 <= q < chain.len() ==> chain[q] < placed.len(),
        chain.len() <= ps.len() + 1,
    ensures
        forall|q: int|
            0 <= q < climb(ps, placed, cur, chain).len() ==> #[trigger] climb(ps, placed, cur, chain)[q]
                < placed.len(),
        climb(ps, placed, cur, chain).len() <= ps.len() + 1,
    decreases ps.len() + 2 - chain.len(),
{
    match cur {
        None => {},
        Some(c) => {
            if !(c < placed.len() && !placed[c as int]) || chain.contains(c) || chain.len() > ps.len() {
            } else {
                let nc = chain.push(c);
                assert forall|q: int| 0 <= q < nc.len() implies nc[q] < placed.len() by {
                    if q < chain.len() {
                        assert(nc[q] == chain[q]);
                    }
                }
                lemma_climb_below(ps, placed, link_of(ps, c), nc);
            }
        },
    }
}

fn climb_exec(ps: &Vec<Option<usize>>, placed: &Vec<bool>, start: usize) -> (r: Vec<usize>)
    requires
        ps@.len() < usize::MAX,
        placed@.len() == ps@.len(),
    ensures
        r@ == climb(ps@, placed@, Some(start), Seq::empty()),
{
    let mut chain: Vec<usize> = Vec::new();
    let mut cur: Option<usize> = Some(start);
    loop
        invariant
            ps@.len() < usize::MAX,
            placed@.len() == ps@.len(),
            chain@.len() <= ps@.len() + 1,
            climb(ps@, placed@, cur, chain@) == climb(ps@, placed@, Some(start), Seq::empty()),
        decreases ps@.len() + 2 - chain@.len(),
    {
        match cur {
            None => {
                return chain;
            },
            Some(c) => {
                if !(c < placed.len() && !placed[c]) || holds(&chain, c) || chain.len() > ps.len() {
                    return chain;
                }
                chain.push(c);
                cur = if c < ps.len() {
                    ps[c]
                } else {
                    None
                };
            },
        }
    }
}

fn candidates(b: &FlowBuild) -> (r: Vec<Option<usize>>)
    ensures
        r@.len() == b.nodes@.len(),
        forall|n: int| 0 <= n < r@.len() ==> #[trigger] r@[n] == candidate(*b, n),
{
    let mut r: Vec<Option<usize>> = Vec::new();
    let mut n: usize = 0;
    while n < b.nodes.len()
        invariant
            n <= b.nodes@.len(),
            r@.len() == n,
            forall|j: int| 0 <= j < n ==> #[trigger] r@[j] == candidate(*b, j),
        decreases b.nodes@.len() - n,
    {
        let c = if b.nodes[n].shaped {
            None
        } else {
            sub_named(&b.subs, b.nodes[n].id.as_str())
        };
        r.push(c);
        n += 1;
    }
    r
}

/// The final parent links, and which nodes are absorbed into the subgraph they name.
fn nest(b: &FlowBuild, cand: &Vec<Option<usize>>) -> (r: (Vec<Option<usize>>, Vec<bool>))
    requires
        b.subs@.len() < usize::MAX,
        cand@.len() == b.nodes@.len(),
        forall|n: int| 0 <= n < cand@.len() ==> #[trigger] cand@[n] == candidate(*b, n),
    ensures
        r.0@ == final_parents(*b),
        r.0@.len() == b.subs@.len(),
        r.1@.len() == b.nodes@.len(),
        forall|n: int| 0 <= n < r.1@.len() ==> #[trigger] r.1@[n] == absorbed(*b, n),
{
    let k = b.subs.len();
    let mut ps: Vec<Option<usize>> = Vec::new();
    let mut i: usize = 0;
    while i < k
        invariant
            k == b.subs@.len(),
            i <= k,
            ps@ =~= b.subs@.map_values(|s: SubBuild| s.parent).take(i as int),
        decreases k - i,
    {
        ps.push(b.subs[i].parent);
        i += 1;
    }
    assert(ps@ =~= nested_parents(*b, 0));
    let mut ab: Vec<bool> = Vec::new();
    let mut n: usize = 0;
    while n < b.nodes.len()
        invariant
            k == b.subs@.len(),
            k < usize::MAX,
            n <= b.nodes@.len(),
            cand@.len() == b.nodes@.len(),
            forall|j: int| 0 <= j < cand@.len() ==> #[trigger] cand@[j] == candidate(*b, j),
            ps@ == nested_parents(*b, n as int),
            ps@.len() == k,
            ab@.len() == n,
            forall|j: int| 0 <= j < n ==> #[trigger] ab@[j] == absorbed(*b, j),
        decreases b.nodes@.len() - n,
    {
        let mut hit = false;
        match cand[n] {
            Some(x) => match b.nodes[n].subgraph {
                Some(s) => {
                    if x < ps.len() && ps[x].is_none() && !meets_exec(&ps, x, Some(s)) {
                        ps.set(x, Some(s));
                    }
                    if x < ps.len() {
                        match ps[x] {
                            Some(p) => {
                                hit = p == s;
                            },
                            None => {},
                        }
                    }
                },
                None => {},
            },
            None => {},
        }
        assert(ps@ == nested_parents(*b, n + 1));
        proof {
            lemma_sub_named_below(b.subs@, b.nodes@[n as int].id@, 0);
        }
        assert(hit == absorbed(*b, n as int));
        ab.push(hit);
        n += 1;
    }
    (ps, ab)
}

fn first_member(b: &FlowBuild, cand: &Vec<Option<usize>>, ps: &Vec<Option<usize>>, s: usize) -> (r: Option<usize>)
    requires
        ps@ == final_parents(*b),
        ps@.len() < usize::MAX,
        cand@.len() == b.nodes@.len(),
        forall|n: int| 0 <= n < cand@.len() ==> #[trigger] cand@[n] == candidate(*b, n),
    ensures
        r == first_member_from(*b, s, 0),
{
    let mut m: usize = 0;
    while m < b.nodes.len()
        invariant
            m <= b.nodes@.len(),
            cand@.len() == b.nodes@.len(),
            forall|n: int| 0 <= n < cand@.len() ==> #[trigger] cand@[n] == candidate(*b, n),
            ps@ == final_parents(*b),
            ps@.len() < usize::MAX,
            first_member_from(*b, s, m as int) == first_member_from(*b, s, 0),
        decreases b.nodes@.len() - m,
    {
        if cand[m].is_none() && passes_exec(ps, s, b.nodes[m].subgraph) {
            return Some(m);
        }
        m += 1;
    }
    None
}

/// Where each node is redirected, when it stands for a subgraph with a member.
fn redirects(b: &FlowBuild, cand: &Vec<Option<usize>>, ps: &Vec<Option<usize>>) -> (r: Vec<Option<usize>>)
    requires
        ps@ == final_parents(*b),
        ps@.len() < usize::MAX,
        cand@.len() == b.nodes@.len(),
        forall|n: int| 0 <= n < cand@.len() ==> #[trigger] cand@[n] == candidate(*b, n),
    ensures
        r@.len() == b.nodes@.len(),
        forall|n: int| 0 <= n < r@.len() ==> #[trigger] r@[n] == redirect(*b, n),
{
    let mut r: Vec<Option<usize>> = Vec::new();
    let mut n: usize = 0;
    while n < b.nodes.len()
        invariant
            n <= b.nodes@.len(),
            cand@.len() == b.nodes@.len(),
            forall|j: int| 0 <= j < cand@.len() ==> #[trigger] cand@[j] == candidate(*b, j),
            ps@ == final_parents(*b),
            ps@.len() < usize::MAX,
            r@.len() == n,
            forall|j: int| 0 <= j < n ==> #[trigger] r@[j] == redirect(*b, j),
        decreases b.nodes@.len() - n,
    {
        let t = match cand[n] {
            Some(s) => first_member(b, cand, ps, s),
            None => None,
        };
        r.push(t);
        n += 1;
    }
    r
}

/// The new index of each node.
fn new_indices(b: &FlowBuild, red: &Vec<Option<usize>>, ab: &Vec<bool>) -> (r: Vec<Option<usize>>)
    requires
        red@.len() == b.nodes@.len(),
        forall|n: int| 0 <= n < red@.len() ==> #[trigger] red@[n] == redirect(*b, n),
        ab@.len() == b.nodes@.len(),
        forall|n: int| 0 <= n < ab@.len() ==> #[trigger] ab@[n] == absorbed(*b, n),
    ensures
        r@.len() == b.nodes@.len(),
        forall|n: int| 0 <= n < r@.len() ==> #[trigger] r@[n] == new_index(*b, n),
{
    let mut r: Vec<Option<usize>> = Vec::new();
    let mut cnt: usize = 0;
    let mut n: usize = 0;
    while n < b.nodes.len()
        invariant
            n <= b.nodes@.len(),
            red@.len() == b.nodes@.len(),
            forall|j: int| 0 <= j < red@.len() ==> #[trigger] red@[j] == redirect(*b, j),
            ab@.len() == b.nodes@.len(),
            forall|j: int| 0 <= j < ab@.len() ==> #[trigger] ab@[j] == absorbed(*b, j),
            cnt == kept_before(*b, n as int),
            cnt <= n,
            r@.len() == n,
            forall|j: int| 0 <= j < n ==> #[trigger] r@[j] == new_index(*b, j),
        decreases b.nodes@.len() - n,
    {
        if red[n].is_none() && !ab[n] {
            r.push(Some(cnt));
            cnt += 1;
        } else {
            r.push(None);
        }
        n += 1;
    }
    r
}

/// The clusters in their final order.
fn order_clusters(ps: &Vec<Option<usize>>) -> (r: Vec<usize>)
    requires
        ps@.len() < usize::MAX,
    ensures
        r@ == order_after(ps@, ps@.len() as int).1,
{
    let k = ps.len();
    let mut placed: Vec<bool> = Vec::new();
    let mut i: usize = 0;
    while i < k
        invariant
            k == ps@.len(),
            i <= k,
            placed@.len() == i,
            forall|q: int| 0 <= q < i ==> !#[trigger] placed@[q],
        decreases k - i,
    {
        placed.push(false);
        i += 1;
    }
    assert(placed@ =~= order_after(ps@, 0).0);
    let mut order: Vec<usize> = Vec::new();
    let mut i: usize = 0;
    while i < k
        invariant
            k == ps@.len(),
            k < usize::MAX,
            i <= k,
            placed@ == order_after(ps@, i as int).0,
            order@ == order_after(ps@, i as int).1,
            placed@.len() == k,
        decreases k - i,
    {
        let ghost pl = placed@;
        let ghost ord = order@;
        let ch = climb_exec(ps, &placed, i);
        proof {
            lemma_climb_below(ps@, placed@, Some(i), Seq::empty());
        }
        let m = ch.len();
        let mut j = m;
        assert(placed@ =~= Seq::new(k as nat, |q: int| pl[q] || ch@.subrange(j as int, m as int).contains(q as usize)));
        assert(order@ =~= ord + ch@.subrange(j as int, m as int).reverse());
        while j > 0
            invariant
                j <= m,
                m == ch@.len(),
                placed@.len() == k,
                pl.len() == k,
                forall|q: int| 0 <= q < m ==> #[trigger] ch@[q] < k,
                placed@ == Seq::new(k as nat, |q: int| pl[q] || ch@.subrange(j as int, m as int).contains(q as usize)),
                order@ == ord + ch@.subrange(j as int, m as int).reverse(),
            decreases j,
        {
            let c = ch[j - 1];
            let ghost before = placed@;
            placed.set(c, true);
            order.push(c);
            proof {
                let hi = ch@.subrange(j - 1, m as int);
                let lo = ch@.subrange(j as int, m as int);
                assert(hi =~= seq![c] + lo);
                assert forall|q: usize| hi.contains(q) <==> (q == c || lo.contains(q)) by {
                    if hi.contains(q) {
                        let w = choose|w: int| 0 <= w < hi.len() && hi[w] == q;
                        if w > 0 {
                            assert(lo[w - 1] == q);
                        }
                    }
                    if lo.contains(q) {
                        let w = choose|w: int| 0 <= w < lo.len() && lo[w] == q;
                        assert(hi[w + 1] == q);
                    }
                    if q == c {
                        assert(hi[0] == q);
                    }
                }
                assert(placed@ =~= Seq::new(k as nat, |q: int| pl[q] || hi.contains(q as usize)));
                assert(hi.reverse() =~= lo.reverse().push(c));
                assert(order@ =~= ord + hi.reverse());
            }
            j -= 1;
        }
        proof {
            assert(ch@.subrange(0, m as int) =~= ch@);
            assert(placed@ =~= place(pl, ch@));
        }
        i += 1;
    }
    order
}

/// The new index of each cluster: its last place in the order.
fn number(order: &Vec<usize>, k: usize) -> (r: Vec<usize>)
    ensures
        r@ == numbered(order@, k as nat, order@.len() as int),
        r@.len() == k,
{
    let mut r: Vec<usize> = Vec::new();
    let mut i: usize = 0;
    while i < k
        invariant
            i <= k,
            r@.len() == i,
            forall|q: int| 0 <= q < i ==> #[trigger] r@[q] == 0,
        decreases k - i,
    {
        r.push(0);
        i += 1;
    }
    assert(r@ =~= numbered(order@, k as nat, 0));
    let mut j: usize = 0;
    while j < order.len()
        invariant
            j <= order@.len(),
            r@ == numbered(order@, k as nat, j as int),
            r@.len() == k,
        decreases order@.len() - j,
    {
        let old = order[j];
        if old < k {
            r.set(old, j);
        }
        j += 1;
    }
    r
}

/// What the steps computed, as plain values, for the output pass.
struct Resolved {
    cand: Vec<Option<usize>>,
    ps: Vec<Option<usize>>,
    red: Vec<Option<usize>>,
    newi: Vec<Option<usize>>,
    order: Vec<usize>,
    nsub: Vec<usize>,
}

spec fn resolved_ok(b: FlowBuild, z: Resolved) -> bool {
    &&& b.subs@.len() < usize::MAX
    &&& z.cand@.len() == b.nodes@.len()
    &&& forall|n: int| 0 <= n < z.cand@.len() ==> #[trigger] z.cand@[n] == candidate(b, n)
    &&& z.ps@ == final_parents(b)
    &&& z.ps@.len() == b.subs@.len()
    &&& z.red@.len() == b.nodes@.len()
    &&& forall|n: int| 0 <= n < z.red@.len() ==> #[trigger] z.red@[n] == redirect(b, n)
    &&& z.newi@.len() == b.nodes@.len()
    &&& forall|n: int| 0 <= n < z.newi@.len() ==> #[trigger] z.newi@[n] == new_index(b, n)
    &&& z.order@ == cluster_order(b)
    &&& z.nsub@ == new_sub(b)
    &&& z.nsub@.len() == b.subs@.len()
}

fn renumber_exec(b: &FlowBuild, z: &Resolved, s: Option<usize>) -> (r: Option<usize>)
    requires
        resolved_ok(*b, *z),
    ensures
        r == renumber(*b, s),
{
    match s {
        Some(x) => if x < b.subs.len() {
            Some(z.nsub[x])
        } else {
            None
        },
        None => None,
    }
}

fn into_exec(b: &FlowBuild, z: &Resolved, sub: usize, other: usize) -> (r: bool)
    requires
        resolved_ok(*b, *z),
    ensures
        r == into(*b, sub as int, other as int),
{
    if sub >= b.nodes.len() {
        return false;
    }
    match z.cand[sub] {
        Some(x) => {
            let other_cand = if other < b.nodes.len() {
                z.cand[other]
            } else {
                None
            };
            let cur = if other < b.nodes.len() {
                b.nodes[other].subgraph
            } else {
                None
            };
            z.red[sub].is_some() && other_cand.is_none() && meets_exec(&z.ps, x, cur)
        },
        None => false,
    }
}

fn resolve_exec(b: &FlowBuild, z: &Resolved, n: usize) -> (r: Option<usize>)
    requires
        resolved_ok(*b, *z),
    ensures
        r == resolve(*b, n as int),
{
    let target = if n < b.nodes.len() {
        match z.red[n] {
            Some(t) => t,
            None => n,
        }
    } else {
        n
    };
    if target < b.nodes.len() {
        z.newi[target]
    } else {
        None
    }
}

fn copy_label(l: &Option<String>) -> (r: Option<String>)
    ensures
        r == *l,
{
    match l {
        Some(s) => Some(s.clone()),
        None => None,
    }
}

/// The `R005` repair of node `n`.
fn r005_of(b: &FlowBuild, idx: &LineIndex, n: usize) -> (d: Diagnostic)
    requires
        n < b.nodes@.len(),
    ensures
        r005(d, *b, idx.text().spec_bytes(), n as int),
{
    let nb = &b.nodes[n];
    let mut message = owned("node `");
    push_str(&mut message, nb.id.as_str());
    push_str(&mut message, "` is never declared; declared with its id as the label");
    let mut replacement = owned("[");
    push_str(&mut replacement, nb.id.as_str());
    push_str(&mut replacement, "]");
    let span = idx.span(nb.first_id.0, nb.first_id.1);
    let fix_span = idx.span(nb.first_id.1, nb.first_id.1);
    Diagnostic {
        severity: Severity::Repair,
        code: "R005",
        span,
        message,
        fix: Some(Fix { span: fix_span, replacement }),
    }
}

/// The resolved nodes, edges and clusters, before `class`, `:::`, `style` and `click`
/// apply, with the `R005` repairs.
fn resolve_core(b: &FlowBuild, idx: &LineIndex, diags: &mut Vec<Diagnostic>) -> (r: (
    Vec<NodeCore>,
    Vec<Edge>,
    Vec<SubBuild>,
))
    requires
        b.subs@.len() < usize::MAX,
    ensures
        final(diags)@.len() == old(diags)@.len() + undeclared(*b, b.nodes@.len() as int).len(),
        final(diags)@.take(old(diags)@.len() as int) == old(diags)@,
        forall|q: int|
            0 <= q < undeclared(*b, b.nodes@.len() as int).len() ==> r005(
                #[trigger] final(diags)@[old(diags)@.len() + q],
                *b,
                idx.text().spec_bytes(),
                undeclared(*b, b.nodes@.len() as int)[q] as int,
            ),
        r.0@ == nodes_out(*b, b.nodes@.len() as int),
        r.1@ == edges_out(*b, b.edges@.len() as int),
        r.2@ == clusters_out(*b, cluster_order(*b).len() as int),
{
    let cand = candidates(b);
    let (ps, ab) = nest(b, &cand);
    let red = redirects(b, &cand, &ps);
    let newi = new_indices(b, &red, &ab);
    let order = order_clusters(&ps);
    let nsub = number(&order, b.subs.len());
    let z = Resolved { cand, ps, red, newi, order, nsub };
    assert(resolved_ok(*b, z));

    let ghost d0 = diags@;
    let mut n: usize = 0;
    while n < b.nodes.len()
        invariant
            resolved_ok(*b, z),
            n <= b.nodes@.len(),
            diags@.len() == d0.len() + undeclared(*b, n as int).len(),
            diags@.take(d0.len() as int) == d0,
            forall|q: int|
                0 <= q < undeclared(*b, n as int).len() ==> r005(
                    #[trigger] diags@[d0.len() + q],
                    *b,
                    idx.text().spec_bytes(),
                    undeclared(*b, n as int)[q] as int,
                ),
        decreases b.nodes@.len() - n,
    {
        let ghost before = diags@;
        if !b.nodes[n].declared && z.cand[n].is_none() {
            let d = r005_of(b, idx, n);
            diags.push(d);
        }
        proof {
            let u0 = undeclared(*b, n as int);
            let u1 = undeclared(*b, n + 1);
            assert(diags@.take(d0.len() as int) =~= d0) by {
                assert forall|q: int| 0 <= q < d0.len() implies diags@[q] == d0[q] by {
                    assert(before.take(d0.len() as int)[q] == d0[q]);
                }
            }
            assert forall|q: int| 0 <= q < u1.len() implies r005(
                #[trigger] diags@[d0.len() + q],
                *b,
                idx.text().spec_bytes(),
                u1[q] as int,
            ) by {
                if q < u0.len() {
                    assert(u1[q] == u0[q]);
                    assert(diags@[d0.len() + q] == before[d0.len() + q]);
                }
            }
        }
        n += 1;
    }

    let mut nodes: Vec<NodeCore> = Vec::new();
    let mut n: usize = 0;
    while n < b.nodes.len()
        invariant
            resolved_ok(*b, z),
            n <= b.nodes@.len(),
            nodes@ == nodes_out(*b, n as int),
        decreases b.nodes@.len() - n,
    {
        if z.newi[n].is_some() {
            let nb = &b.nodes[n];
            let sg = renumber_exec(b, &z, nb.subgraph);
            nodes.push(NodeCore { id: nb.id.clone(), label: nb.label.clone(), shape: nb.shape, subgraph: sg, span: nb.span });
        }
        assert(nodes@ =~= nodes_out(*b, n + 1));
        n += 1;
    }

    let mut edges: Vec<Edge> = Vec::new();
    let mut e: usize = 0;
    while e < b.edges.len()
        invariant
            resolved_ok(*b, z),
            e <= b.edges@.len(),
            edges@ == edges_out(*b, e as int),
        decreases b.edges@.len() - e,
    {
        let ed = &b.edges[e];
        if !into_exec(b, &z, ed.from, ed.to) && !into_exec(b, &z, ed.to, ed.from) {
            let from = resolve_exec(b, &z, ed.from);
            let to = resolve_exec(b, &z, ed.to);
            if let (Some(f), Some(t)) = (from, to) {
                edges.push(
                    Edge {
                        from: f,
                        to: t,
                        label: copy_label(&ed.label),
                        stroke: ed.stroke,
                        arrow_start: ed.arrow_start,
                        arrow_end: ed.arrow_end,
                        min_len: ed.min_len,
                        span: ed.span,
                    },
                );
            }
        }
        assert(edges@ =~= edges_out(*b, e + 1));
        e += 1;
    }

    let k = b.subs.len();
    let mut used: Vec<bool> = Vec::new();
    let mut i: usize = 0;
    while i < k
        invariant
            k == b.subs@.len(),
            i <= k,
            used@.len() == i,
            forall|q: int| 0 <= q < i ==> !#[trigger] used@[q],
        decreases k - i,
    {
        used.push(false);
        i += 1;
    }
    let mut subgraphs: Vec<SubBuild> = Vec::new();
    let mut j: usize = 0;
    while j < z.order.len()
        invariant
            resolved_ok(*b, z),
            k == b.subs@.len(),
            j <= z.order@.len(),
            used@.len() == k,
            forall|q: int| 0 <= q < k ==> #[trigger] used@[q] == z.order@.take(j as int).contains(q as usize),
            subgraphs@ == clusters_out(*b, j as int),
        decreases z.order@.len() - j,
    {
        let old = z.order[j];
        let ghost ord = z.order@;
        if old < k && !used[old] {
            used.set(old, true);
            let sb = &b.subs[old];
            let parent = renumber_exec(b, &z, z.ps[old]);
            subgraphs.push(SubBuild { id: sb.id.clone(), title: sb.title.clone(), parent, direction: sb.direction, span: sb.span });
        }
        proof {
            assert(ord.take(j + 1) =~= ord.take(j as int).push(old));
            assert forall|q: int| 0 <= q < k implies #[trigger] used@[q] == ord.take(j + 1).contains(q as usize) by {
                let t0 = ord.take(j as int);
                let t1 = ord.take(j + 1);
                if t1.contains(q as usize) && !t0.contains(q as usize) {
                    let w = choose|w: int| 0 <= w < t1.len() && t1[w] == q as usize;
                    if w < t0.len() {
                        assert(t0[w] == q as usize);
                    }
                }
                if t0.contains(q as usize) {
                    let w = choose|w: int| 0 <= w < t0.len() && t0[w] == q as usize;
                    assert(t1[w] == q as usize);
                }
                if q == old as int {
                    assert(t1[j as int] == old);
                }
            }
        }
        assert(subgraphs@ =~= clusters_out(*b, j + 1));
        j += 1;
    }
    (nodes, edges, subgraphs)
}

/// The id a statement names.
pub open spec fn op_id(op: Op) -> String {
    match op {
        Op::Class { id, .. } => id,
        Op::Style { id, .. } => id,
        Op::Click { id, .. } => id,
    }
}

/// Each statement's resolved node.
spec fn targets_ok(b: FlowBuild, t: Seq<Option<usize>>) -> bool {
    &&& t.len() == b.ops@.len()
    &&& forall|k: int|
        0 <= k < t.len() ==> match #[trigger] t[k] {
            Some(i) => node_for(b, op_id(b.ops@[k])@) == Some(i as int),
            None => node_for(b, op_id(b.ops@[k])@) is None,
        }
}

fn find_node(ns: &Vec<NodeCore>, id: &str) -> (r: Option<usize>)
    ensures
        match r {
            Some(i) => last_named(ns@, id@, ns@.len() as int) == Some(i as int),
            None => last_named(ns@, id@, ns@.len() as int) is None,
        },
{
    let mut k = ns.len();
    while k > 0
        invariant
            k <= ns@.len(),
            last_named(ns@, id@, ns@.len() as int) == last_named(ns@, id@, k as int),
        decreases k,
    {
        if str_eq(ns[k - 1].id.as_str(), id) {
            return Some(k - 1);
        }
        k -= 1;
    }
    None
}

fn op_targets(b: &FlowBuild, ns: &Vec<NodeCore>) -> (r: Vec<Option<usize>>)
    requires
        ns@ == nodes_out(*b, b.nodes@.len() as int),
    ensures
        targets_ok(*b, r@),
{
    let mut t: Vec<Option<usize>> = Vec::new();
    let mut k: usize = 0;
    while k < b.ops.len()
        invariant
            ns@ == nodes_out(*b, b.nodes@.len() as int),
            k <= b.ops@.len(),
            t@.len() == k,
            forall|q: int|
                0 <= q < k ==> match #[trigger] t@[q] {
                    Some(i) => node_for(*b, op_id(b.ops@[q])@) == Some(i as int),
                    None => node_for(*b, op_id(b.ops@[q])@) is None,
                },
        decreases b.ops@.len() - k,
    {
        let id = match &b.ops[k] {
            Op::Class { id, .. } => id,
            Op::Style { id, .. } => id,
            Op::Click { id, .. } => id,
        };
        t.push(find_node(ns, id.as_str()));
        k += 1;
    }
    t
}

fn has_class(v: &Vec<String>, c: &str) -> (r: bool)
    ensures
        r == class_views(v@).contains(c@),
{
    let mut q: usize = 0;
    while q < v.len()
        invariant
            q <= v@.len(),
            forall|w: int| 0 <= w < q ==> v@[w]@ != c@,
        decreases v@.len() - q,
    {
        if str_eq(v[q].as_str(), c) {
            assert(class_views(v@)[q as int] == c@);
            return true;
        }
        q += 1;
    }
    assert forall|w: int| 0 <= w < class_views(v@).len() implies class_views(v@)[w] != c@ by {
        assert(class_views(v@)[w] == v@[w]@);
    }
    false
}

fn push_class(v: &mut Vec<String>, c: &String)
    ensures
        class_views(final(v)@) == add_class(class_views(old(v)@), c@),
{
    if !has_class(v, c.as_str()) {
        v.push(c.clone());
        assert(class_views(v@) =~= class_views(old(v)@).push(c@));
    }
}

fn classes_of(b: &FlowBuild, t: &Vec<Option<usize>>, i: usize) -> (r: Vec<String>)
    requires
        targets_ok(*b, t@),
    ensures
        class_views(r@) == node_classes(*b, b.ops@.len() as int, i as int),
{
    let mut out: Vec<String> = Vec::new();
    let mut k: usize = 0;
    assert(class_views(out@) =~= Seq::<Seq<char>>::empty());
    while k < b.ops.len()
        invariant
            targets_ok(*b, t@),
            k <= b.ops@.len(),
            class_views(out@) == node_classes(*b, k as int, i as int),
        decreases b.ops@.len() - k,
    {
        match &b.ops[k] {
            Op::Class { id, class } => {
                let hit = match t[k] {
                    Some(x) => x == i,
                    None => false,
                };
                if hit {
                    push_class(&mut out, class);
                }
            },
            _ => {},
        }
        k += 1;
    }
    out
}

fn click_link(b: &FlowBuild, t: &Vec<Option<usize>>, i: usize) -> (r: Option<Link>)
    requires
        targets_ok(*b, t@),
    ensures
        r == node_link(*b, b.ops@.len() as int, i as int),
{
    let mut cur: Option<Link> = None;
    let mut k: usize = 0;
    while k < b.ops.len()
        invariant
            targets_ok(*b, t@),
            k <= b.ops@.len(),
            cur == node_link(*b, k as int, i as int),
        decreases b.ops@.len() - k,
    {
        match &b.ops[k] {
            Op::Click { id, link } => {
                let hit = match t[k] {
                    Some(x) => x == i,
                    None => false,
                };
                if hit {
                    cur = Some(Link { url: link.url.clone(), target_blank: link.target_blank });
                }
            },
            _ => {},
        }
        k += 1;
    }
    cur
}

/// The `W010` warning of a `style` statement.
fn w010_of(id: &String, span: Span) -> (d: Diagnostic)
    ensures
        d.severity == Severity::Warning,
        d.code@ == "W010"@,
        d.span == span,
        d.message@ == "style target `"@ + id@ + "` is not a node; ignored"@,
        d.fix is None,
{
    let mut message = owned("style target `");
    push_str(&mut message, id.as_str());
    push_str(&mut message, "` is not a node; ignored");
    Diagnostic { severity: Severity::Warning, code: "W010", span, message, fix: None }
}

fn style_warnings(b: &FlowBuild, t: &Vec<Option<usize>>, diags: &mut Vec<Diagnostic>)
    requires
        targets_ok(*b, t@),
    ensures
        final(diags)@.len() == old(diags)@.len() + style_misses(*b, b.ops@.len() as int).len(),
        final(diags)@.take(old(diags)@.len() as int) == old(diags)@,
        forall|q: int|
            0 <= q < style_misses(*b, b.ops@.len() as int).len() ==> w010(
                #[trigger] final(diags)@[old(diags)@.len() + q],
                b.ops@[style_misses(*b, b.ops@.len() as int)[q]],
            ),
{
    let ghost d0 = diags@;
    let mut k: usize = 0;
    while k < b.ops.len()
        invariant
            targets_ok(*b, t@),
            k <= b.ops@.len(),
            diags@.len() == d0.len() + style_misses(*b, k as int).len(),
            diags@.take(d0.len() as int) == d0,
            forall|q: int|
                0 <= q < style_misses(*b, k as int).len() ==> w010(
                    #[trigger] diags@[d0.len() + q],
                    b.ops@[style_misses(*b, k as int)[q]],
                ),
        decreases b.ops@.len() - k,
    {
        let ghost before = diags@;
        match &b.ops[k] {
            Op::Style { id, span } => {
                if t[k].is_none() && sub_named(&b.subs, id.as_str()).is_none() {
                    let d = w010_of(id, *span);
                    diags.push(d);
                }
            },
            _ => {},
        }
        proof {
            let m0 = style_misses(*b, k as int);
            let m1 = style_misses(*b, k + 1);
            assert(diags@.take(d0.len() as int) =~= d0) by {
                assert forall|q: int| 0 <= q < d0.len() implies diags@[q] == d0[q] by {
                    assert(before.take(d0.len() as int)[q] == d0[q]);
                }
            }
            assert forall|q: int| 0 <= q < m1.len() implies w010(
                #[trigger] diags@[d0.len() + q],
                b.ops@[m1[q]],
            ) by {
                if q < m0.len() {
                    assert(m1[q] == m0[q]);
                    assert(diags@[d0.len() + q] == before[d0.len() + q]);
                }
            }
        }
        k += 1;
    }
}

fn cluster_classes_of(b: &FlowBuild, t: &Vec<Option<usize>>, cl: &Vec<SubBuild>, j: usize) -> (r: Vec<
    String,
>)
    requires
        targets_ok(*b, t@),
        cl@ == clusters_out(*b, cluster_order(*b).len() as int),
        j < cl@.len(),
    ensures
        class_views(r@) == cluster_classes(*b, j as int),
{
    let sid = cl[j].id.as_str();
    let mut q: usize = 0;
    while q < j
        invariant
            q <= j < cl@.len(),
            cl@ == clusters_out(*b, cluster_order(*b).len() as int),
            sid@ == cl@[j as int].id@,
            forall|w: int| 0 <= w < q ==> cl@[w].id@ != cl@[j as int].id@,
        decreases j - q,
    {
        if str_eq(cl[q].id.as_str(), sid) {
            assert(cl@[q as int].id@ == cl@[j as int].id@);
            let r: Vec<String> = Vec::new();
            assert(class_views(r@) =~= Seq::<Seq<char>>::empty());
            return r;
        }
        q += 1;
    }
    let named = sub_named(&b.subs, sid).is_some();
    let mut out: Vec<String> = Vec::new();
    assert(class_views(out@) =~= Seq::<Seq<char>>::empty());
    let mut k: usize = 0;
    while k < b.ops.len()
        invariant
            targets_ok(*b, t@),
            k <= b.ops@.len(),
            named == sub_for(*b, sid@),
            class_views(out@) == id_classes(*b, k as int, sid@),
        decreases b.ops@.len() - k,
    {
        match &b.ops[k] {
            Op::Class { id, class } => {
                if str_eq(id.as_str(), sid) && t[k].is_none() && named {
                    push_class(&mut out, class);
                }
            },
            _ => {},
        }
        k += 1;
    }
    out
}

/// The `W010` warning of a `linkStyle` index out of range.
fn w010_index_of(i: usize, span: Span, e: usize) -> (d: Diagnostic)
    ensures
        w010_index(d, (i, span), e as nat),
{
    let mut message = owned("linkStyle index ");
    push_decimal(&mut message, i);
    push_str(&mut message, " is out of range: the diagram has ");
    push_decimal(&mut message, e);
    push_str(&mut message, " edges; ignored");
    Diagnostic { severity: Severity::Warning, code: "W010", span, message, fix: None }
}

fn link_style_warnings(b: &FlowBuild, e: usize, diags: &mut Vec<Diagnostic>)
    ensures
        ({
            let m = out_of_range(link_style_entries(*b, b.link_styles@.len() as int), e as nat);
            &&& final(diags)@.len() == old(diags)@.len() + m.len()
            &&& final(diags)@.take(old(diags)@.len() as int) == old(diags)@
            &&& forall|q: int|
                0 <= q < m.len() ==> w010_index(#[trigger] final(diags)@[old(diags)@.len() + q], m[q], e as nat)
        }),
{
    let ghost d0 = diags@;
    let mut k: usize = 0;
    while k < b.link_styles.len()
        invariant
            k <= b.link_styles@.len(),
            ({
                let m = out_of_range(link_style_entries(*b, k as int), e as nat);
                &&& diags@.len() == d0.len() + m.len()
                &&& diags@.take(d0.len() as int) == d0
                &&& forall|q: int| 0 <= q < m.len() ==> w010_index(#[trigger] diags@[d0.len() + q], m[q], e as nat)
            }),
        decreases b.link_styles@.len() - k,
    {
        let list = &b.link_styles[k];
        let ghost base = link_style_entries(*b, k as int);
        let mut q: usize = 0;
        assert(base + list@.take(0) =~= base);
        while q < list.len()
            invariant
                q <= list@.len(),
                ({
                    let m = out_of_range(base + list@.take(q as int), e as nat);
                    &&& diags@.len() == d0.len() + m.len()
                    &&& diags@.take(d0.len() as int) == d0
                    &&& forall|w: int| 0 <= w < m.len() ==> w010_index(#[trigger] diags@[d0.len() + w], m[w], e as nat)
                }),
            decreases list@.len() - q,
        {
            let (i, span) = list[q];
            let ghost before = diags@;
            let ghost s0 = base + list@.take(q as int);
            let ghost s1 = base + list@.take(q + 1);
            assert(s1.drop_last() =~= s0);
            assert(s1.last() == (i, span));
            if i >= e {
                let d = w010_index_of(i, span, e);
                diags.push(d);
            }
            proof {
                let m0 = out_of_range(s0, e as nat);
                let m1 = out_of_range(s1, e as nat);
                assert(diags@.take(d0.len() as int) =~= d0) by {
                    assert forall|w: int| 0 <= w < d0.len() implies diags@[w] == d0[w] by {
                        assert(before.take(d0.len() as int)[w] == d0[w]);
                    }
                }
                assert forall|w: int| 0 <= w < m1.len() implies w010_index(#[trigger] diags@[d0.len() + w], m1[w], e as nat) by {
                    if w < m0.len() {
                        assert(m1[w] == m0[w]);
                        assert(diags@[d0.len() + w] == before[d0.len() + w]);
                    }
                }
            }
            q += 1;
        }
        assert(list@.take(list@.len() as int) =~= list@);
        assert(link_style_entries(*b, k + 1) == base + list@);
        k += 1;
    }
}

/// Resolves a parsed flowchart into the model.
///
/// A node that only names a subgraph stands for it: when it sits inside another
/// subgraph, the named one nests there (unless that closes a cycle) and the node goes;
/// as an edge endpoint it is redirected to the subgraph's first real member, and an edge
/// between a subgraph and one of its own members is dropped. Surviving nodes and edges
/// keep their order; clusters come out parents first, and every cluster index is
/// renumbered to match. A node only ever seen as a bare endpoint gets `R005`. Then
/// `class`, `:::` and `click` apply in source order to the node with their id (a class
/// on a subgraph id no node takes goes to that cluster), and a `style` naming neither a
/// node nor a subgraph gets `W010`. Each cluster lists its member nodes.
pub fn finish(b: &FlowBuild, idx: &LineIndex, diags: &mut Vec<Diagnostic>) -> (r: Flowchart)
    requires
        b.subs@.len() < usize::MAX,
    ensures
        ({
            let u = undeclared(*b, b.nodes@.len() as int);
            let m = style_misses(*b, b.ops@.len() as int);
            let x = link_style_misses(*b);
            let ne = edges_out(*b, b.edges@.len() as int).len();
            let d = final(diags)@;
            let o = old(diags)@;
            &&& d.len() == o.len() + u.len() + m.len() + x.len()
            &&& d.take(o.len() as int) == o
            &&& forall|q: int|
                0 <= q < u.len() ==> r005(#[trigger] d[o.len() + q], *b, idx.text().spec_bytes(), u[q] as int)
            &&& forall|q: int| 0 <= q < m.len() ==> w010(#[trigger] d[o.len() + u.len() + q], b.ops@[m[q]])
            &&& forall|q: int|
                0 <= q < x.len() ==> w010_index(#[trigger] d[o.len() + u.len() + m.len() + q], x[q], ne)
        }),
        ({
            let ns = nodes_out(*b, b.nodes@.len() as int);
            &&& r.nodes@.len() == ns.len()
            &&& forall|i: int|
                0 <= i < ns.len() ==> {
                    &&& (#[trigger] r.nodes@[i]).id == ns[i].id
                    &&& r.nodes@[i].label == ns[i].label
                    &&& r.nodes@[i].subgraph == ns[i].subgraph
                    &&& r.nodes@[i].shape == ns[i].shape
                    &&& r.nodes@[i].span == ns[i].span
                    &&& class_views(r.nodes@[i].classes@) == node_classes(*b, b.ops@.len() as int, i)
                    &&& r.nodes@[i].link == node_link(*b, b.ops@.len() as int, i)
                }
        }),
        r.edges@ == edges_out(*b, b.edges@.len() as int),
        ({
            let cl = clusters_out(*b, cluster_order(*b).len() as int);
            &&& r.subgraphs@.len() == cl.len()
            &&& forall|j: int|
                0 <= j < cl.len() ==> {
                    &&& (#[trigger] r.subgraphs@[j]).id == cl[j].id
                    &&& r.subgraphs@[j].title == cl[j].title
                    &&& r.subgraphs@[j].parent == cl[j].parent
                    &&& r.subgraphs@[j].direction == cl[j].direction
                    &&& r.subgraphs@[j].span == cl[j].span
                    &&& r.subgraphs@[j].nodes@ == members_of(node_homes(*b), cl.len() as nat, Some(j as usize))
                    &&& class_views(r.subgraphs@[j].classes@) == cluster_classes(*b, j)
                }
        }),
{
    let ghost o = diags@;
    let (cores, edges, cl) = resolve_core(b, idx, diags);
    let ghost d1 = diags@;
    let t = op_targets(b, &cores);
    style_warnings(b, &t, diags);
    proof {
        let u = undeclared(*b, b.nodes@.len() as int);
        let d = diags@;
        assert(d.take(o.len() as int) =~= o) by {
            assert forall|q: int| 0 <= q < o.len() implies d[q] == o[q] by {
                assert(d.take(d1.len() as int)[q] == d1[q]);
                assert(d1.take(o.len() as int)[q] == o[q]);
            }
        }
        assert forall|q: int| 0 <= q < u.len() implies r005(#[trigger] d[o.len() + q], *b, idx.text().spec_bytes(), u[q] as int) by {
            assert(d.take(d1.len() as int)[o.len() + q] == d1[o.len() + q]);
        }
    }
    let ghost d2 = diags@;
    link_style_warnings(b, edges.len(), diags);
    proof {
        let u = undeclared(*b, b.nodes@.len() as int);
        let m = style_misses(*b, b.ops@.len() as int);
        let d = diags@;
        assert(d.take(o.len() as int) =~= o) by {
            assert forall|q: int| 0 <= q < o.len() implies d[q] == o[q] by {
                assert(d.take(d2.len() as int)[q] == d2[q]);
                assert(d2.take(o.len() as int)[q] == o[q]);
            }
        }
        assert forall|q: int| 0 <= q < u.len() implies r005(#[trigger] d[o.len() + q], *b, idx.text().spec_bytes(), u[q] as int) by {
            assert(d.take(d2.len() as int)[o.len() + q] == d2[o.len() + q]);
        }
        assert forall|q: int| 0 <= q < m.len() implies w010(#[trigger] d[o.len() + u.len() + q], b.ops@[m[q]]) by {
            assert(d.take(d2.len() as int)[o.len() + u.len() + q] == d2[o.len() + u.len() + q]);
        }
    }

    let mut nodes: Vec<Node> = Vec::new();
    let mut homes: Vec<Option<usize>> = Vec::new();
    let mut i: usize = 0;
    while i < cores.len()
        invariant
            cores@ == nodes_out(*b, b.nodes@.len() as int),
            targets_ok(*b, t@),
            i <= cores@.len(),
            nodes@.len() == i,
            homes@ == node_homes(*b).take(i as int),
            forall|w: int|
                0 <= w < i ==> {
                    &&& (#[trigger] nodes@[w]).id == cores@[w].id
                    &&& nodes@[w].label == cores@[w].label
                    &&& nodes@[w].subgraph == cores@[w].subgraph
                    &&& nodes@[w].shape == cores@[w].shape
                    &&& nodes@[w].span == cores@[w].span
                    &&& class_views(nodes@[w].classes@) == node_classes(*b, b.ops@.len() as int, w)
                    &&& nodes@[w].link == node_link(*b, b.ops@.len() as int, w)
                },
        decreases cores@.len() - i,
    {
        let c = &cores[i];
        let classes = classes_of(b, &t, i);
        let link = click_link(b, &t, i);
        nodes.push(
            Node {
                id: c.id.clone(),
                label: c.label.clone(),
                shape: c.shape,
                subgraph: c.subgraph,
                classes,
                link,
                span: c.span,
            },
        );
        homes.push(c.subgraph);
        assert(homes@ =~= node_homes(*b).take(i + 1));
        i += 1;
    }
    assert(homes@ =~= node_homes(*b));
    let (members, _) = group(homes.as_slice(), cl.len());

    let mut subgraphs: Vec<Subgraph> = Vec::new();
    let mut j: usize = 0;
    while j < cl.len()
        invariant
            cl@ == clusters_out(*b, cluster_order(*b).len() as int),
            targets_ok(*b, t@),
            homes@ == node_homes(*b),
            members@.len() == cl@.len(),
            forall|c: int| 0 <= c < cl@.len() ==> (#[trigger] members@[c])@ == members_of(homes@, cl@.len() as nat, Some(c as usize)),
            j <= cl@.len(),
            subgraphs@.len() == j,
            forall|w: int|
                0 <= w < j ==> {
                    &&& (#[trigger] subgraphs@[w]).id == cl@[w].id
                    &&& subgraphs@[w].title == cl@[w].title
                    &&& subgraphs@[w].parent == cl@[w].parent
                    &&& subgraphs@[w].direction == cl@[w].direction
                    &&& subgraphs@[w].span == cl@[w].span
                    &&& subgraphs@[w].nodes@ == members_of(node_homes(*b), cl@.len() as nat, Some(w as usize))
                    &&& class_views(subgraphs@[w].classes@) == cluster_classes(*b, w)
                },
        decreases cl@.len() - j,
    {
        let sb = &cl[j];
        let classes = cluster_classes_of(b, &t, &cl, j);
        let mut list: Vec<usize> = Vec::new();
        let mine = &members[j];
        let mut q: usize = 0;
        while q < mine.len()
            invariant
                q <= mine@.len(),
                list@ == mine@.take(q as int),
            decreases mine@.len() - q,
        {
            list.push(mine[q]);
            assert(list@ =~= mine@.take(q + 1));
            q += 1;
        }
        assert(list@ =~= mine@);
        subgraphs.push(
            Subgraph {
                id: sb.id.clone(),
                title: sb.title.clone(),
                parent: sb.parent,
                nodes: list,
                direction: sb.direction,
                classes,
                span: sb.span,
            },
        );
        j += 1;
    }
    Flowchart { nodes, edges, subgraphs }
}

// ---------------------------------------------------------------------------------------
// Laws
// ---------------------------------------------------------------------------------------

proof fn lemma_nodes_out_len(b: FlowBuild, k: int)
    requires
        0 <= k <= b.nodes@.len(),
    ensures
        nodes_out(b, k).len() == kept_before(b, k),
    decreases k,
{
    if k > 0 {
        lemma_nodes_out_len(b, k - 1);
    }
}

proof fn lemma_kept_grows(b: FlowBuild, j: int, k: int)
    requires
        0 <= j <= k,
    ensures
        kept_before(b, j) <= kept_before(b, k),
    decreases k - j,
{
    if j < k {
        lemma_kept_grows(b, j, k - 1);
    }
}

proof fn lemma_new_index_below(b: FlowBuild, n: int)
    ensures
        new_index(b, n) matches Some(v) ==> v < kept_before(b, b.nodes@.len() as int),
{
    if new_index(b, n) is Some {
        lemma_kept_grows(b, n + 1, b.nodes@.len() as int);
    }
}

proof fn lemma_edges_out_join(b: FlowBuild, k: int)
    requires
        0 <= k <= b.edges@.len(),
    ensures
        forall|q: int|
            0 <= q < edges_out(b, k).len() ==> (#[trigger] edges_out(b, k)[q]).from < kept_before(
                b,
                b.nodes@.len() as int,
            ) && edges_out(b, k)[q].to < kept_before(b, b.nodes@.len() as int),
    decreases k,
{
    if k > 0 {
        lemma_edges_out_join(b, k - 1);
        let e = b.edges@[k - 1];
        let f = match redirect(b, e.from as int) {
            Some(r) => r as int,
            None => e.from as int,
        };
        let t = match redirect(b, e.to as int) {
            Some(r) => r as int,
            None => e.to as int,
        };
        lemma_new_index_below(b, f);
        lemma_new_index_below(b, t);
        let prev = edges_out(b, k - 1);
        let cur = edges_out(b, k);
        assert forall|q: int| 0 <= q < cur.len() implies (#[trigger] cur[q]).from < kept_before(
            b,
            b.nodes@.len() as int,
        ) && cur[q].to < kept_before(b, b.nodes@.len() as int) by {
            if q < prev.len() {
                assert(cur[q] == prev[q]);
            }
        }
    }
}

/// Every edge of the resolved flowchart joins two of its nodes.
pub proof fn lemma_finish_edges_join_nodes(b: FlowBuild, q: int)
    requires
        0 <= q < edges_out(b, b.edges@.len() as int).len(),
    ensures
        edges_out(b, b.edges@.len() as int)[q].from < nodes_out(b, b.nodes@.len() as int).len(),
        edges_out(b, b.edges@.len() as int)[q].to < nodes_out(b, b.nodes@.len() as int).len(),
{
    lemma_edges_out_join(b, b.edges@.len() as int);
    lemma_nodes_out_len(b, b.nodes@.len() as int);
}

proof fn lemma_climb_fresh(ps: Seq<Option<usize>>, pl: Seq<bool>, cur: Option<usize>, chain: Seq<usize>)
    requires
        forall|q: int| 0 <= q < chain.len() ==> #[trigger] chain[q] < pl.len() && !pl[chain[q] as int],
        chain.no_duplicates(),
        chain.len() <= ps.len() + 1,
    ensures
        ({
            let r = climb(ps, pl, cur, chain);
            &&& forall|q: int| 0 <= q < r.len() ==> #[trigger] r[q] < pl.len() && !pl[r[q] as int]
            &&& r.no_duplicates()
            &&& r.len() >= chain.len()
            &&& forall|q: int| 0 <= q < chain.len() ==> r[q] == #[trigger] chain[q]
        }),
    decreases ps.len() + 2 - chain.len(),
{
    match cur {
        None => {},
        Some(c) => {
            if !(c < pl.len() && !pl[c as int]) || chain.contains(c) || chain.len() > ps.len() {
            } else {
                let nc = chain.push(c);
                assert forall|q: int| 0 <= q < nc.len() implies #[trigger] nc[q] < pl.len() && !pl[nc[q] as int] by {
                    if q < chain.len() {
                        assert(nc[q] == chain[q]);
                    }
                }
                assert forall|x: int, y: int| 0 <= x < nc.len() && 0 <= y < nc.len() && x != y implies nc[x] != nc[y] by {
                    if x < chain.len() && y < chain.len() {
                        assert(nc[x] == chain[x] && nc[y] == chain[y]);
                    } else if x < chain.len() {
                        assert(nc[x] == chain[x]);
                        assert(chain.contains(chain[x]));
                    } else if y < chain.len() {
                        assert(nc[y] == chain[y]);
                        assert(chain.contains(chain[y]));
                    }
                }
                lemma_climb_fresh(ps, pl, link_of(ps, c), nc);
                let r = climb(ps, pl, link_of(ps, c), nc);
                assert forall|q: int| 0 <= q < chain.len() implies r[q] == #[trigger] chain[q] by {
                    assert(nc[q] == chain[q]);
                }
            }
        },
    }
}

/// The state after `i` clusters: no cluster twice, placed exactly when listed, and the
/// first `i` clusters all placed.
proof fn lemma_order_after(ps: Seq<Option<usize>>, i: int)
    requires
        0 <= i <= ps.len(),
    ensures
        ({
            let (pl, ord) = order_after(ps, i);
            &&& pl.len() == ps.len()
            &&& ord.no_duplicates()
            &&& forall|q: int| 0 <= q < ord.len() ==> #[trigger] ord[q] < ps.len()
            &&& forall|c: int| 0 <= c < ps.len() ==> #[trigger] pl[c] == ord.contains(c as usize)
            &&& forall|j: int| 0 <= j < i ==> #[trigger] pl[j]
        }),
    decreases i,
{
    if i > 0 {
        lemma_order_after(ps, i - 1);
        let (pl, ord) = order_after(ps, i - 1);
        let ch = climb(ps, pl, Some((i - 1) as usize), Seq::empty());
        lemma_climb_fresh(ps, pl, Some((i - 1) as usize), Seq::empty());
        let rc = ch.reverse();
        let npl = place(pl, ch);
        let nord = ord + rc;
        assert(order_after(ps, i) == (npl, nord));
        assert forall|q: int| 0 <= q < rc.len() implies #[trigger] rc[q] == ch[ch.len() - 1 - q] by {}
        assert forall|x: int, y: int| 0 <= x < nord.len() && 0 <= y < nord.len() && x != y implies nord[x] != nord[y] by {
            if x >= ord.len() && y >= ord.len() {
                assert(rc[x - ord.len()] == ch[ch.len() - 1 - (x - ord.len())]);
                assert(rc[y - ord.len()] == ch[ch.len() - 1 - (y - ord.len())]);
            } else if x >= ord.len() {
                let w = ch.len() - 1 - (x - ord.len());
                assert(nord[x] == ch[w]);
                assert(!pl[ch[w] as int]);
                assert(ord.contains(nord[y]));
                assert(pl[nord[y] as int]);
            } else if y >= ord.len() {
                let w = ch.len() - 1 - (y - ord.len());
                assert(nord[y] == ch[w]);
                assert(!pl[ch[w] as int]);
                assert(ord.contains(nord[x]));
                assert(pl[nord[x] as int]);
            }
        }
        assert forall|q: int| 0 <= q < nord.len() implies #[trigger] nord[q] < ps.len() by {
            if q >= ord.len() {
                assert(rc[q - ord.len()] == ch[ch.len() - 1 - (q - ord.len())]);
            }
        }
        assert forall|c: int| 0 <= c < ps.len() implies #[trigger] npl[c] == nord.contains(c as usize) by {
            if ch.contains(c as usize) {
                let w = choose|w: int| 0 <= w < ch.len() && ch[w] == c as usize;
                assert(nord[ord.len() + (ch.len() - 1 - w)] == c as usize);
            }
            if ord.contains(c as usize) {
                let w = choose|w: int| 0 <= w < ord.len() && ord[w] == c as usize;
                assert(nord[w] == c as usize);
            }
            if nord.contains(c as usize) {
                let w = choose|w: int| 0 <= w < nord.len() && nord[w] == c as usize;
                if w < ord.len() {
                    assert(ord[w] == c as usize);
                    assert(ord.contains(c as usize));
                } else {
                    assert(ch[ch.len() - 1 - (w - ord.len())] == c as usize);
                    assert(ch.contains(c as usize));
                }
            }
        }
        assert forall|j: int| 0 <= j < i implies #[trigger] npl[j] by {
            if j == i - 1 && !pl[j] {
                let one = seq![(i - 1) as usize];
                assert(one.no_duplicates());
                lemma_climb_fresh(ps, pl, link_of(ps, (i - 1) as usize), one);
                assert(!Seq::<usize>::empty().contains((i - 1) as usize));
                assert(Seq::<usize>::empty().push((i - 1) as usize) =~= one);
                assert(ch == climb(ps, pl, link_of(ps, (i - 1) as usize), one));
                assert(ch.len() >= 1);
                assert(one[0] == (i - 1) as usize);
                assert(ch[0] == (i - 1) as usize);
                assert(ch.contains((i - 1) as usize));
            }
        }
    }
}

/// The clusters of the first `j` places of a duplicate-free order are those places'.
proof fn lemma_clusters_out_map(b: FlowBuild, j: int)
    requires
        0 <= j <= cluster_order(b).len(),
        cluster_order(b).no_duplicates(),
        forall|q: int| 0 <= q < cluster_order(b).len() ==> #[trigger] cluster_order(b)[q] < b.subs@.len(),
    ensures
        clusters_out(b, j).len() == j,
        forall|q: int|
            0 <= q < j ==> (#[trigger] clusters_out(b, j)[q]).id == b.subs@[cluster_order(b)[q] as int].id
                && clusters_out(b, j)[q].title == b.subs@[cluster_order(b)[q] as int].title
                && clusters_out(b, j)[q].parent == renumber(b, final_parents(b)[cluster_order(b)[q] as int]),
    decreases j,
{
    if j > 0 {
        lemma_clusters_out_map(b, j - 1);
        let ord = cluster_order(b);
        let old = ord[j - 1];
        let before = ord.take(j - 1);
        assert(!before.contains(old)) by {
            if before.contains(old) {
                let w = choose|w: int| 0 <= w < before.len() && #[trigger] before[w] == old;
                assert(ord[w] == ord[j - 1]);
            }
        }
        let prev = clusters_out(b, j - 1);
        let cur = clusters_out(b, j);
        assert forall|q: int| 0 <= q < j implies (#[trigger] cur[q]).id == b.subs@[ord[q] as int].id
            && cur[q].title == b.subs@[ord[q] as int].title && cur[q].parent == renumber(b, final_parents(b)[ord[q] as int]) by {
            if q < j - 1 {
                assert(cur[q] == prev[q]);
            }
        }
    }
}

/// Resolving keeps every cluster exactly once: the final order lists each cluster of the
/// build once, and the resolved clusters follow it.
pub proof fn lemma_finish_keeps_every_cluster(b: FlowBuild)
    requires
        b.subs@.len() <= usize::MAX,
    ensures
        cluster_order(b).len() == b.subs@.len(),
        cluster_order(b).no_duplicates(),
        forall|c: usize| c < b.subs@.len() ==> #[trigger] cluster_order(b).contains(c),
        clusters_out(b, cluster_order(b).len() as int).len() == b.subs@.len(),
        forall|q: int|
            0 <= q < b.subs@.len() ==> (#[trigger] clusters_out(b, cluster_order(b).len() as int)[q]).id
                == b.subs@[cluster_order(b)[q] as int].id && clusters_out(
                b,
                cluster_order(b).len() as int,
            )[q].title == b.subs@[cluster_order(b)[q] as int].title,
{
    let ps = final_parents(b);
    let k = b.subs@.len();
    lemma_final_parents_len(b, b.nodes@.len() as int);
    lemma_order_after(ps, k as int);
    let ord = cluster_order(b);
    let (pl, _) = order_after(ps, k as int);
    assert forall|c: usize| c < k implies #[trigger] ord.contains(c) by {
        assert(pl[c as int]);
    }
    let m = ord.map_values(|x: usize| x as int);
    assert forall|x: int, y: int| 0 <= x < m.len() && 0 <= y < m.len() && x != y implies m[x] != m[y] by {
        assert(ord[x] != ord[y]);
    }
    assert(m.no_duplicates());
    assert forall|v: int| m.to_set().contains(v) <==> vstd::set_lib::set_int_range(0, k as int).contains(v) by {
        if m.contains(v) {
            let w = choose|w: int| 0 <= w < m.len() && m[w] == v;
            assert(ord[w] < k);
        }
        if 0 <= v < k {
            assert(ord.contains(v as usize));
            let w = choose|w: int| 0 <= w < ord.len() && ord[w] == v as usize;
            assert((v as usize) as int == v);
            assert(m[w] == ord[w] as int);
        }
    }
    assert(m.to_set() =~= vstd::set_lib::set_int_range(0, k as int));
    m.unique_seq_to_set();
    vstd::set_lib::lemma_int_range(0, k as int);
    lemma_clusters_out_map(b, ord.len() as int);
}

proof fn lemma_final_parents_len(b: FlowBuild, k: int)
    ensures
        nested_parents(b, k).len() == b.subs@.len(),
    decreases k,
{
    if k > 0 {
        lemma_final_parents_len(b, k - 1);
    }
}

/// The shape of a climb: each cluster's link is the next, and the climb stops where the
/// last one's link is absent, past the clusters, placed, already met, or over the bound.
proof fn lemma_climb_shape(ps: Seq<Option<usize>>, pl: Seq<bool>, cur: Option<usize>, chain: Seq<usize>)
    requires
        forall|t: int| 0 <= t < chain.len() - 1 ==> link_of(ps, #[trigger] chain[t]) == Some(chain[t + 1]),
        chain.len() > 0 ==> cur == link_of(ps, chain[chain.len() - 1]),
        chain.len() <= ps.len() + 1,
    ensures
        ({
            let r = climb(ps, pl, cur, chain);
            &&& r.len() >= chain.len()
            &&& forall|t: int| 0 <= t < r.len() - 1 ==> link_of(ps, #[trigger] r[t]) == Some(r[t + 1])
            &&& r.len() > 0 ==> match link_of(ps, r[r.len() - 1]) {
                Some(p) => !(p < pl.len() && !pl[p as int]) || r.contains(p) || r.len() > ps.len(),
                None => true,
            }
        }),
        chain.len() == 0 ==> match cur {
            Some(c) => !(c < pl.len() && !pl[c as int]) || climb(ps, pl, cur, chain).len() > 0,
            None => true,
        },
    decreases ps.len() + 2 - chain.len(),
{
    match cur {
        None => {},
        Some(c) => {
            if !(c < pl.len() && !pl[c as int]) || chain.contains(c) || chain.len() > ps.len() {
            } else {
                let nc = chain.push(c);
                assert forall|t: int| 0 <= t < nc.len() - 1 implies link_of(ps, #[trigger] nc[t]) == Some(nc[t + 1]) by {
                    assert(nc[t] == chain[t]);
                    if t < chain.len() - 1 {
                        assert(nc[t + 1] == chain[t + 1]);
                    }
                }
                lemma_climb_shape(ps, pl, link_of(ps, c), nc);
            }
        },
    }
}

/// Along a climb whose clusters all link inside the clusters, the `t`-th is `t` links up.
proof fn lemma_climb_is_up(ps: Seq<Option<usize>>, ch: Seq<usize>, t: int)
    requires
        0 <= t < ch.len(),
        forall|q: int| 0 <= q < ch.len() ==> #[trigger] ch[q] < ps.len(),
        forall|q: int| 0 <= q < ch.len() - 1 ==> link_of(ps, #[trigger] ch[q]) == Some(ch[q + 1]),
    ensures
        up(ps, ch[0], t as nat) == Some(ch[t]),
    decreases t,
{
    if t > 0 {
        lemma_climb_is_up(ps, ch, t - 1);
        assert(link_of(ps, ch[t - 1]) == Some(ch[t]));
        assert(step_up(ps, ch[t - 1]) == Some(ch[t]));
    }
}

/// Every cluster's parent, when it is a cluster, comes earlier in the order.
spec fn parents_earlier(ps: Seq<Option<usize>>, ord: Seq<usize>) -> bool {
    forall|x: int|
        0 <= x < ord.len() ==> match link_of(ps, #[trigger] ord[x]) {
            Some(p) => p < ps.len() ==> exists|y: int| 0 <= y < x && ord[y] == p,
            None => true,
        }
}

proof fn lemma_order_parents_first(ps: Seq<Option<usize>>, i: int)
    requires
        0 <= i <= ps.len(),
        acyclic(ps),
        ps.len() <= usize::MAX,
    ensures
        parents_earlier(ps, order_after(ps, i).1),
    decreases i,
{
    if i > 0 {
        lemma_order_parents_first(ps, i - 1);
        lemma_order_after(ps, i - 1);
        let (pl, ord) = order_after(ps, i - 1);
        let start = (i - 1) as usize;
        let ch = climb(ps, pl, Some(start), Seq::empty());
        lemma_climb_fresh(ps, pl, Some(start), Seq::empty());
        lemma_climb_shape(ps, pl, Some(start), Seq::empty());
        let m = ch.len();
        let rc = ch.reverse();
        let nord = ord + rc;
        assert(order_after(ps, i).1 == nord);
        assert forall|x: int| 0 <= x < nord.len() implies match link_of(ps, #[trigger] nord[x]) {
            Some(p) => p < ps.len() ==> exists|y: int| 0 <= y < x && nord[y] == p,
            None => true,
        } by {
            if x < ord.len() {
                assert(nord[x] == ord[x]);
                if let Some(p) = link_of(ps, ord[x]) {
                    if p < ps.len() {
                        let y = choose|y: int| 0 <= y < x && ord[y] == p;
                        assert(nord[y] == p);
                    }
                }
            } else {
                let z = x - ord.len();
                let t = m - 1 - z;
                assert(rc[z] == ch[t]);
                assert(nord[x] == ch[t]);
                if let Some(p) = link_of(ps, ch[t]) {
                    if p < ps.len() {
                        if t < m - 1 {
                            assert(link_of(ps, ch[t]) == Some(ch[t + 1]));
                            assert(rc[z - 1] == ch[t + 1]);
                            assert(nord[x - 1] == p);
                        } else {
                            // The last cluster of the climb: its parent is placed, since a
                            // repeat or an overlong climb would be a cycle.
                            assert(ch[0] == start) by {
                                assert(!pl[start as int]);
                                let one = seq![start];
                                lemma_climb_fresh(ps, pl, link_of(ps, start), one);
                                assert(Seq::<usize>::empty().push(start) =~= one);
                                assert(one[0] == start);
                            }
                            lemma_climb_is_up(ps, ch, t);
                            assert(step_up(ps, ch[t]) == Some(p));
                            assert(up(ps, start, (t + 1) as nat) == Some(p));
                            if ch.contains(p) {
                                let u = choose|u: int| 0 <= u < ch.len() && ch[u] == p;
                                lemma_climb_is_up(ps, ch, u);
                                lemma_up_no_repeat(ps, start, u as nat, (t + 1) as nat);
                            }
                            if m > ps.len() {
                                lemma_climb_is_up(ps, ch, ps.len() as int);
                                assert(up(ps, start, ps.len() as nat) is None);
                            }
                            assert(pl[p as int]);
                            assert(ord.contains(p));
                            let y = choose|y: int| 0 <= y < ord.len() && ord[y] == p;
                            assert(nord[y] == p);
                        }
                    }
                }
            }
        }
    }
}

/// In a duplicate-free order, the new index of a listed cluster is its place.
proof fn lemma_numbered_place(ord: Seq<usize>, k: nat, j: int, y: int)
    requires
        0 <= y < j <= ord.len(),
        j <= usize::MAX,
        ord.no_duplicates(),
        forall|q: int| 0 <= q < ord.len() ==> #[trigger] ord[q] < k,
    ensures
        numbered(ord, k, j)[ord[y] as int] == y,
        numbered(ord, k, j).len() == k,
    decreases j,
{
    lemma_numbered_len(ord, k, j);
    lemma_numbered_len(ord, k, j - 1);
    let prev = numbered(ord, k, j - 1);
    assert(ord[j - 1] < k);
    assert(numbered(ord, k, j) == prev.update(ord[j - 1] as int, (j - 1) as usize));
    if y < j - 1 {
        lemma_numbered_place(ord, k, j - 1, y);
        assert(ord[j - 1] != ord[y]);
    }
}

proof fn lemma_numbered_len(ord: Seq<usize>, k: nat, j: int)
    ensures
        numbered(ord, k, j).len() == k,
    decreases j,
{
    if j > 0 {
        lemma_numbered_len(ord, k, j - 1);
    }
}

/// When the final parent links hold no cycle, resolving puts every cluster after its
/// parent.
pub proof fn lemma_finish_parents_first(b: FlowBuild, q: int)
    requires
        acyclic(final_parents(b)),
        b.subs@.len() <= usize::MAX,
        0 <= q < clusters_out(b, cluster_order(b).len() as int).len(),
    ensures
        clusters_out(b, cluster_order(b).len() as int)[q].parent matches Some(p) ==> p < q,
{
    let ps = final_parents(b);
    let k = b.subs@.len();
    lemma_final_parents_len(b, b.nodes@.len() as int);
    lemma_finish_keeps_every_cluster(b);
    lemma_order_after(ps, k as int);
    let ord = cluster_order(b);
    lemma_clusters_out_map(b, ord.len() as int);
    lemma_order_parents_first(ps, k as int);
    let c = ord[q];
    assert(link_of(ps, c) == ps[c as int]);
    if let Some(par) = ps[c as int] {
        if par < k {
            let y = choose|y: int| 0 <= y < q && ord[y] == par;
            lemma_numbered_place(ord, k as nat, ord.len() as int, y);
        }
    }
}

} // verus!
