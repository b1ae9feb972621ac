//! Cluster tree and draw order.
//!
//! Each cluster is a `<g class="merlion-cluster">` holding, in order,
//!
//! 1. its box and title,
//! 2. its child clusters (recursively, same order),
//! 3. the edges whose endpoints' lowest common cluster is this one,
//! 4. its direct member nodes.
//!
//! The root level follows the same order: top-level clusters, root edges, root nodes.
//! So a cluster box is always under the edges and nodes inside it, an edge is under the
//! nodes of its own cluster, and an edge between two sibling clusters is drawn above
//! both boxes.
//!
//! The draw stage never relies on a parent preceding its children: a parent index that
//! is out of range or on a cycle makes the cluster top-level, and the tree is walked
//! with an explicit stack, so no input recurses or loops forever.

use vstd::prelude::*;

verus! {

// ---------------------------------------------------------------------------------------
// Effective parents
// ---------------------------------------------------------------------------------------

/// The parent link of cluster `x` once a link out of range or to itself is dropped.
pub open spec fn raw_link(parents: Seq<Option<usize>>, x: int) -> Option<usize> {
    match parents[x] {
        Some(p) => if p < parents.len() && p != x {
            Some(p)
        } else {
            None
        },
        None => None,
    }
}

/// Following the links from `x`, a top-level cluster is met within `k` steps without
/// coming back to `i`.
pub open spec fn escapes(parents: Seq<Option<usize>>, i: int, x: int, k: nat) -> bool
    decreases k,
{
    k > 0 && match raw_link(parents, x) {
        None => true,
        Some(q) => q != i && escapes(parents, i, q as int, (k - 1) as nat),
    }
}

/// The effective parent of cluster `i`: its link, kept only when the chain of links
/// from `i` reaches a top-level cluster rather than a cycle.
pub open spec fn effective_parent(parents: Seq<Option<usize>>, i: int) -> Option<usize> {
    if escapes(parents, i, i, parents.len()) {
        raw_link(parents, i)
    } else {
        None
    }
}

/// The effective parent of every cluster.
pub open spec fn effective_links(parents: Seq<Option<usize>>) -> Seq<Option<usize>> {
    Seq::new(parents.len(), |i: int| effective_parent(parents, i))
}

/// Following `links` from `x`, a top-level cluster is met within `k` steps.
pub open spec fn reaches_top(links: Seq<Option<usize>>, x: int, k: nat) -> bool
    decreases k,
{
    k > 0 && match links[x] {
        None => true,
        Some(p) => p < links.len() && reaches_top(links, p as int, (k - 1) as nat),
    }
}

/// Following the declared links from `x`, a top-level cluster is met within `k` steps.
pub open spec fn declared_reach(parents: Seq<Option<usize>>, x: int, k: nat) -> bool
    decreases k,
{
    k > 0 && match raw_link(parents, x) {
        None => true,
        Some(q) => declared_reach(parents, q as int, (k - 1) as nat),
    }
}

proof fn lemma_escapes_reach(parents: Seq<Option<usize>>, i: int, x: int, k: nat)
    requires
        escapes(parents, i, x, k),
    ensures
        declared_reach(parents, x, k),
    decreases k,
{
    if let Some(q) = raw_link(parents, x) {
        lemma_escapes_reach(parents, i, q as int, (k - 1) as nat);
    }
}

proof fn lemma_reach_effective(parents: Seq<Option<usize>>, x: int, k: nat)
    requires
        0 <= x < parents.len(),
        declared_reach(parents, x, k),
    ensures
        reaches_top(effective_links(parents), x, k),
    decreases k,
{
    let eff = effective_links(parents);
    if let Some(q) = raw_link(parents, x) {
        lemma_reach_effective(parents, q as int, (k - 1) as nat);
    }
}

/// Every effective link is the declared one or none, and a declared link survives only
/// when it is in range and not to the cluster itself.
pub proof fn lemma_effective_link_is_declared(parents: Seq<Option<usize>>, i: int)
    requires
        0 <= i < parents.len(),
    ensures
        effective_links(parents)[i] is None || (effective_links(parents)[i] == parents[i]
            && parents[i]->0 < parents.len() && parents[i]->0 != i),
{
}

/// Following the effective parent links from any cluster reaches a top-level cluster
/// within as many steps as there are clusters: the effective links hold no cycle.
pub proof fn lemma_effective_links_acyclic(parents: Seq<Option<usize>>, i: int)
    requires
        0 <= i < parents.len(),
    ensures
        reaches_top(effective_links(parents), i, parents.len()),
{
    let eff = effective_links(parents);
    if escapes(parents, i, i, parents.len()) {
        lemma_escapes_reach(parents, i, i, parents.len());
        lemma_reach_effective(parents, i, parents.len());
    } else {
        assert(eff[i] is None);
    }
}

/// Parent of every subgraph after dropping invalid and cyclic links. `parents[i]` is
/// the parent link subgraph `i` was declared with.
pub fn effective_parents(parents: &[Option<usize>]) -> (r: Vec<Option<usize>>)
    ensures
        r@ == effective_links(parents@),
{
    let n = parents.len();
    let mut raw: Vec<Option<usize>> = Vec::new();
    let mut i: usize = 0;
    while i < n
        invariant
            n == parents@.len(),
            i <= n,
            raw@.len() == i,
            forall|k: int| 0 <= k < i ==> #[trigger] raw@[k] == raw_link(parents@, k),
        decreases n - i,
    {
        let link = match parents[i] {
            Some(p) => if p < n && p != i {
                Some(p)
            } else {
                None
            },
            None => None,
        };
        raw.push(link);
        i += 1;
    }
    let mut out: Vec<Option<usize>> = Vec::new();
    let mut i: usize = 0;
    while i < n
        invariant
            n == parents@.len(),
            i <= n,
            raw@.len() == n,
            forall|k: int| 0 <= k < n ==> #[trigger] raw@[k] == raw_link(parents@, k),
            out@.len() == i,
            forall|k: int| 0 <= k < i ==> #[trigger] out@[k] == effective_parent(parents@, k),
        decreases n - i,
    {
        // Walk up at most n steps; a chain that does not reach a root within n steps
        // cycles.
        let mut cur: usize = i;
        let mut steps: usize = 0;
        let mut res: Option<usize> = None;
        while steps < n
            invariant_except_break
                res is None,
                n == parents@.len(),
                i < n,
                cur < n,
                steps <= n,
                raw@.len() == n,
                forall|k: int| 0 <= k < n ==> #[trigger] raw@[k] == raw_link(parents@, k),
                escapes(parents@, i as int, cur as int, (n - steps) as nat) == escapes(
                    parents@,
                    i as int,
                    i as int,
                    n as nat,
                ),
            ensures
                res == effective_parent(parents@, i as int),
            decreases n - steps,
        {
            match raw[cur] {
                Some(p) => {
                    if p == i {
                        res = None;
                        break;
                    }
                    cur = p;
                },
                None => {
                    res = raw[i];
                    break;
                },
            }
            steps += 1;
        }
        out.push(res);
        i += 1;
    }
    assert(out@ =~= effective_links(parents@));
    out
}

// ---------------------------------------------------------------------------------------
// Common clusters
// ---------------------------------------------------------------------------------------

/// The link after `s`, where `parents` has one.
pub open spec fn next_link(parents: Seq<Option<usize>>, s: usize) -> Option<usize> {
    if s < parents.len() {
        parents[s as int]
    } else {
        None
    }
}

/// At most `m` clusters of the chain of links that starts at `cur`.
pub open spec fn chain(parents: Seq<Option<usize>>, cur: Option<usize>, m: nat) -> Seq<usize>
    decreases m,
{
    if m == 0 {
        Seq::empty()
    } else {
        match cur {
            None => Seq::empty(),
            Some(s) => seq![s] + chain(parents, next_link(parents, s), (m - 1) as nat),
        }
    }
}

/// Chain of clusters from `sg` up to the root, innermost first: at most one more than
/// there are clusters.
pub open spec fn ancestry(parents: Seq<Option<usize>>, sg: Option<usize>) -> Seq<usize> {
    let start = match sg {
        Some(s) => if s < parents.len() {
            Some(s)
        } else {
            None
        },
        None => None,
    };
    chain(parents, start, (parents.len() + 1) as nat)
}

/// Chain of clusters from `sg` up to the root (inclusive of `sg`), innermost first.
fn ancestors(parents: &[Option<usize>], sg: Option<usize>) -> (r: Vec<usize>)
    ensures
        r@ == ancestry(parents@, sg),
{
    let n = parents.len();
    let mut out: Vec<usize> = Vec::new();
    let mut cur: Option<usize> = match sg {
        Some(s) => if s < n {
            Some(s)
        } else {
            None
        },
        None => None,
    };
    loop
        invariant
            n == parents@.len(),
            out@.len() <= n + 1,
            ancestry(parents@, sg) == out@ + chain(parents@, cur, (n + 1 - out@.len()) as nat),
        decreases n + 1 - out@.len(),
    {
        match cur {
            None => {
                assert(out@ + Seq::<usize>::empty() =~= out@);
                return out;
            },
            Some(s) => {
                if out.len() > n {
                    assert(out@ + Seq::<usize>::empty() =~= out@);
                    return out;
                }
                let ghost before = out@;
                out.push(s);
                cur = if s < n {
                    parents[s]
                } else {
                    None
                };
                assert(before + (seq![s] + chain(parents@, cur, (n + 1 - out@.len()) as nat))
                    =~= out@ + chain(parents@, cur, (n + 1 - out@.len()) as nat));
            },
        }
    }
}

/// The first element of `a` that `b` contains, from `k` on.
pub open spec fn first_shared(a: Seq<usize>, b: Seq<usize>, k: int) -> Option<usize>
    decreases a.len() - k,
{
    if k < 0 || k >= a.len() {
        None
    } else if b.contains(a[k]) {
        Some(a[k])
    } else {
        first_shared(a, b, k + 1)
    }
}

/// Whether `v` holds `x`.
pub(crate) fn holds(v: &Vec<usize>, x: usize) -> (r: bool)
    ensures
        r == v@.contains(x),
{
    let mut j: usize = 0;
    while j < v.len()
        invariant
            j <= v@.len(),
            forall|q: int| 0 <= q < j ==> v@[q] != x,
        decreases v@.len() - j,
    {
        if v[j] == x {
            assert(v@[j as int] == x);
            return true;
        }
        j += 1;
    }
    false
}

/// Innermost cluster containing both endpoints, `None` for the root.
pub fn common_cluster(parents: &[Option<usize>], a: Option<usize>, b: Option<usize>) -> (r:
    Option<usize>)
    ensures
        r == first_shared(ancestry(parents@, a), ancestry(parents@, b), 0),
{
    let pa = ancestors(parents, a);
    let pb = ancestors(parents, b);
    let mut k: usize = 0;
    while k < pa.len()
        invariant
            k <= pa@.len(),
            pa@ == ancestry(parents@, a),
            pb@ == ancestry(parents@, b),
            first_shared(pa@, pb@, k as int) == first_shared(pa@, pb@, 0),
        decreases pa@.len() - k,
    {
        let x = pa[k];
        if holds(&pb, x) {
            return Some(x);
        }
        k += 1;
    }
    None
}

// ---------------------------------------------------------------------------------------
// Draw order
// ---------------------------------------------------------------------------------------

/// One step of the draw order.
#[derive(Clone, Copy, Debug, PartialEq, Eq, Structural)]
pub enum Item {
    /// Open cluster `i`: its `<g>`, box and title.
    Open(usize),
    /// Close cluster `i`.
    Close(usize),
    Edge(usize),
    Node(usize),
}

/// Whether the home link `h` puts an element in cluster `c` of `n` clusters, `None`
/// standing for the root: a link out of range homes the element at the root.
pub open spec fn homed(h: Option<usize>, n: nat, c: Option<usize>) -> bool {
    match h {
        Some(x) => if x < n {
            c == Some(x)
        } else {
            c is None
        },
        None => c is None,
    }
}

/// The indices below `k` whose home is `c`, in order.
pub open spec fn members(home: Seq<Option<usize>>, n: nat, c: Option<usize>, k: int) -> Seq<usize>
    decreases k,
{
    if k <= 0 {
        Seq::empty()
    } else {
        let rest = members(home, n, c, k - 1);
        if homed(home[k - 1], n, c) {
            rest.push((k - 1) as usize)
        } else {
            rest
        }
    }
}

/// Every index whose home is `c`, in order.
pub open spec fn members_of(home: Seq<Option<usize>>, n: nat, c: Option<usize>) -> Seq<usize> {
    members(home, n, c, home.len() as int)
}

pub open spec fn edge_items(es: Seq<usize>) -> Seq<Item> {
    es.map_values(|e: usize| Item::Edge(e))
}

pub open spec fn node_items(ns: Seq<usize>) -> Seq<Item> {
    ns.map_values(|v: usize| Item::Node(v))
}

/// The items of cluster `c`: open, its child clusters, its edges, its nodes, close.
/// `fuel` bounds the nesting depth.
pub open spec fn cluster_items(
    parents: Seq<Option<usize>>,
    nodes: Seq<Option<usize>>,
    edges: Seq<Option<usize>>,
    c: usize,
    fuel: nat,
) -> Seq<Item>
    decreases fuel, 0nat,
{
    if fuel == 0 {
        Seq::empty()
    } else {
        let n = parents.len();
        seq![Item::Open(c)] + forest_items(
            parents,
            nodes,
            edges,
            members_of(parents, n, Some(c)),
            (fuel - 1) as nat,
        ) + edge_items(members_of(edges, n, Some(c))) + node_items(members_of(nodes, n, Some(c)))
            + seq![Item::Close(c)]
    }
}

/// The items of the clusters `cs`, one after the other.
pub open spec fn forest_items(
    parents: Seq<Option<usize>>,
    nodes: Seq<Option<usize>>,
    edges: Seq<Option<usize>>,
    cs: Seq<usize>,
    fuel: nat,
) -> Seq<Item>
    decreases fuel, cs.len(),
{
    if cs.len() == 0 {
        Seq::empty()
    } else {
        cluster_items(parents, nodes, edges, cs[0], fuel) + forest_items(
            parents,
            nodes,
            edges,
            cs.skip(1),
            fuel,
        )
    }
}

/// The document order: the top-level clusters, then the root edges, then the root nodes.
pub open spec fn draw_spec(
    parents: Seq<Option<usize>>,
    nodes: Seq<Option<usize>>,
    edges: Seq<Option<usize>>,
) -> Seq<Item> {
    let n = parents.len();
    forest_items(parents, nodes, edges, members_of(parents, n, None), n) + edge_items(
        members_of(edges, n, None),
    ) + node_items(members_of(nodes, n, None))
}

/// Pending work of the walk: expand a cluster with the nesting depth left, or emit an
/// item.
enum Work {
    Enter(usize, usize),
    Emit(Item),
}

spec fn work_items(
    parents: Seq<Option<usize>>,
    nodes: Seq<Option<usize>>,
    edges: Seq<Option<usize>>,
    w: Work,
) -> Seq<Item> {
    match w {
        Work::Enter(c, f) => cluster_items(parents, nodes, edges, c, f as nat),
        Work::Emit(it) => seq![it],
    }
}

/// The items the stack still produces, top first.
spec fn pending(
    parents: Seq<Option<usize>>,
    nodes: Seq<Option<usize>>,
    edges: Seq<Option<usize>>,
    st: Seq<Work>,
) -> Seq<Item>
    decreases st.len(),
{
    if st.len() == 0 {
        Seq::empty()
    } else {
        work_items(parents, nodes, edges, st.last()) + pending(parents, nodes, edges, st.drop_last())
    }
}

/// The elements of `home` grouped by cluster: one list per cluster, and the root's.
pub(crate) fn group(home: &[Option<usize>], n: usize) -> (r: (Vec<Vec<usize>>, Vec<usize>))
    ensures
        r.0@.len() == n,
        forall|c: int| 0 <= c < n ==> (#[trigger] r.0@[c])@ == members_of(home@, n as nat, Some(c as usize)),
        r.1@ == members_of(home@, n as nat, None),
{
    let mut lists: Vec<Vec<usize>> = Vec::new();
    let mut c: usize = 0;
    while c < n
        invariant
            c <= n,
            lists@.len() == c,
            forall|q: int| 0 <= q < c ==> (#[trigger] lists@[q])@ == Seq::<usize>::empty(),
        decreases n - c,
    {
        lists.push(Vec::new());
        c += 1;
    }
    let mut rest: Vec<usize> = Vec::new();
    let mut i: usize = 0;
    while i < home.len()
        invariant
            i <= home@.len(),
            lists@.len() == n,
            forall|q: int| 0 <= q < n ==> (#[trigger] lists@[q])@ == members(home@, n as nat, Some(q as usize), i as int),
            rest@ == members(home@, n as nat, None, i as int),
        decreases home@.len() - i,
    {
        match home[i] {
            Some(h) => {
                if h < n {
                    lists[h].push(i);
                } else {
                    rest.push(i);
                }
            },
            None => {
                rest.push(i);
            },
        }
        i += 1;
    }
    (lists, rest)
}

/// The document order of every cluster, edge and node, per the module docs.
/// `edge_home[e]` is the cluster edge `e` belongs to; `node_home[n]` likewise.
#[verifier::spinoff_prover]
#[verifier::rlimit(50)]
pub fn draw_order(parents: &[Option<usize>], node_home: &[Option<usize>], edge_home: &[Option<usize>]) -> (r: Vec<Item>)
    ensures
        r@ == draw_spec(parents@, node_home@, edge_home@),
{
    let ghost (ps, ns, es) = (parents@, node_home@, edge_home@);
    let n = parents.len();
    let (children, roots) = group(parents, n);
    let (edges_of, root_edges) = group(edge_home, n);
    let (nodes_of, root_nodes) = group(node_home, n);
    let mut stack: Vec<Work> = Vec::new();
    // Pushed in reverse so they pop in order.
    let mut j = root_nodes.len();
    while j > 0
        invariant
            j <= root_nodes@.len(),
            forall|k: int| 0 <= k < stack@.len() ==> match #[trigger] stack@[k] {
                Work::Enter(c, _) => c < n,
                Work::Emit(_) => true,
            },
            pending(ps, ns, es, stack@) == node_items(root_nodes@.skip(j as int)),
        decreases j,
    {
        let ghost before = stack@;
        stack.push(Work::Emit(Item::Node(root_nodes[j - 1])));
        proof {
            assert(stack@.drop_last() == before);
            assert(node_items(root_nodes@.skip(j - 1)) =~= seq![Item::Node(root_nodes@[j - 1])] + node_items(root_nodes@.skip(j as int)));
        }
        j -= 1;
    }
    let ghost tail = node_items(root_nodes@);
    assert(root_nodes@.skip(0) =~= root_nodes@);
    let mut j = root_edges.len();
    while j > 0
        invariant
            j <= root_edges@.len(),
            forall|k: int| 0 <= k < stack@.len() ==> match #[trigger] stack@[k] {
                Work::Enter(c, _) => c < n,
                Work::Emit(_) => true,
            },
            pending(ps, ns, es, stack@) == edge_items(root_edges@.skip(j as int)) + tail,
        decreases j,
    {
        let ghost before = stack@;
        stack.push(Work::Emit(Item::Edge(root_edges[j - 1])));
        proof {
            assert(stack@.drop_last() == before);
            assert(edge_items(root_edges@.skip(j - 1)) =~= seq![Item::Edge(root_edges@[j - 1])] + edge_items(root_edges@.skip(j as int)));
        }
        j -= 1;
    }
    let ghost tail2 = edge_items(root_edges@) + tail;
    assert(root_edges@.skip(0) =~= root_edges@);
    let mut j = roots.len();
    while j > 0
        invariant
            j <= roots@.len(),
            n == ps.len(),
            roots@ == members_of(ps, n as nat, None),
            forall|k: int| 0 <= k < stack@.len() ==> match #[trigger] stack@[k] {
                Work::Enter(c, _) => c < n,
                Work::Emit(_) => true,
            },
            pending(ps, ns, es, stack@) == forest_items(ps, ns, es, roots@.skip(j as int), n as nat) + tail2,
        decreases j,
    {
        let ghost before = stack@;
        proof {
            lemma_members_below(ps, n as nat, None, ps.len() as int);
            assert(roots@[j - 1] < n);
        }
        stack.push(Work::Enter(roots[j - 1], n));
        proof {
            assert(stack@.drop_last() == before);
            let l = roots@.skip(j - 1);
            assert(l[0] == roots@[j - 1]);
            assert(l.skip(1) =~= roots@.skip(j as int));
        }
        j -= 1;
    }
    assert(roots@.skip(0) =~= roots@);
    let mut out: Vec<Item> = Vec::new();
    assert(pending(ps, ns, es, stack@) =~= draw_spec(ps, ns, es));
    while stack.len() > 0
        invariant
            ps == parents@,
            ns == node_home@,
            es == edge_home@,
            n == ps.len(),
            children@.len() == n,
            forall|c: int| 0 <= c < n ==> (#[trigger] children@[c])@ == members_of(ps, n as nat, Some(c as usize)),
            edges_of@.len() == n,
            forall|c: int| 0 <= c < n ==> (#[trigger] edges_of@[c])@ == members_of(es, n as nat, Some(c as usize)),
            nodes_of@.len() == n,
            forall|c: int| 0 <= c < n ==> (#[trigger] nodes_of@[c])@ == members_of(ns, n as nat, Some(c as usize)),
            forall|k: int| 0 <= k < stack@.len() ==> match #[trigger] stack@[k] {
                Work::Enter(c, _) => c < n,
                Work::Emit(_) => true,
            },
            out@ + pending(ps, ns, es, stack@) == draw_spec(ps, ns, es),
        decreases pending(ps, ns, es, stack@).len(), stack@.len(),
    {
        let ghost before = stack@;
        let w = stack.pop().unwrap();
        proof {
            assert(before.drop_last() == stack@);
            assert(before.last() == w);
        }
        match w {
            Work::Emit(item) => {
                out.push(item);
                assert(out@ + pending(ps, ns, es, stack@) =~= draw_spec(ps, ns, es));
            },
            Work::Enter(c, f) => {
                if f > 0 {
                    let ghost rest = pending(ps, ns, es, stack@);
                    let ghost out0 = out@;
                    out.push(Item::Open(c));
                    let ghost st0 = stack@;
                    stack.push(Work::Emit(Item::Close(c)));
                    let ghost base = seq![Item::Close(c)] + rest;
                    assert(stack@.drop_last() == st0);
                    assert(pending(ps, ns, es, stack@) == base);
                    let mine = &nodes_of[c];
                    let mut j = mine.len();
                    assert(node_items(mine@.skip(j as int)) + base =~= base);
                    while j > 0
                        invariant
                            j <= mine@.len(),
                            pending(ps, ns, es, stack@) == node_items(mine@.skip(j as int)) + base,
                            forall|k: int| 0 <= k < stack@.len() ==> match #[trigger] stack@[k] {
                                Work::Enter(c, _) => c < n,
                                Work::Emit(_) => true,
                            },
                        decreases j,
                    {
                        let ghost b = stack@;
                        stack.push(Work::Emit(Item::Node(mine[j - 1])));
                        proof {
                            assert(stack@.drop_last() == b);
                            assert(node_items(mine@.skip(j - 1)) =~= seq![Item::Node(mine@[j - 1])] + node_items(mine@.skip(j as int)));
                        }
                        j -= 1;
                    }
                    assert(mine@.skip(0) =~= mine@);
                    let ghost base2 = node_items(mine@) + base;
                    let theirs = &edges_of[c];
                    let mut j = theirs.len();
                    assert(edge_items(theirs@.skip(j as int)) + base2 =~= base2);
                    while j > 0
                        invariant
                            j <= theirs@.len(),
                            pending(ps, ns, es, stack@) == edge_items(theirs@.skip(j as int)) + base2,
                            forall|k: int| 0 <= k < stack@.len() ==> match #[trigger] stack@[k] {
                                Work::Enter(c, _) => c < n,
                                Work::Emit(_) => true,
                            },
                        decreases j,
                    {
                        let ghost b = stack@;
                        stack.push(Work::Emit(Item::Edge(theirs[j - 1])));
                        proof {
                            assert(stack@.drop_last() == b);
                            assert(edge_items(theirs@.skip(j - 1)) =~= seq![Item::Edge(theirs@[j - 1])] + edge_items(theirs@.skip(j as int)));
                        }
                        j -= 1;
                    }
                    assert(theirs@.skip(0) =~= theirs@);
                    let ghost base3 = edge_items(theirs@) + base2;
                    let kids = &children[c];
                    let f1 = f - 1;
                    let mut j = kids.len();
                    assert(kids@.skip(j as int).len() == 0);
                    assert(forest_items(ps, ns, es, kids@.skip(j as int), f1 as nat) + base3 =~= base3);
                    while j > 0
                        invariant
                            j <= kids@.len(),
                            kids@ == members_of(ps, n as nat, Some(c)),
                            n == ps.len(),
                            pending(ps, ns, es, stack@) == forest_items(ps, ns, es, kids@.skip(j as int), f1 as nat) + base3,
                            forall|k: int| 0 <= k < stack@.len() ==> match #[trigger] stack@[k] {
                                Work::Enter(c, _) => c < n,
                                Work::Emit(_) => true,
                            },
                        decreases j,
                    {
                        let ghost b = stack@;
                        let k = kids[j - 1];
                        proof {
                            lemma_members_below(ps, n as nat, Some(c), ps.len() as int);
                            assert(kids@.contains(k));
                        }
                        stack.push(Work::Enter(k, f1));
                        proof {
                            assert(stack@.drop_last() == b);
                            let l = kids@.skip(j - 1);
                            assert(l[0] == kids@[j - 1]);
                            assert(l.skip(1) =~= kids@.skip(j as int));
                        }
                        j -= 1;
                    }
                    assert(kids@.skip(0) =~= kids@);
                    proof {
                        assert(cluster_items(ps, ns, es, c, f as nat) =~= seq![Item::Open(c)]
                            + forest_items(ps, ns, es, kids@, (f - 1) as nat) + edge_items(theirs@)
                            + node_items(mine@) + seq![Item::Close(c)]);
                        assert(out@ + pending(ps, ns, es, stack@) =~= out0 + cluster_items(
                            ps,
                            ns,
                            es,
                            c,
                            f as nat,
                        ) + rest);
                    }
                }
            },
        }
    }
    proof {
        assert(out@ + Seq::<Item>::empty() =~= out@);
    }
    out
}

/// Every member index is below the length of the home list.
pub(crate) proof fn lemma_members_below(home: Seq<Option<usize>>, n: nat, c: Option<usize>, k: int)
    requires
        k <= home.len(),
        home.len() <= usize::MAX,
    ensures
        forall|q: int| 0 <= q < members(home, n, c, k).len() ==> #[trigger] members(home, n, c, k)[q] < k && homed(home[members(home, n, c, k)[q] as int], n, c),
    decreases k,
{
    if k > 0 {
        lemma_members_below(home, n, c, k - 1);
        let rest = members(home, n, c, k - 1);
        let m = members(home, n, c, k);
        assert forall|q: int| 0 <= q < m.len() implies #[trigger] m[q] < k && homed(
            home[m[q] as int],
            n,
            c,
        ) by {
            if q < rest.len() {
                assert(m[q] == rest[q]);
            }
        }
    }
}

// ---------------------------------------------------------------------------------------
// Every element is drawn once
// ---------------------------------------------------------------------------------------

/// The link above cluster `y`, while it stays among the clusters.
pub open spec fn step_up(ps: Seq<Option<usize>>, y: usize) -> Option<usize> {
    if y < ps.len() {
        match ps[y as int] {
            Some(p) => if p < ps.len() {
                Some(p)
            } else {
                None
            },
            None => None,
        }
    } else {
        None
    }
}

/// The cluster `t` links above `c`, or `None` once the chain has left the clusters.
pub open spec fn up(ps: Seq<Option<usize>>, c: usize, t: nat) -> Option<usize>
    decreases t,
{
    if t == 0 {
        Some(c)
    } else {
        match up(ps, c, (t - 1) as nat) {
            Some(y) => step_up(ps, y),
            None => None,
        }
    }
}

/// No chain of links cycles: from every cluster, the chain leaves the clusters within
/// as many steps as there are clusters.
pub open spec fn acyclic(ps: Seq<Option<usize>>) -> bool {
    forall|c: usize| c < ps.len() ==> #[trigger] up(ps, c, ps.len()) is None
}

/// How often `it` occurs in `s`.
pub open spec fn occurrences(s: Seq<Item>, it: Item) -> nat
    decreases s.len(),
{
    if s.len() == 0 {
        0
    } else {
        occurrences(s.drop_last(), it) + if s.last() == it {
            1nat
        } else {
            0nat
        }
    }
}

proof fn lemma_occurrences_concat(a: Seq<Item>, b: Seq<Item>, it: Item)
    ensures
        occurrences(a + b, it) == occurrences(a, it) + occurrences(b, it),
    decreases b.len(),
{
    if b.len() == 0 {
        assert(a + b =~= a);
    } else {
        lemma_occurrences_concat(a, b.drop_last(), it);
        assert((a + b).drop_last() =~= a + b.drop_last());
        assert((a + b).last() == b.last());
    }
}

proof fn lemma_occurrences_single(x: Item, it: Item)
    ensures
        occurrences(seq![x], it) == if x == it {
            1nat
        } else {
            0nat
        },
{
    let s = seq![x];
    assert(s.drop_last() =~= Seq::<Item>::empty());
    assert(occurrences(s.drop_last(), it) == 0);
    assert(s.last() == x);
}

/// Membership in a members list.
proof fn lemma_members_contains(home: Seq<Option<usize>>, n: nat, h: Option<usize>, k: int, v: int)
    requires
        k <= home.len() <= usize::MAX,
    ensures
        members(home, n, h, k).contains(v as usize) && 0 <= v <= usize::MAX <==> 0 <= v < k
            && homed(home[v], n, h),
        forall|a: int, b: int|
            0 <= a < b < members(home, n, h, k).len() ==> members(home, n, h, k)[a] < members(
                home,
                n,
                h,
                k,
            )[b],
    decreases k,
{
    lemma_members_below(home, n, h, k);
    if k > 0 {
        lemma_members_contains(home, n, h, k - 1, v);
        let rest = members(home, n, h, k - 1);
        let m = members(home, n, h, k);
        lemma_members_below(home, n, h, k - 1);
        if homed(home[k - 1], n, h) {
            assert(m == rest.push((k - 1) as usize));
            if 0 <= v <= usize::MAX && m.contains(v as usize) && v != k - 1 {
                let q = choose|q: int| 0 <= q < m.len() && m[q] == v as usize;
                assert(q < rest.len());
                assert(rest[q] == v as usize);
            }
            if 0 <= v < k - 1 && homed(home[v], n, h) {
                let q = choose|q: int| 0 <= q < rest.len() && rest[q] == v as usize;
                assert(m[q] == v as usize);
            }
            if v == k - 1 {
                assert(m[rest.len() as int] == v as usize);
            }
        }
    }
}

/// Once the chain has left the clusters, it stays out.
proof fn lemma_up_stays_none(ps: Seq<Option<usize>>, c: usize, t: nat, t2: nat)
    requires
        up(ps, c, t) is None,
        t <= t2,
    ensures
        up(ps, c, t2) is None,
    decreases t2,
{
    if t2 > t {
        lemma_up_stays_none(ps, c, t, (t2 - 1) as nat);
    }
}

/// Walking `a + b` links is walking `a`, then `b` more.
proof fn lemma_up_compose(ps: Seq<Option<usize>>, c: usize, a: nat, b: nat)
    requires
        up(ps, c, a) is Some,
    ensures
        up(ps, c, a + b) == up(ps, up(ps, c, a)->0, b),
    decreases b,
{
    if b > 0 {
        lemma_up_compose(ps, c, a, (b - 1) as nat);
        assert((a + b - 1) as nat == a + (b - 1) as nat);
    }
}

/// A chain reaches only clusters.
proof fn lemma_up_in_range(ps: Seq<Option<usize>>, c: usize, t: nat)
    requires
        c < ps.len(),
    ensures
        up(ps, c, t) matches Some(y) ==> y < ps.len(),
    decreases t,
{
    if t > 0 {
        lemma_up_in_range(ps, c, (t - 1) as nat);
    }
}

/// A cluster that comes back to itself after `d` links does so after every multiple.
proof fn lemma_up_periodic(ps: Seq<Option<usize>>, y: usize, d: nat, j: nat)
    requires
        up(ps, y, d) == Some(y),
    ensures
        up(ps, y, j * d) == Some(y),
    decreases j,
{
    if j == 0 {
        assert(j * d == 0) by (nonlinear_arith)
            requires
                j == 0,
        ;
    } else {
        lemma_up_periodic(ps, y, d, (j - 1) as nat);
        assert(j * d == (j - 1) as nat * d + d) by (nonlinear_arith)
            requires
                j > 0,
        ;
        lemma_up_compose(ps, y, ((j - 1) as nat * d) as nat, d);
    }
}

/// Without cycles, a chain of links never visits one cluster twice.
pub(crate) proof fn lemma_up_no_repeat(ps: Seq<Option<usize>>, c: usize, t1: nat, t2: nat)
    requires
        acyclic(ps),
        c < ps.len(),
        t1 < t2,
        up(ps, c, t1) is Some,
    ensures
        up(ps, c, t2) != up(ps, c, t1),
{
    if up(ps, c, t2) == up(ps, c, t1) {
        let y = up(ps, c, t1)->0;
        let d = (t2 - t1) as nat;
        lemma_up_in_range(ps, c, t1);
        lemma_up_compose(ps, c, t1, d);
        assert(t1 + d == t2);
        assert(up(ps, y, d) == Some(y));
        let n = ps.len();
        lemma_up_periodic(ps, y, d, n);
        assert(n <= n * d) by (nonlinear_arith)
            requires
                d >= 1,
        ;
        assert(up(ps, y, n) is None);
        lemma_up_stays_none(ps, y, n, n * d);
    }
}

/// Whether `x` lies on the chain of links from `c` within `f` clusters.
pub open spec fn anc(ps: Seq<Option<usize>>, c: usize, x: usize, f: nat) -> bool {
    exists|t: nat| t < f && #[trigger] up(ps, c, t) == Some(x)
}

/// How many clusters of `cs` lie on the chain from `c` within `f` clusters.
pub open spec fn count_anc(ps: Seq<Option<usize>>, c: usize, cs: Seq<usize>, f: nat) -> nat
    decreases cs.len(),
{
    if cs.len() == 0 {
        0
    } else {
        (if anc(ps, c, cs[0], f) {
            1nat
        } else {
            0nat
        }) + count_anc(ps, c, cs.skip(1), f)
    }
}

/// Counting over a list without repeats where only `k0` can qualify.
proof fn lemma_count_anc_unique(ps: Seq<Option<usize>>, c: usize, cs: Seq<usize>, f: nat, k0: usize)
    requires
        forall|a: int, b: int| 0 <= a < b < cs.len() ==> cs[a] < cs[b],
        forall|q: int| 0 <= q < cs.len() && anc(ps, c, cs[q], f) ==> cs[q] == k0,
    ensures
        count_anc(ps, c, cs, f) == if cs.contains(k0) && anc(ps, c, k0, f) {
            1nat
        } else {
            0nat
        },
    decreases cs.len(),
{
    if cs.len() > 0 {
        let t = cs.skip(1);
        assert forall|a: int, b: int| 0 <= a < b < t.len() implies t[a] < t[b] by {
            assert(t[a] == cs[a + 1] && t[b] == cs[b + 1]);
        }
        assert forall|q: int| 0 <= q < t.len() && anc(ps, c, t[q], f) implies t[q] == k0 by {
            assert(t[q] == cs[q + 1]);
        }
        lemma_count_anc_unique(ps, c, t, f, k0);
        if cs[0] == k0 {
            assert(cs.contains(k0));
            assert(!t.contains(k0)) by {
                if t.contains(k0) {
                    let q = choose|q: int| 0 <= q < t.len() && t[q] == k0;
                    assert(cs[q + 1] == k0);
                    assert(cs[0] < cs[q + 1]);
                }
            }
        } else {
            assert(cs.contains(k0) == t.contains(k0)) by {
                if cs.contains(k0) {
                    let q = choose|q: int| 0 <= q < cs.len() && cs[q] == k0;
                    assert(q > 0);
                    assert(t[q - 1] == k0);
                }
                if t.contains(k0) {
                    let q = choose|q: int| 0 <= q < t.len() && t[q] == k0;
                    assert(cs[q + 1] == k0);
                }
            }
        }
    }
}

/// How the node lists of one home count a node.
proof fn lemma_node_items_count(home: Seq<Option<usize>>, n: nat, h: Option<usize>, k: int, v: int)
    requires
        k <= home.len() <= usize::MAX,
        0 <= v < home.len(),
    ensures
        occurrences(node_items(members(home, n, h, k)), Item::Node(v as usize)) == if v < k
            && homed(home[v], n, h) {
            1nat
        } else {
            0nat
        },
    decreases k,
{
    if k > 0 {
        lemma_node_items_count(home, n, h, k - 1, v);
        let rest = members(home, n, h, k - 1);
        if homed(home[k - 1], n, h) {
            let x = (k - 1) as usize;
            assert(node_items(rest.push(x)) =~= node_items(rest) + seq![Item::Node(x)]);
            lemma_occurrences_concat(node_items(rest), seq![Item::Node(x)], Item::Node(v as usize));
            lemma_occurrences_single(Item::Node(x), Item::Node(v as usize));
        }
    } else {
        assert(node_items(Seq::<usize>::empty()) =~= Seq::<Item>::empty());
    }
}

/// Edge lists hold no node.
proof fn lemma_edge_items_no_node(es: Seq<usize>, v: usize)
    ensures
        occurrences(edge_items(es), Item::Node(v)) == 0,
    decreases es.len(),
{
    if es.len() > 0 {
        lemma_edge_items_no_node(es.drop_last(), v);
        assert(edge_items(es).drop_last() =~= edge_items(es.drop_last()));
    } else {
        assert(edge_items(es) =~= Seq::<Item>::empty());
    }
}

/// A list where nothing qualifies counts nothing.
proof fn lemma_count_anc_none(ps: Seq<Option<usize>>, c: usize, cs: Seq<usize>, f: nat)
    requires
        forall|q: int| 0 <= q < cs.len() ==> !anc(ps, c, cs[q], f),
    ensures
        count_anc(ps, c, cs, f) == 0,
    decreases cs.len(),
{
    if cs.len() > 0 {
        let t = cs.skip(1);
        assert forall|q: int| 0 <= q < t.len() implies !anc(ps, c, t[q], f) by {
            assert(t[q] == cs[q + 1]);
        }
        lemma_count_anc_none(ps, c, t, f);
    }
}

/// Among the children of `x`, the chain from `c` passes through one exactly when it
/// reaches `x` from below.
proof fn lemma_kids_count(ps: Seq<Option<usize>>, c: usize, x: usize, g: nat)
    requires
        acyclic(ps),
        c < ps.len(),
        x < ps.len(),
        ps.len() <= usize::MAX,
    ensures
        count_anc(ps, c, members_of(ps, ps.len() as nat, Some(x)), g) == if anc(ps, c, x, g + 1)
            && c != x {
            1nat
        } else {
            0nat
        },
{
    let n = ps.len();
    let kids = members_of(ps, n as nat, Some(x));
    lemma_members_contains(ps, n as nat, Some(x), n as int, 0);
    lemma_members_below(ps, n as nat, Some(x), n as int);
    if anc(ps, c, x, g + 1) && c != x {
        let t = choose|t: nat| t < g + 1 && #[trigger] up(ps, c, t) == Some(x);
        assert(t != 0);
        let t0 = (t - 1) as nat;
        assert(up(ps, c, t0) is Some);
        let k0 = up(ps, c, t0)->0;
        assert(step_up(ps, k0) == Some(x));
        assert(k0 < n);
        lemma_members_contains(ps, n as nat, Some(x), n as int, k0 as int);
        assert(kids.contains(k0));
        assert(anc(ps, c, k0, g)) by {
            assert(up(ps, c, t0) == Some(k0));
        }
        assert forall|q: int| 0 <= q < kids.len() && anc(ps, c, kids[q], g) implies kids[q]
            == k0 by {
            let k = kids[q];
            let t2 = choose|t2: nat| t2 < g && #[trigger] up(ps, c, t2) == Some(k);
            assert(homed(ps[k as int], n as nat, Some(x)));
            assert(step_up(ps, k) == Some(x));
            assert(up(ps, c, t2 + 1) == Some(x));
            if t2 + 1 < t {
                lemma_up_no_repeat(ps, c, t2 + 1, t);
            } else if t2 + 1 > t {
                lemma_up_no_repeat(ps, c, t, t2 + 1);
            }
            assert(t2 == t0);
        }
        lemma_count_anc_unique(ps, c, kids, g, k0);
    } else {
        assert forall|q: int| 0 <= q < kids.len() implies !anc(ps, c, kids[q], g) by {
            let k = kids[q];
            if anc(ps, c, k, g) {
                let t2 = choose|t2: nat| t2 < g && #[trigger] up(ps, c, t2) == Some(k);
                assert(homed(ps[k as int], n as nat, Some(x)));
                assert(step_up(ps, k) == Some(x));
                assert(up(ps, c, t2 + 1) == Some(x));
                assert(anc(ps, c, x, g + 1));
                assert(c == x);
                assert(up(ps, c, 0) == Some(x));
                lemma_up_no_repeat(ps, c, 0, t2 + 1);
            }
        }
        lemma_count_anc_none(ps, c, kids, g);
    }
}

/// A chain that leaves the clusters has a last cluster.
proof fn lemma_chain_top(ps: Seq<Option<usize>>, c: usize, m: nat)
    requires
        up(ps, c, m) is None,
    ensures
        exists|t: nat| t < m && (#[trigger] up(ps, c, t)) is Some && up(ps, c, t + 1) is None,
    decreases m,
{
    if m > 0 {
        let m1 = (m - 1) as nat;
        if up(ps, c, m1) is None {
            lemma_chain_top(ps, c, m1);
            let t = choose|t: nat| t < m1 && (#[trigger] up(ps, c, t)) is Some && up(ps, c, t + 1) is None;
            assert(t < m);
        } else {
            assert(up(ps, c, m1) is Some && up(ps, c, m1 + 1) is None);
        }
    }
}

/// Exactly one top-level cluster lies on the chain from `c`.
proof fn lemma_roots_count(ps: Seq<Option<usize>>, c: usize)
    requires
        acyclic(ps),
        c < ps.len(),
        ps.len() <= usize::MAX,
    ensures
        count_anc(ps, c, members_of(ps, ps.len() as nat, None), ps.len() as nat) == 1,
{
    let n = ps.len();
    let roots = members_of(ps, n as nat, None);
    assert(up(ps, c, n as nat) is None);
    lemma_chain_top(ps, c, n as nat);
    let t = choose|t: nat| t < n && (#[trigger] up(ps, c, t)) is Some && up(ps, c, t + 1) is None;
    let k0 = up(ps, c, t)->0;
    lemma_up_in_range(ps, c, t);
    assert(step_up(ps, k0) is None);
    lemma_members_contains(ps, n as nat, None, n as int, k0 as int);
    lemma_members_contains(ps, n as nat, None, n as int, 0);
    lemma_members_below(ps, n as nat, None, n as int);
    assert(roots.contains(k0));
    assert(anc(ps, c, k0, n as nat));
    assert forall|q: int| 0 <= q < roots.len() && anc(ps, c, roots[q], n as nat) implies roots[q]
        == k0 by {
        let r = roots[q];
        let t2 = choose|t2: nat| t2 < n && #[trigger] up(ps, c, t2) == Some(r);
        assert(homed(ps[r as int], n as nat, None));
        assert(step_up(ps, r) is None);
        assert(up(ps, c, t2 + 1) is None);
        if t2 < t {
            lemma_up_stays_none(ps, c, t2 + 1, t);
        } else if t2 > t {
            lemma_up_stays_none(ps, c, t + 1, t2);
        }
    }
    lemma_count_anc_unique(ps, c, roots, n as nat, k0);
}

/// A node homed in cluster `c` occurs in the items of cluster `x` once when `x` lies on
/// the chain above `c`, and not at all otherwise.
proof fn lemma_cluster_count(
    ps: Seq<Option<usize>>,
    ns: Seq<Option<usize>>,
    es: Seq<Option<usize>>,
    x: usize,
    f: nat,
    v: int,
    c: usize,
)
    requires
        acyclic(ps),
        x < ps.len(),
        c < ps.len(),
        0 <= v < ns.len(),
        ns[v] == Some(c),
        ps.len() <= usize::MAX,
        ns.len() <= usize::MAX,
        es.len() <= usize::MAX,
    ensures
        occurrences(cluster_items(ps, ns, es, x, f), Item::Node(v as usize)) == if anc(ps, c, x, f) {
            1nat
        } else {
            0nat
        },
    decreases f, 0nat,
{
    let it = Item::Node(v as usize);
    if f == 0 {
        assert(!anc(ps, c, x, f));
        assert(occurrences(Seq::<Item>::empty(), it) == 0);
    } else {
        let n = ps.len();
        let g = (f - 1) as nat;
        let kids = members_of(ps, n as nat, Some(x));
        lemma_members_below(ps, n as nat, Some(x), n as int);
        lemma_forest_count(ps, ns, es, kids, g, v, c);
        lemma_kids_count(ps, c, x, g);
        let eds = edge_items(members_of(es, n as nat, Some(x)));
        let nds = node_items(members_of(ns, n as nat, Some(x)));
        lemma_edge_items_no_node(members_of(es, n as nat, Some(x)), v as usize);
        lemma_node_items_count(ns, n as nat, Some(x), ns.len() as int, v);
        let fo = forest_items(ps, ns, es, kids, g);
        let a = seq![Item::Open(x)];
        let z = seq![Item::Close(x)];
        lemma_occurrences_single(Item::Open(x), it);
        lemma_occurrences_single(Item::Close(x), it);
        lemma_occurrences_concat(a, fo, it);
        lemma_occurrences_concat(a + fo, eds, it);
        lemma_occurrences_concat(a + fo + eds, nds, it);
        lemma_occurrences_concat(a + fo + eds + nds, z, it);
        assert(cluster_items(ps, ns, es, x, f) == a + fo + eds + nds + z);
        if c == x {
            assert(up(ps, c, 0) == Some(x));
            assert(anc(ps, c, x, f));
        }
    }
}

/// The items of a list of clusters count a node once per cluster of the list on the
/// chain above its home.
proof fn lemma_forest_count(
    ps: Seq<Option<usize>>,
    ns: Seq<Option<usize>>,
    es: Seq<Option<usize>>,
    cs: Seq<usize>,
    f: nat,
    v: int,
    c: usize,
)
    requires
        acyclic(ps),
        forall|q: int| 0 <= q < cs.len() ==> cs[q] < ps.len(),
        c < ps.len(),
        0 <= v < ns.len(),
        ns[v] == Some(c),
        ps.len() <= usize::MAX,
        ns.len() <= usize::MAX,
        es.len() <= usize::MAX,
    ensures
        occurrences(forest_items(ps, ns, es, cs, f), Item::Node(v as usize)) == count_anc(
            ps,
            c,
            cs,
            f,
        ),
    decreases f, cs.len(),
{
    let it = Item::Node(v as usize);
    if cs.len() == 0 {
        assert(occurrences(Seq::<Item>::empty(), it) == 0);
    } else {
        let t = cs.skip(1);
        assert forall|q: int| 0 <= q < t.len() implies t[q] < ps.len() by {
            assert(t[q] == cs[q + 1]);
        }
        lemma_cluster_count(ps, ns, es, cs[0], f, v, c);
        lemma_forest_count(ps, ns, es, t, f, v, c);
        lemma_occurrences_concat(
            cluster_items(ps, ns, es, cs[0], f),
            forest_items(ps, ns, es, t, f),
            it,
        );
    }
}

/// A node homed at the root occurs in no cluster's items.
proof fn lemma_cluster_zero(
    ps: Seq<Option<usize>>,
    ns: Seq<Option<usize>>,
    es: Seq<Option<usize>>,
    x: usize,
    f: nat,
    v: int,
)
    requires
        0 <= v < ns.len(),
        homed(ns[v], ps.len() as nat, None),
        ps.len() <= usize::MAX,
        ns.len() <= usize::MAX,
        es.len() <= usize::MAX,
    ensures
        occurrences(cluster_items(ps, ns, es, x, f), Item::Node(v as usize)) == 0,
    decreases f, 0nat,
{
    let it = Item::Node(v as usize);
    if f == 0 {
        assert(occurrences(Seq::<Item>::empty(), it) == 0);
    } else {
        let n = ps.len();
        let g = (f - 1) as nat;
        let kids = members_of(ps, n as nat, Some(x));
        lemma_forest_zero(ps, ns, es, kids, g, v);
        let eds = edge_items(members_of(es, n as nat, Some(x)));
        let nds = node_items(members_of(ns, n as nat, Some(x)));
        lemma_edge_items_no_node(members_of(es, n as nat, Some(x)), v as usize);
        lemma_node_items_count(ns, n as nat, Some(x), ns.len() as int, v);
        let fo = forest_items(ps, ns, es, kids, g);
        let a = seq![Item::Open(x)];
        let z = seq![Item::Close(x)];
        lemma_occurrences_single(Item::Open(x), it);
        lemma_occurrences_single(Item::Close(x), it);
        lemma_occurrences_concat(a, fo, it);
        lemma_occurrences_concat(a + fo, eds, it);
        lemma_occurrences_concat(a + fo + eds, nds, it);
        lemma_occurrences_concat(a + fo + eds + nds, z, it);
        assert(cluster_items(ps, ns, es, x, f) == a + fo + eds + nds + z);
    }
}

proof fn lemma_forest_zero(
    ps: Seq<Option<usize>>,
    ns: Seq<Option<usize>>,
    es: Seq<Option<usize>>,
    cs: Seq<usize>,
    f: nat,
    v: int,
)
    requires
        0 <= v < ns.len(),
        homed(ns[v], ps.len() as nat, None),
        ps.len() <= usize::MAX,
        ns.len() <= usize::MAX,
        es.len() <= usize::MAX,
    ensures
        occurrences(forest_items(ps, ns, es, cs, f), Item::Node(v as usize)) == 0,
    decreases f, cs.len(),
{
    let it = Item::Node(v as usize);
    if cs.len() == 0 {
        assert(occurrences(Seq::<Item>::empty(), it) == 0);
    } else {
        lemma_cluster_zero(ps, ns, es, cs[0], f, v);
        lemma_forest_zero(ps, ns, es, cs.skip(1), f, v);
        lemma_occurrences_concat(
            cluster_items(ps, ns, es, cs[0], f),
            forest_items(ps, ns, es, cs.skip(1), f),
            it,
        );
    }
}

/// With links free of cycles, the draw order lists every node exactly once.
pub proof fn lemma_every_node_drawn_once(
    ps: Seq<Option<usize>>,
    ns: Seq<Option<usize>>,
    es: Seq<Option<usize>>,
    v: int,
)
    requires
        acyclic(ps),
        0 <= v < ns.len(),
        ps.len() <= usize::MAX,
        ns.len() <= usize::MAX,
        es.len() <= usize::MAX,
    ensures
        occurrences(draw_spec(ps, ns, es), Item::Node(v as usize)) == 1,
{
    let n = ps.len();
    let it = Item::Node(v as usize);
    let roots = members_of(ps, n as nat, None);
    let fo = forest_items(ps, ns, es, roots, n as nat);
    let eds = edge_items(members_of(es, n as nat, None));
    let nds = node_items(members_of(ns, n as nat, None));
    lemma_occurrences_concat(fo, eds, it);
    lemma_occurrences_concat(fo + eds, nds, it);
    lemma_edge_items_no_node(members_of(es, n as nat, None), v as usize);
    lemma_node_items_count(ns, n as nat, None, ns.len() as int, v);
    if homed(ns[v], n as nat, None) {
        lemma_forest_zero(ps, ns, es, roots, n as nat, v);
    } else {
        let c = ns[v]->0;
        lemma_members_below(ps, n as nat, None, n as int);
        lemma_forest_count(ps, ns, es, roots, n as nat, v, c);
        lemma_roots_count(ps, c);
    }
}

/// Links that reach a top-level cluster within `k` steps leave the clusters within `k`.
proof fn lemma_reach_leaves(links: Seq<Option<usize>>, x: usize, k: nat)
    requires
        x < links.len(),
        reaches_top(links, x as int, k),
    ensures
        up(links, x, k) is None,
    decreases k,
{
    assert(up(links, x, 0) == Some(x));
    assert(1 + (k - 1) as nat == k);
    match links[x as int] {
        None => {
            assert(up(links, x, 1) is None);
            lemma_up_stays_none(links, x, 1, k);
        },
        Some(p) => {
            assert(up(links, x, 1) == Some(p));
            lemma_up_compose(links, x, 1, (k - 1) as nat);
            lemma_reach_leaves(links, p, (k - 1) as nat);
        },
    }
}

/// The effective parent links hold no cycle, so the draw order of the effective links
/// lists every node once.
pub proof fn lemma_effective_links_are_acyclic(parents: Seq<Option<usize>>)
    ensures
        acyclic(effective_links(parents)),
{
    let eff = effective_links(parents);
    assert forall|c: usize| c < eff.len() implies #[trigger] up(eff, c, eff.len()) is None by {
        lemma_effective_links_acyclic(parents, c as int);
        lemma_reach_leaves(eff, c, eff.len() as nat);
    }
}

/// How the edge lists of one home count an edge.
proof fn lemma_edge_items_count(home: Seq<Option<usize>>, n: nat, h: Option<usize>, k: int, v: int)
    requires
        k <= home.len() <= usize::MAX,
        0 <= v < home.len(),
    ensures
        occurrences(edge_items(members(home, n, h, k)), Item::Edge(v as usize)) == if v < k
            && homed(home[v], n, h) {
            1nat
        } else {
            0nat
        },
    decreases k,
{
    if k > 0 {
        lemma_edge_items_count(home, n, h, k - 1, v);
        let rest = members(home, n, h, k - 1);
        if homed(home[k - 1], n, h) {
            let x = (k - 1) as usize;
            assert(edge_items(rest.push(x)) =~= edge_items(rest) + seq![Item::Edge(x)]);
            lemma_occurrences_concat(edge_items(rest), seq![Item::Edge(x)], Item::Edge(v as usize));
            lemma_occurrences_single(Item::Edge(x), Item::Edge(v as usize));
        }
    } else {
        assert(edge_items(Seq::<usize>::empty()) =~= Seq::<Item>::empty());
    }
}

/// Node lists hold no edge.
proof fn lemma_node_items_no_edge(es: Seq<usize>, v: usize)
    ensures
        occurrences(node_items(es), Item::Edge(v)) == 0,
    decreases es.len(),
{
    if es.len() > 0 {
        lemma_node_items_no_edge(es.drop_last(), v);
        assert(node_items(es).drop_last() =~= node_items(es.drop_last()));
    } else {
        assert(node_items(es) =~= Seq::<Item>::empty());
    }
}

/// An edge homed in cluster `c` occurs in the items of cluster `x` once when `x` lies on
/// the chain above `c`, and not at all otherwise.
proof fn lemma_cluster_count_edge(
    ps: Seq<Option<usize>>,
    ns: Seq<Option<usize>>,
    es: Seq<Option<usize>>,
    x: usize,
    f: nat,
    v: int,
    c: usize,
)
    requires
        acyclic(ps),
        x < ps.len(),
        c < ps.len(),
        0 <= v < es.len(),
        es[v] == Some(c),
        ps.len() <= usize::MAX,
        ns.len() <= usize::MAX,
        es.len() <= usize::MAX,
    ensures
        occurrences(cluster_items(ps, ns, es, x, f), Item::Edge(v as usize)) == if anc(ps, c, x, f) {
            1nat
        } else {
            0nat
        },
    decreases f, 0nat,
{
    let it = Item::Edge(v as usize);
    if f == 0 {
        assert(!anc(ps, c, x, f));
        assert(occurrences(Seq::<Item>::empty(), it) == 0);
    } else {
        let n = ps.len();
        let g = (f - 1) as nat;
        let kids = members_of(ps, n as nat, Some(x));
        lemma_members_below(ps, n as nat, Some(x), n as int);
        lemma_forest_count_edge(ps, ns, es, kids, g, v, c);
        lemma_kids_count(ps, c, x, g);
        let eds = edge_items(members_of(es, n as nat, Some(x)));
        let nds = node_items(members_of(ns, n as nat, Some(x)));
        lemma_node_items_no_edge(members_of(ns, n as nat, Some(x)), v as usize);
        lemma_edge_items_count(es, n as nat, Some(x), es.len() as int, v);
        let fo = forest_items(ps, ns, es, kids, g);
        let a = seq![Item::Open(x)];
        let z = seq![Item::Close(x)];
        lemma_occurrences_single(Item::Open(x), it);
        lemma_occurrences_single(Item::Close(x), it);
        lemma_occurrences_concat(a, fo, it);
        lemma_occurrences_concat(a + fo, eds, it);
        lemma_occurrences_concat(a + fo + eds, nds, it);
        lemma_occurrences_concat(a + fo + eds + nds, z, it);
        assert(cluster_items(ps, ns, es, x, f) == a + fo + eds + nds + z);
        if c == x {
            assert(up(ps, c, 0) == Some(x));
            assert(anc(ps, c, x, f));
        }
    }
}

/// The items of a list of clusters count an edge once per cluster of the list on the
/// chain above its home.
proof fn lemma_forest_count_edge(
    ps: Seq<Option<usize>>,
    ns: Seq<Option<usize>>,
    es: Seq<Option<usize>>,
    cs: Seq<usize>,
    f: nat,
    v: int,
    c: usize,
)
    requires
        acyclic(ps),
        forall|q: int| 0 <= q < cs.len() ==> cs[q] < ps.len(),
        c < ps.len(),
        0 <= v < es.len(),
        es[v] == Some(c),
        ps.len() <= usize::MAX,
        ns.len() <= usize::MAX,
        es.len() <= usize::MAX,
    ensures
        occurrences(forest_items(ps, ns, es, cs, f), Item::Edge(v as usize)) == count_anc(
            ps,
            c,
            cs,
            f,
        ),
    decreases f, cs.len(),
{
    let it = Item::Edge(v as usize);
    if cs.len() == 0 {
        assert(occurrences(Seq::<Item>::empty(), it) == 0);
    } else {
        let t = cs.skip(1);
        assert forall|q: int| 0 <= q < t.len() implies t[q] < ps.len() by {
            assert(t[q] == cs[q + 1]);
        }
        lemma_cluster_count_edge(ps, ns, es, cs[0], f, v, c);
        lemma_forest_count_edge(ps, ns, es, t, f, v, c);
        lemma_occurrences_concat(
            cluster_items(ps, ns, es, cs[0], f),
            forest_items(ps, ns, es, t, f),
            it,
        );
    }
}

/// An edge homed at the root occurs in no cluster's items.
proof fn lemma_cluster_zero_edge(
    ps: Seq<Option<usize>>,
    ns: Seq<Option<usize>>,
    es: Seq<Option<usize>>,
    x: usize,
    f: nat,
    v: int,
)
    requires
        0 <= v < es.len(),
        homed(es[v], ps.len() as nat, None),
        ps.len() <= usize::MAX,
        ns.len() <= usize::MAX,
        es.len() <= usize::MAX,
    ensures
        occurrences(cluster_items(ps, ns, es, x, f), Item::Edge(v as usize)) == 0,
    decreases f, 0nat,
{
    let it = Item::Edge(v as usize);
    if f == 0 {
        assert(occurrences(Seq::<Item>::empty(), it) == 0);
    } else {
        let n = ps.len();
        let g = (f - 1) as nat;
        let kids = members_of(ps, n as nat, Some(x));
        lemma_forest_zero_edge(ps, ns, es, kids, g, v);
        let eds = edge_items(members_of(es, n as nat, Some(x)));
        let nds = node_items(members_of(ns, n as nat, Some(x)));
        lemma_node_items_no_edge(members_of(ns, n as nat, Some(x)), v as usize);
        lemma_edge_items_count(es, n as nat, Some(x), es.len() as int, v);
        let fo = forest_items(ps, ns, es, kids, g);
        let a = seq![Item::Open(x)];
        let z = seq![Item::Close(x)];
        lemma_occurrences_single(Item::Open(x), it);
        lemma_occurrences_single(Item::Close(x), it);
        lemma_occurrences_concat(a, fo, it);
        lemma_occurrences_concat(a + fo, eds, it);
        lemma_occurrences_concat(a + fo + eds, nds, it);
        lemma_occurrences_concat(a + fo + eds + nds, z, it);
        assert(cluster_items(ps, ns, es, x, f) == a + fo + eds + nds + z);
    }
}

proof fn lemma_forest_zero_edge(
    ps: Seq<Option<usize>>,
    ns: Seq<Option<usize>>,
    es: Seq<Option<usize>>,
    cs: Seq<usize>,
    f: nat,
    v: int,
)
    requires
        0 <= v < es.len(),
        homed(es[v], ps.len() as nat, None),
        ps.len() <= usize::MAX,
        ns.len() <= usize::MAX,
        es.len() <= usize::MAX,
    ensures
        occurrences(forest_items(ps, ns, es, cs, f), Item::Edge(v as usize)) == 0,
    decreases f, cs.len(),
{
    let it = Item::Edge(v as usize);
    if cs.len() == 0 {
        assert(occurrences(Seq::<Item>::empty(), it) == 0);
    } else {
        lemma_cluster_zero_edge(ps, ns, es, cs[0], f, v);
        lemma_forest_zero_edge(ps, ns, es, cs.skip(1), f, v);
        lemma_occurrences_concat(
            cluster_items(ps, ns, es, cs[0], f),
            forest_items(ps, ns, es, cs.skip(1), f),
            it,
        );
    }
}

/// With links free of cycles, the draw order lists every edge exactly once.
pub proof fn lemma_every_edge_drawn_once(
    ps: Seq<Option<usize>>,
    ns: Seq<Option<usize>>,
    es: Seq<Option<usize>>,
    v: int,
)
    requires
        acyclic(ps),
        0 <= v < es.len(),
        ps.len() <= usize::MAX,
        ns.len() <= usize::MAX,
        es.len() <= usize::MAX,
    ensures
        occurrences(draw_spec(ps, ns, es), Item::Edge(v as usize)) == 1,
{
    let n = ps.len();
    let it = Item::Edge(v as usize);
    let roots = members_of(ps, n as nat, None);
    let fo = forest_items(ps, ns, es, roots, n as nat);
    let eds = edge_items(members_of(es, n as nat, None));
    let nds = node_items(members_of(ns, n as nat, None));
    lemma_occurrences_concat(fo, eds, it);
    lemma_occurrences_concat(fo + eds, nds, it);
    lemma_node_items_no_edge(members_of(ns, n as nat, None), v as usize);
    lemma_edge_items_count(es, n as nat, None, es.len() as int, v);
    if homed(es[v], n as nat, None) {
        lemma_forest_zero_edge(ps, ns, es, roots, n as nat, v);
    } else {
        let c = es[v]->0;
        lemma_members_below(ps, n as nat, None, n as int);
        lemma_forest_count_edge(ps, ns, es, roots, n as nat, v, c);
        lemma_roots_count(ps, c);
    }
}

/// Node and edge lists hold no cluster box.
proof fn lemma_lists_hold_no_box(ls: Seq<usize>, c: usize)
    ensures
        occurrences(node_items(ls), Item::Open(c)) == 0,
        occurrences(node_items(ls), Item::Close(c)) == 0,
        occurrences(edge_items(ls), Item::Open(c)) == 0,
        occurrences(edge_items(ls), Item::Close(c)) == 0,
    decreases ls.len(),
{
    if ls.len() > 0 {
        lemma_lists_hold_no_box(ls.drop_last(), c);
        assert(node_items(ls).drop_last() =~= node_items(ls.drop_last()));
        assert(edge_items(ls).drop_last() =~= edge_items(ls.drop_last()));
    } else {
        assert(node_items(ls) =~= Seq::<Item>::empty());
        assert(edge_items(ls) =~= Seq::<Item>::empty());
    }
}

/// Cluster `c` is opened and closed in the items of cluster `x` once when `x` lies on
/// the chain from `c`, and not at all otherwise.
proof fn lemma_cluster_count_box(
    ps: Seq<Option<usize>>,
    ns: Seq<Option<usize>>,
    es: Seq<Option<usize>>,
    x: usize,
    f: nat,
    c: usize,
)
    requires
        acyclic(ps),
        x < ps.len(),
        c < ps.len(),
        ps.len() <= usize::MAX,
    ensures
        occurrences(cluster_items(ps, ns, es, x, f), Item::Open(c)) == if anc(ps, c, x, f) {
            1nat
        } else {
            0nat
        },
        occurrences(cluster_items(ps, ns, es, x, f), Item::Close(c)) == if anc(ps, c, x, f) {
            1nat
        } else {
            0nat
        },
    decreases f, 0nat,
{
    if f == 0 {
        assert(!anc(ps, c, x, f));
        assert(occurrences(Seq::<Item>::empty(), Item::Open(c)) == 0);
        assert(occurrences(Seq::<Item>::empty(), Item::Close(c)) == 0);
    } else {
        let n = ps.len();
        let g = (f - 1) as nat;
        let kids = members_of(ps, n as nat, Some(x));
        lemma_members_below(ps, n as nat, Some(x), n as int);
        lemma_forest_count_box(ps, ns, es, kids, g, c);
        lemma_kids_count(ps, c, x, g);
        let eds = edge_items(members_of(es, n as nat, Some(x)));
        let nds = node_items(members_of(ns, n as nat, Some(x)));
        lemma_lists_hold_no_box(members_of(es, n as nat, Some(x)), c);
        lemma_lists_hold_no_box(members_of(ns, n as nat, Some(x)), c);
        let fo = forest_items(ps, ns, es, kids, g);
        let a = seq![Item::Open(x)];
        let z = seq![Item::Close(x)];
        assert(cluster_items(ps, ns, es, x, f) == a + fo + eds + nds + z);
        let its = seq![Item::Open(c), Item::Close(c)];
        assert forall|w: int| 0 <= w < 2 implies #[trigger] occurrences(
            cluster_items(ps, ns, es, x, f),
            its[w],
        ) == if anc(ps, c, x, f) {
            1nat
        } else {
            0nat
        } by {
            let it = its[w];
            lemma_occurrences_single(Item::Open(x), it);
            lemma_occurrences_single(Item::Close(x), it);
            lemma_occurrences_concat(a, fo, it);
            lemma_occurrences_concat(a + fo, eds, it);
            lemma_occurrences_concat(a + fo + eds, nds, it);
            lemma_occurrences_concat(a + fo + eds + nds, z, it);
            if c == x {
                assert(up(ps, c, 0) == Some(x));
                assert(anc(ps, c, x, f));
            }
        }
        assert(its[0] == Item::Open(c) && its[1] == Item::Close(c));
    }
}

proof fn lemma_forest_count_box(
    ps: Seq<Option<usize>>,
    ns: Seq<Option<usize>>,
    es: Seq<Option<usize>>,
    cs: Seq<usize>,
    f: nat,
    c: usize,
)
    requires
        acyclic(ps),
        forall|q: int| 0 <= q < cs.len() ==> cs[q] < ps.len(),
        c < ps.len(),
        ps.len() <= usize::MAX,
    ensures
        occurrences(forest_items(ps, ns, es, cs, f), Item::Open(c)) == count_anc(ps, c, cs, f),
        occurrences(forest_items(ps, ns, es, cs, f), Item::Close(c)) == count_anc(ps, c, cs, f),
    decreases f, cs.len(),
{
    if cs.len() == 0 {
        assert(occurrences(Seq::<Item>::empty(), Item::Open(c)) == 0);
        assert(occurrences(Seq::<Item>::empty(), Item::Close(c)) == 0);
    } else {
        let t = cs.skip(1);
        assert forall|q: int| 0 <= q < t.len() implies t[q] < ps.len() by {
            assert(t[q] == cs[q + 1]);
        }
        lemma_cluster_count_box(ps, ns, es, cs[0], f, c);
        lemma_forest_count_box(ps, ns, es, t, f, c);
        lemma_occurrences_concat(
            cluster_items(ps, ns, es, cs[0], f),
            forest_items(ps, ns, es, t, f),
            Item::Open(c),
        );
        lemma_occurrences_concat(
            cluster_items(ps, ns, es, cs[0], f),
            forest_items(ps, ns, es, t, f),
            Item::Close(c),
        );
    }
}

/// With links free of cycles, the draw order opens and closes every cluster exactly
/// once.
pub proof fn lemma_every_cluster_drawn_once(
    ps: Seq<Option<usize>>,
    ns: Seq<Option<usize>>,
    es: Seq<Option<usize>>,
    c: usize,
)
    requires
        acyclic(ps),
        c < ps.len(),
        ps.len() <= usize::MAX,
    ensures
        occurrences(draw_spec(ps, ns, es), Item::Open(c)) == 1,
        occurrences(draw_spec(ps, ns, es), Item::Close(c)) == 1,
{
    let n = ps.len();
    let roots = members_of(ps, n as nat, None);
    let fo = forest_items(ps, ns, es, roots, n as nat);
    let eds = edge_items(members_of(es, n as nat, None));
    let nds = node_items(members_of(ns, n as nat, None));
    lemma_members_below(ps, n as nat, None, n as int);
    lemma_forest_count_box(ps, ns, es, roots, n as nat, c);
    lemma_roots_count(ps, c);
    lemma_lists_hold_no_box(members_of(es, n as nat, None), c);
    lemma_lists_hold_no_box(members_of(ns, n as nat, None), c);
    lemma_occurrences_concat(fo, eds, Item::Open(c));
    lemma_occurrences_concat(fo + eds, nds, Item::Open(c));
    lemma_occurrences_concat(fo, eds, Item::Close(c));
    lemma_occurrences_concat(fo + eds, nds, Item::Close(c));
}

// ---------------------------------------------------------------------------------------
// Nothing else is drawn, and every cluster encloses what it holds
// ---------------------------------------------------------------------------------------

/// Whether `it` names one of `n` clusters, `ne` edges or `nv` nodes.
pub open spec fn drawable(it: Item, n: nat, ne: nat, nv: nat) -> bool {
    match it {
        Item::Open(c) => c < n,
        Item::Close(c) => c < n,
        Item::Edge(e) => e < ne,
        Item::Node(v) => v < nv,
    }
}

/// Whether cluster `h` holds `it` directly: a node or edge homed in `h`, or a child
/// cluster's open or close.
pub open spec fn held_by(
    it: Item,
    ps: Seq<Option<usize>>,
    ns: Seq<Option<usize>>,
    es: Seq<Option<usize>>,
    h: usize,
) -> bool {
    match it {
        Item::Open(c) => c < ps.len() && ps[c as int] == Some(h),
        Item::Close(c) => c < ps.len() && ps[c as int] == Some(h),
        Item::Edge(e) => e < es.len() && es[e as int] == Some(h),
        Item::Node(v) => v < ns.len() && ns[v as int] == Some(h),
    }
}

spec fn all_drawable(s: Seq<Item>, n: nat, ne: nat, nv: nat) -> bool {
    forall|i: int| 0 <= i < s.len() ==> drawable(#[trigger] s[i], n, ne, nv)
}

/// Where `b` stands inside `s`, from position `p`.
spec fn block_at(s: Seq<Item>, b: Seq<Item>, p: int) -> bool {
    0 <= p && p + b.len() <= s.len() && s.subrange(p, p + b.len()) == b
}

/// A number for each drawable item: opens, then closes, then edges, then nodes.
spec fn slot(it: Item, n: nat, ne: nat) -> int {
    match it {
        Item::Open(c) => c as int,
        Item::Close(c) => n + c,
        Item::Edge(e) => 2 * n + e,
        Item::Node(v) => 2 * n + ne + v,
    }
}

/// The drawable item numbered `k`.
spec fn slot_item(k: int, n: nat, ne: nat) -> Item {
    if k < n {
        Item::Open(k as usize)
    } else if k < 2 * n {
        Item::Close((k - n) as usize)
    } else if k < 2 * n + ne {
        Item::Edge((k - 2 * n) as usize)
    } else {
        Item::Node((k - 2 * n - ne) as usize)
    }
}

proof fn lemma_all_drawable_concat(a: Seq<Item>, b: Seq<Item>, n: nat, ne: nat, nv: nat)
    requires
        all_drawable(a, n, ne, nv),
        all_drawable(b, n, ne, nv),
    ensures
        all_drawable(a + b, n, ne, nv),
{
    assert forall|i: int| 0 <= i < (a + b).len() implies drawable(#[trigger] (a + b)[i], n, ne, nv) by {
        if i < a.len() {
            assert((a + b)[i] == a[i]);
        } else {
            assert((a + b)[i] == b[i - a.len()]);
        }
    }
}

proof fn lemma_lists_drawable(home: Seq<Option<usize>>, n: nat, h: Option<usize>, pn: nat, ne: nat, nv: nat)
    requires
        home.len() <= usize::MAX,
    ensures
        home.len() <= ne ==> all_drawable(edge_items(members_of(home, n, h)), pn, ne, nv),
        home.len() <= nv ==> all_drawable(node_items(members_of(home, n, h)), pn, ne, nv),
{
    let m = members_of(home, n, h);
    lemma_members_below(home, n, h, home.len() as int);
    assert forall|i: int| 0 <= i < edge_items(m).len() && home.len() <= ne implies drawable(
        #[trigger] edge_items(m)[i],
        pn,
        ne,
        nv,
    ) by {
        assert(edge_items(m)[i] == Item::Edge(m[i]));
    }
    assert forall|i: int| 0 <= i < node_items(m).len() && home.len() <= nv implies drawable(
        #[trigger] node_items(m)[i],
        pn,
        ne,
        nv,
    ) by {
        assert(node_items(m)[i] == Item::Node(m[i]));
    }
}

proof fn lemma_cluster_drawable(
    ps: Seq<Option<usize>>,
    ns: Seq<Option<usize>>,
    es: Seq<Option<usize>>,
    x: usize,
    f: nat,
)
    requires
        x < ps.len(),
        ps.len() <= usize::MAX,
        ns.len() <= usize::MAX,
        es.len() <= usize::MAX,
    ensures
        all_drawable(cluster_items(ps, ns, es, x, f), ps.len() as nat, es.len() as nat, ns.len() as nat),
    decreases f, 0nat,
{
    let (n, ne, nv) = (ps.len() as nat, es.len() as nat, ns.len() as nat);
    if f > 0 {
        let g = (f - 1) as nat;
        let kids = members_of(ps, n, Some(x));
        lemma_members_below(ps, n, Some(x), n as int);
        lemma_forest_drawable(ps, ns, es, kids, g);
        lemma_lists_drawable(es, n, Some(x), n, ne, nv);
        lemma_lists_drawable(ns, n, Some(x), n, ne, nv);
        let fo = forest_items(ps, ns, es, kids, g);
        let eds = edge_items(members_of(es, n, Some(x)));
        let nds = node_items(members_of(ns, n, Some(x)));
        let a = seq![Item::Open(x)];
        let z = seq![Item::Close(x)];
        assert(all_drawable(a, n, ne, nv)) by {
            assert forall|i: int| 0 <= i < a.len() implies drawable(#[trigger] a[i], n, ne, nv) by {
                assert(a[i] == Item::Open(x));
            }
        }
        assert(all_drawable(z, n, ne, nv)) by {
            assert forall|i: int| 0 <= i < z.len() implies drawable(#[trigger] z[i], n, ne, nv) by {
                assert(z[i] == Item::Close(x));
            }
        }
        lemma_all_drawable_concat(a, fo, n, ne, nv);
        lemma_all_drawable_concat(a + fo, eds, n, ne, nv);
        lemma_all_drawable_concat(a + fo + eds, nds, n, ne, nv);
        lemma_all_drawable_concat(a + fo + eds + nds, z, n, ne, nv);
        assert(cluster_items(ps, ns, es, x, f) == a + fo + eds + nds + z);
    } else {
        assert(cluster_items(ps, ns, es, x, f).len() == 0);
    }
}

proof fn lemma_forest_drawable(
    ps: Seq<Option<usize>>,
    ns: Seq<Option<usize>>,
    es: Seq<Option<usize>>,
    cs: Seq<usize>,
    f: nat,
)
    requires
        forall|q: int| 0 <= q < cs.len() ==> cs[q] < ps.len(),
        ps.len() <= usize::MAX,
        ns.len() <= usize::MAX,
        es.len() <= usize::MAX,
    ensures
        all_drawable(forest_items(ps, ns, es, cs, f), ps.len() as nat, es.len() as nat, ns.len() as nat),
    decreases f, cs.len(),
{
    let (n, ne, nv) = (ps.len() as nat, es.len() as nat, ns.len() as nat);
    if cs.len() > 0 {
        let t = cs.skip(1);
        assert forall|q: int| 0 <= q < t.len() implies t[q] < ps.len() by {
            assert(t[q] == cs[q + 1]);
        }
        lemma_cluster_drawable(ps, ns, es, cs[0], f);
        lemma_forest_drawable(ps, ns, es, t, f);
        lemma_all_drawable_concat(
            cluster_items(ps, ns, es, cs[0], f),
            forest_items(ps, ns, es, t, f),
            n,
            ne,
            nv,
        );
    }
}

proof fn lemma_draw_drawable(ps: Seq<Option<usize>>, ns: Seq<Option<usize>>, es: Seq<Option<usize>>)
    requires
        ps.len() <= usize::MAX,
        ns.len() <= usize::MAX,
        es.len() <= usize::MAX,
    ensures
        all_drawable(draw_spec(ps, ns, es), ps.len() as nat, es.len() as nat, ns.len() as nat),
{
    let (n, ne, nv) = (ps.len() as nat, es.len() as nat, ns.len() as nat);
    let roots = members_of(ps, n, None);
    lemma_members_below(ps, n, None, n as int);
    lemma_forest_drawable(ps, ns, es, roots, n);
    lemma_lists_drawable(es, n, None, n, ne, nv);
    lemma_lists_drawable(ns, n, None, n, ne, nv);
    let fo = forest_items(ps, ns, es, roots, n);
    let eds = edge_items(members_of(es, n, None));
    let nds = node_items(members_of(ns, n, None));
    lemma_all_drawable_concat(fo, eds, n, ne, nv);
    lemma_all_drawable_concat(fo + eds, nds, n, ne, nv);
}

proof fn lemma_absent(s: Seq<Item>, it: Item, n: nat, ne: nat, nv: nat)
    requires
        all_drawable(s, n, ne, nv),
        !drawable(it, n, ne, nv),
    ensures
        occurrences(s, it) == 0,
    decreases s.len(),
{
    if s.len() > 0 {
        let d = s.drop_last();
        assert forall|i: int| 0 <= i < d.len() implies drawable(#[trigger] d[i], n, ne, nv) by {
            assert(d[i] == s[i]);
        }
        lemma_absent(d, it, n, ne, nv);
        assert(drawable(s[s.len() - 1], n, ne, nv));
    }
}

/// Splitting the count of `it` at a position that holds it.
proof fn lemma_occurrences_at(s: Seq<Item>, i: int, it: Item)
    requires
        0 <= i < s.len(),
        s[i] == it,
    ensures
        occurrences(s, it) == occurrences(s.take(i), it) + 1 + occurrences(s.skip(i + 1), it),
{
    assert(s =~= s.take(i) + seq![s[i]] + s.skip(i + 1));
    lemma_occurrences_concat(s.take(i) + seq![s[i]], s.skip(i + 1), it);
    lemma_occurrences_concat(s.take(i), seq![s[i]], it);
    lemma_occurrences_single(s[i], it);
}

/// An item that occurs once stands at one position.
proof fn lemma_single_position(s: Seq<Item>, it: Item, i: int, j: int)
    requires
        occurrences(s, it) == 1,
        0 <= i < s.len(),
        0 <= j < s.len(),
        s[i] == it,
        s[j] == it,
    ensures
        i == j,
{
    if i < j {
        lemma_occurrences_at(s, j, it);
        assert(s.take(j)[i] == it);
        lemma_occurrences_at(s.take(j), i, it);
    } else if j < i {
        lemma_occurrences_at(s, i, it);
        assert(s.take(i)[j] == it);
        lemma_occurrences_at(s.take(i), j, it);
    }
}

/// An item that occurs stands somewhere.
proof fn lemma_occurs_somewhere(s: Seq<Item>, it: Item) -> (i: int)
    requires
        occurrences(s, it) > 0,
    ensures
        0 <= i < s.len(),
        s[i] == it,
    decreases s.len(),
{
    if s.len() == 0 {
        assert(false);
        0
    } else if s.last() == it {
        s.len() - 1
    } else {
        let i = lemma_occurs_somewhere(s.drop_last(), it);
        assert(s.drop_last()[i] == s[i]);
        i
    }
}

/// With links free of cycles, the draw order holds each cluster's open and its close,
/// each edge and each node exactly once, and nothing else: it is a permutation of those
/// items.
pub proof fn lemma_draw_order_is_permutation(
    ps: Seq<Option<usize>>,
    ns: Seq<Option<usize>>,
    es: Seq<Option<usize>>,
    it: Item,
)
    requires
        acyclic(ps),
        ps.len() <= usize::MAX,
        ns.len() <= usize::MAX,
        es.len() <= usize::MAX,
    ensures
        occurrences(draw_spec(ps, ns, es), it) == if drawable(
            it,
            ps.len() as nat,
            es.len() as nat,
            ns.len() as nat,
        ) {
            1nat
        } else {
            0nat
        },
{
    let (n, ne, nv) = (ps.len() as nat, es.len() as nat, ns.len() as nat);
    if drawable(it, n, ne, nv) {
        match it {
            Item::Open(c) => lemma_every_cluster_drawn_once(ps, ns, es, c),
            Item::Close(c) => lemma_every_cluster_drawn_once(ps, ns, es, c),
            Item::Edge(e) => lemma_every_edge_drawn_once(ps, ns, es, e as int),
            Item::Node(v) => lemma_every_node_drawn_once(ps, ns, es, v as int),
        }
    } else {
        lemma_draw_drawable(ps, ns, es);
        lemma_absent(draw_spec(ps, ns, es), it, n, ne, nv);
    }
}

/// With links free of cycles, the draw order has exactly one open and one close per
/// cluster, one entry per edge and one per node.
pub proof fn lemma_draw_order_length(
    ps: Seq<Option<usize>>,
    ns: Seq<Option<usize>>,
    es: Seq<Option<usize>>,
)
    requires
        acyclic(ps),
        ps.len() <= usize::MAX,
        ns.len() <= usize::MAX,
        es.len() <= usize::MAX,
    ensures
        draw_spec(ps, ns, es).len() == 2 * ps.len() + es.len() + ns.len(),
{
    let s = draw_spec(ps, ns, es);
    let (n, ne, nv) = (ps.len() as nat, es.len() as nat, ns.len() as nat);
    let u: int = (2 * n + ne + nv) as int;
    let m = s.map_values(|it: Item| slot(it, n, ne));
    lemma_draw_drawable(ps, ns, es);
    assert forall|i: int, j: int| 0 <= i < m.len() && 0 <= j < m.len() && i != j implies m[i]
        != m[j] by {
        assert(drawable(s[i], n, ne, nv));
        assert(drawable(s[j], n, ne, nv));
        if s[i] == s[j] {
            lemma_draw_order_is_permutation(ps, ns, es, s[i]);
            lemma_single_position(s, s[i], i, j);
        }
        assert(m[i] == slot(s[i], n, ne));
        assert(m[j] == slot(s[j], n, ne));
    }
    assert(m.no_duplicates());
    assert forall|k: int| m.to_set().contains(k) <==> vstd::set_lib::set_int_range(0, u).contains(k) by {
        if m.contains(k) {
            let i = choose|i: int| 0 <= i < m.len() && m[i] == k;
            assert(drawable(s[i], n, ne, nv));
            assert(m[i] == slot(s[i], n, ne));
        }
        if 0 <= k < u {
            let it = slot_item(k, n, ne);
            assert(drawable(it, n, ne, nv));
            assert(slot(it, n, ne) == k);
            lemma_draw_order_is_permutation(ps, ns, es, it);
            let i = lemma_occurs_somewhere(s, it);
            assert(m[i] == k);
        }
    }
    assert(m.to_set() =~= vstd::set_lib::set_int_range(0, u));
    m.unique_seq_to_set();
    vstd::set_lib::lemma_int_range(0, u);
}

/// A block inside a block stands at the sum of the offsets.
proof fn lemma_block_in_block(s: Seq<Item>, b: Seq<Item>, p: int, m: Seq<Item>, o: int)
    requires
        block_at(s, b, p),
        block_at(b, m, o),
    ensures
        block_at(s, m, p + o),
{
    assert forall|k: int| 0 <= k < m.len() implies s.subrange(p + o, p + o + m.len())[k] == m[k] by {
        assert(s.subrange(p, p + b.len())[o + k] == b[o + k]);
        assert(b.subrange(o, o + m.len())[k] == m[k]);
    }
    assert(s.subrange(p + o, p + o + m.len()) =~= m);
}

/// The items of a cluster of a list stand as one block in the list's items.
proof fn lemma_forest_block(
    ps: Seq<Option<usize>>,
    ns: Seq<Option<usize>>,
    es: Seq<Option<usize>>,
    cs: Seq<usize>,
    f: nat,
    y: usize,
) -> (o: int)
    requires
        cs.contains(y),
    ensures
        block_at(forest_items(ps, ns, es, cs, f), cluster_items(ps, ns, es, y, f), o),
    decreases cs.len(),
{
    let first = cluster_items(ps, ns, es, cs[0], f);
    let t = cs.skip(1);
    let rest = forest_items(ps, ns, es, t, f);
    assert(forest_items(ps, ns, es, cs, f) == first + rest);
    if cs[0] == y {
        assert((first + rest).subrange(0, first.len() as int) =~= first);
        0
    } else {
        let q = choose|q: int| 0 <= q < cs.len() && cs[q] == y;
        assert(q > 0);
        assert(t[q - 1] == y);
        let o1 = lemma_forest_block(ps, ns, es, t, f, y);
        let m = cluster_items(ps, ns, es, y, f);
        assert forall|k: int| 0 <= k < m.len() implies (first + rest).subrange(
            first.len() + o1,
            first.len() + o1 + m.len(),
        )[k] == m[k] by {
            assert(rest.subrange(o1, o1 + m.len())[k] == m[k]);
        }
        assert((first + rest).subrange(first.len() + o1, first.len() + o1 + m.len()) =~= m);
        first.len() + o1
    }
}

/// The parts of a cluster's items.
proof fn lemma_cluster_parts(
    ps: Seq<Option<usize>>,
    ns: Seq<Option<usize>>,
    es: Seq<Option<usize>>,
    x: usize,
    f: nat,
)
    requires
        f > 0,
    ensures
        ({
            let b = cluster_items(ps, ns, es, x, f);
            &&& b.len() >= 2
            &&& b[0] == Item::Open(x)
            &&& b[b.len() - 1] == Item::Close(x)
            &&& block_at(
                b,
                forest_items(ps, ns, es, members_of(ps, ps.len() as nat, Some(x)), (f - 1) as nat),
                1,
            )
        }),
{
    let n = ps.len() as nat;
    let fo = forest_items(ps, ns, es, members_of(ps, n, Some(x)), (f - 1) as nat);
    let eds = edge_items(members_of(es, n, Some(x)));
    let nds = node_items(members_of(ns, n, Some(x)));
    let a = seq![Item::Open(x)];
    let z = seq![Item::Close(x)];
    let b = cluster_items(ps, ns, es, x, f);
    assert(b == a + fo + eds + nds + z);
    assert(b[0] == Item::Open(x));
    assert(b[b.len() - 1] == Item::Close(x));
    assert forall|k: int| 0 <= k < fo.len() implies b.subrange(1, 1 + fo.len() as int)[k] == fo[k] by {
        assert(b[1 + k] == fo[k]);
    }
    assert(b.subrange(1, 1 + fo.len() as int) =~= fo);
}

/// A cluster whose chain of links takes `t` steps to its top-level cluster has its items,
/// with `n - t` levels of nesting, as one block of the draw order.
proof fn lemma_cluster_block(
    ps: Seq<Option<usize>>,
    ns: Seq<Option<usize>>,
    es: Seq<Option<usize>>,
    c: usize,
    t: nat,
) -> (p: int)
    requires
        acyclic(ps),
        c < ps.len(),
        up(ps, c, t) is Some,
        up(ps, c, t + 1) is None,
        ps.len() <= usize::MAX,
    ensures
        t < ps.len(),
        block_at(draw_spec(ps, ns, es), cluster_items(ps, ns, es, c, (ps.len() - t) as nat), p),
    decreases t,
{
    let n = ps.len();
    assert(up(ps, c, n as nat) is None);
    if t >= n {
        lemma_up_stays_none(ps, c, n as nat, t);
    }
    let s = draw_spec(ps, ns, es);
    if t == 0 {
        assert(up(ps, c, 1) == step_up(ps, c));
        assert(homed(ps[c as int], n as nat, None));
        lemma_members_contains(ps, n as nat, None, n as int, c as int);
        let roots = members_of(ps, n as nat, None);
        let o = lemma_forest_block(ps, ns, es, roots, n as nat, c);
        let fo = forest_items(ps, ns, es, roots, n as nat);
        let rest = edge_items(members_of(es, n as nat, None)) + node_items(
            members_of(ns, n as nat, None),
        );
        assert(s =~= fo + rest);
        assert(block_at(s, fo, 0)) by {
            assert(s.subrange(0, fo.len() as int) =~= fo);
        }
        lemma_block_in_block(s, fo, 0, cluster_items(ps, ns, es, c, n as nat), o);
        o
    } else {
        let t1 = (t - 1) as nat;
        if up(ps, c, 1) is None {
            lemma_up_stays_none(ps, c, 1, t);
        }
        let h = up(ps, c, 1)->0;
        assert(up(ps, c, 0) == Some(c));
        assert(step_up(ps, c) == Some(h));
        assert(ps[c as int] == Some(h) && h < n);
        lemma_up_compose(ps, c, 1, t1);
        lemma_up_compose(ps, c, 1, t);
        assert(1 + t1 == t);
        let p = lemma_cluster_block(ps, ns, es, h, t1);
        let fh = (n - t1) as nat;
        lemma_cluster_parts(ps, ns, es, h, fh);
        let kids = members_of(ps, n as nat, Some(h));
        lemma_members_contains(ps, n as nat, Some(h), n as int, c as int);
        assert(kids.contains(c));
        assert((fh - 1) as nat == (n - t) as nat);
        let o = lemma_forest_block(ps, ns, es, kids, (n - t) as nat, c);
        let fo = forest_items(ps, ns, es, kids, (n - t) as nat);
        let bh = cluster_items(ps, ns, es, h, fh);
        lemma_block_in_block(bh, fo, 1, cluster_items(ps, ns, es, c, (n - t) as nat), o);
        lemma_block_in_block(s, bh, p, cluster_items(ps, ns, es, c, (n - t) as nat), 1 + o);
        p + 1 + o
    }
}

/// Where the block of cluster `h` stands, and its nesting allowance.
proof fn lemma_home_block(
    ps: Seq<Option<usize>>,
    ns: Seq<Option<usize>>,
    es: Seq<Option<usize>>,
    h: usize,
) -> (r: (int, nat))
    requires
        acyclic(ps),
        h < ps.len(),
        ps.len() <= usize::MAX,
    ensures
        1 <= r.1 <= ps.len(),
        up(ps, h, (ps.len() - r.1) as nat) is Some,
        up(ps, h, (ps.len() - r.1 + 1) as nat) is None,
        block_at(draw_spec(ps, ns, es), cluster_items(ps, ns, es, h, r.1), r.0),
{
    let n = ps.len();
    assert(up(ps, h, n as nat) is None);
    lemma_chain_top(ps, h, n as nat);
    let t = choose|t: nat| t < n && (#[trigger] up(ps, h, t)) is Some && up(ps, h, t + 1) is None;
    let p = lemma_cluster_block(ps, ns, es, h, t);
    assert((n - (n - t)) as nat == t);
    (p, (n - t) as nat)
}

/// With links free of cycles, every cluster opens before it closes.
pub proof fn lemma_draw_order_opens_before_closing(
    ps: Seq<Option<usize>>,
    ns: Seq<Option<usize>>,
    es: Seq<Option<usize>>,
    c: usize,
    i: int,
    j: int,
)
    requires
        acyclic(ps),
        ps.len() <= usize::MAX,
        ns.len() <= usize::MAX,
        es.len() <= usize::MAX,
        0 <= i < draw_spec(ps, ns, es).len(),
        0 <= j < draw_spec(ps, ns, es).len(),
        draw_spec(ps, ns, es)[i] == Item::Open(c),
        draw_spec(ps, ns, es)[j] == Item::Close(c),
    ensures
        i < j,
{
    let s = draw_spec(ps, ns, es);
    lemma_draw_drawable(ps, ns, es);
    assert(drawable(s[i], ps.len() as nat, es.len() as nat, ns.len() as nat));
    lemma_draw_order_is_permutation(ps, ns, es, Item::Open(c));
    lemma_draw_order_is_permutation(ps, ns, es, Item::Close(c));
    let (p, f) = lemma_home_block(ps, ns, es, c);
    let b = cluster_items(ps, ns, es, c, f);
    lemma_cluster_parts(ps, ns, es, c, f);
    assert(s[p] == b[0]) by {
        assert(s.subrange(p, p + b.len())[0] == b[0]);
    }
    assert(s[p + b.len() - 1] == b[b.len() - 1]) by {
        assert(s.subrange(p, p + b.len())[b.len() - 1] == b[b.len() - 1]);
    }
    lemma_single_position(s, Item::Open(c), i, p);
    lemma_single_position(s, Item::Close(c), j, p + b.len() - 1);
}

/// With links free of cycles, everything a cluster holds (its nodes, its edges, and
/// the opens and closes of its child clusters) is drawn between the cluster's open and
/// its close.
pub proof fn lemma_draw_order_encloses(
    ps: Seq<Option<usize>>,
    ns: Seq<Option<usize>>,
    es: Seq<Option<usize>>,
    h: usize,
    i: int,
    j: int,
    k: int,
)
    requires
        acyclic(ps),
        ps.len() <= usize::MAX,
        ns.len() <= usize::MAX,
        es.len() <= usize::MAX,
        0 <= i < draw_spec(ps, ns, es).len(),
        0 <= j < draw_spec(ps, ns, es).len(),
        0 <= k < draw_spec(ps, ns, es).len(),
        draw_spec(ps, ns, es)[i] == Item::Open(h),
        draw_spec(ps, ns, es)[k] == Item::Close(h),
        held_by(draw_spec(ps, ns, es)[j], ps, ns, es, h),
    ensures
        i < j < k,
{
    let s = draw_spec(ps, ns, es);
    let n = ps.len();
    let it = s[j];
    lemma_draw_drawable(ps, ns, es);
    assert(drawable(s[i], n as nat, es.len() as nat, ns.len() as nat));
    assert(h < n);
    lemma_draw_order_is_permutation(ps, ns, es, Item::Open(h));
    lemma_draw_order_is_permutation(ps, ns, es, Item::Close(h));
    lemma_draw_order_is_permutation(ps, ns, es, it);
    let (p, f) = lemma_home_block(ps, ns, es, h);
    let t = (n - f) as nat;
    let b = cluster_items(ps, ns, es, h, f);
    lemma_cluster_parts(ps, ns, es, h, f);
    assert(up(ps, h, 0) == Some(h));
    assert(anc(ps, h, h, f));
    match it {
        Item::Node(v) => {
            lemma_cluster_count(ps, ns, es, h, f, v as int, h);
        },
        Item::Edge(e) => {
            lemma_cluster_count_edge(ps, ns, es, h, f, e as int, h);
        },
        Item::Open(c) | Item::Close(c) => {
            assert(step_up(ps, c) == Some(h));
            assert(up(ps, c, 1) == Some(h));
            if c == h {
                assert(up(ps, c, 0) == Some(c));
                lemma_up_no_repeat(ps, c, 0, 1);
            }
            lemma_up_compose(ps, c, 1, t);
            assert(up(ps, c, t + 1) is Some);
            assert(up(ps, c, n as nat) is None);
            if t + 1 >= n {
                lemma_up_stays_none(ps, c, n as nat, t + 1);
            }
            assert(1 < f);
            assert(anc(ps, c, h, f));
            lemma_cluster_count_box(ps, ns, es, h, f, c);
        },
    }
    assert(occurrences(b, it) == 1);
    let q = lemma_occurs_somewhere(b, it);
    assert(q != 0);
    assert(q != b.len() - 1);
    assert(s[p] == b[0]) by {
        assert(s.subrange(p, p + b.len())[0] == b[0]);
    }
    assert(s[p + b.len() - 1] == b[b.len() - 1]) by {
        assert(s.subrange(p, p + b.len())[b.len() - 1] == b[b.len() - 1]);
    }
    assert(s[p + q] == b[q]) by {
        assert(s.subrange(p, p + b.len())[q] == b[q]);
    }
    lemma_single_position(s, Item::Open(h), i, p);
    lemma_single_position(s, Item::Close(h), k, p + b.len() - 1);
    lemma_single_position(s, it, j, p + q);
}

} // verus!
