use merlion_render::diag::{Diagnostic, Severity};
use merlion_render::diag::Span;
use merlion_render::model::{Edge, Flowchart, Link, Shape, Stroke};
use merlion_render::parse::cursor::LineIndex;
use merlion_render::parse::finish::{finish as finish_with, FlowBuild, NodeBuild, Op, SubBuild};
use merlion_render::svg::outline::Arrow;

fn node(id: &str, subgraph: Option<usize>, shaped: bool) -> NodeBuild {
    NodeBuild {
        id: String::from(id),
        label: String::from(id),
        shape: Shape::Rect,
        subgraph,
        span: Span::default(),
        shaped,
        declared: true,
        first_id: (0, 0),
    }
}

fn edge(from: usize, to: usize) -> Edge {
    Edge {
        from,
        to,
        label: Some(String::from("l")),
        stroke: Stroke::Normal,
        arrow_start: Arrow::Plain,
        arrow_end: Arrow::Arrow,
        min_len: 2,
        span: Span { line: 1, column: 1, byte_start: 0, byte_end: 3 },
    }
}

fn sub(id: &str, parent: Option<usize>) -> SubBuild {
    SubBuild { id: String::from(id), title: String::new(), parent, direction: None, span: Span::default() }
}

fn finish(b: &FlowBuild) -> Flowchart {
    let idx = LineIndex::new("");
    let mut diags: Vec<Diagnostic> = Vec::new();
    let chart = finish_with(b, &idx, &mut diags);
    assert!(diags.is_empty());
    chart
}

fn ids(chart: &Flowchart) -> Vec<&str> {
    chart.nodes.iter().map(|n| n.id.as_str()).collect()
}

fn ends(chart: &Flowchart) -> Vec<(usize, usize)> {
    chart.edges.iter().map(|e| (e.from, e.to)).collect()
}

#[test]
fn an_edge_to_a_subgraph_lands_on_its_first_member() {
    let b = FlowBuild {
        nodes: vec![
            node("a", Some(0), true),
            node("b", Some(0), true),
            node("x", None, true),
            node("s", None, false),
        ],
        edges: vec![edge(2, 3)],
        subs: vec![sub("s", None)],
        ops: vec![],
        link_styles: vec![],
    };
    let chart = finish(&b);
    assert_eq!(ids(&chart), vec!["a", "b", "x"]);
    assert_eq!(ends(&chart), vec![(2, 0)]);
    assert_eq!(chart.edges[0].label.as_deref(), Some("l"));
    assert_eq!(chart.edges[0].min_len, 2);
    assert_eq!(chart.edges[0].span.byte_end, 3);
    assert_eq!(chart.subgraphs[0].nodes, vec![0, 1]);
}

#[test]
fn a_subgraph_named_inside_another_nests_there() {
    let b = FlowBuild {
        nodes: vec![node("inner", Some(0), false), node("m", Some(1), true)],
        edges: vec![],
        subs: vec![sub("outer", None), sub("inner", None)],
        ops: vec![],
        link_styles: vec![],
    };
    let chart = finish(&b);
    assert_eq!(ids(&chart), vec!["m"]);
    assert_eq!(chart.nodes[0].subgraph, Some(1));
    assert_eq!(chart.subgraphs.len(), 2);
    assert_eq!(chart.subgraphs[0].parent, None);
    assert_eq!(chart.subgraphs[1].id, "inner");
    assert_eq!(chart.subgraphs[1].parent, Some(0));
}

#[test]
fn a_nesting_that_closes_a_cycle_is_not_made() {
    // `b` is inside `a`; naming `a` inside `b` would loop, so `a` stays top-level and the
    // naming node stays a node.
    let b = FlowBuild {
        nodes: vec![node("a", Some(1), false)],
        edges: vec![],
        subs: vec![sub("a", None), sub("b", Some(0))],
        ops: vec![],
        link_styles: vec![],
    };
    let chart = finish(&b);
    assert_eq!(ids(&chart), vec!["a"]);
    assert_eq!(chart.subgraphs[0].parent, None);
    assert_eq!(chart.subgraphs[1].parent, Some(0));
}

#[test]
fn parents_come_before_their_children() {
    let b = FlowBuild {
        nodes: vec![node("n", Some(0), true)],
        edges: vec![],
        subs: vec![sub("child", Some(1)), sub("parent", None)],
        ops: vec![],
        link_styles: vec![],
    };
    let chart = finish(&b);
    assert_eq!(chart.subgraphs[0].id, "parent");
    assert_eq!(chart.subgraphs[1].id, "child");
    assert_eq!(chart.subgraphs[1].parent, Some(0));
    assert_eq!(chart.nodes[0].subgraph, Some(1));
}

#[test]
fn an_edge_between_a_subgraph_and_its_member_is_dropped() {
    let b = FlowBuild {
        nodes: vec![node("a", Some(0), true), node("s", None, false)],
        edges: vec![edge(1, 0), edge(0, 0)],
        subs: vec![sub("s", None)],
        ops: vec![],
        link_styles: vec![],
    };
    let chart = finish(&b);
    assert_eq!(ids(&chart), vec!["a"]);
    assert_eq!(ends(&chart), vec![(0, 0)]);
}

#[test]
fn an_empty_subgraph_endpoint_stays_a_node() {
    let b = FlowBuild {
        nodes: vec![node("x", None, true), node("e", None, false)],
        edges: vec![edge(0, 1)],
        subs: vec![sub("e", None)],
        ops: vec![],
        link_styles: vec![],
    };
    let chart = finish(&b);
    assert_eq!(ids(&chart), vec!["x", "e"]);
    assert_eq!(ends(&chart), vec![(0, 1)]);
}

#[test]
fn a_subgraph_nested_into_a_later_one_moves_after_it() {
    // `outer` is named inside `inner`, which is declared later: it nests there and the
    // clusters come out parent first.
    let b = FlowBuild {
        nodes: vec![node("outer", Some(1), false), node("m", Some(0), true)],
        edges: vec![],
        subs: vec![sub("outer", None), sub("inner", None)],
        ops: vec![],
        link_styles: vec![],
    };
    let chart = finish(&b);
    assert_eq!(ids(&chart), vec!["m"]);
    assert_eq!(chart.subgraphs[0].id, "inner");
    assert_eq!(chart.subgraphs[0].parent, None);
    assert_eq!(chart.subgraphs[1].id, "outer");
    assert_eq!(chart.subgraphs[1].parent, Some(0));
    assert_eq!(chart.nodes[0].subgraph, Some(1));
}

#[test]
fn a_node_never_declared_gets_a_label_repair() {
    let src = "flowchart LR\n  A --> s\n  B[Bee] --> C";
    let idx = LineIndex::new(src);
    let mut a = node("A", None, false);
    a.declared = false;
    a.first_id = (15, 16);
    let mut c = node("C", None, false);
    c.declared = false;
    c.first_id = (36, 37);
    let mut s = node("s", None, false);
    s.declared = false;
    s.first_id = (21, 22);
    let b = FlowBuild {
        nodes: vec![a, s, node("B", None, true), c],
        edges: vec![edge(0, 1), edge(2, 3)],
        subs: vec![sub("s", None)],
        ops: vec![],
        link_styles: vec![],
    };
    let mut diags: Vec<Diagnostic> = Vec::new();
    let chart = finish_with(&b, &idx, &mut diags);
    assert_eq!(ids(&chart), vec!["A", "s", "B", "C"]);
    // `s` names a subgraph, so it is not a typo.
    assert_eq!(diags.len(), 2);
    let d = &diags[0];
    assert_eq!(d.severity, Severity::Repair);
    assert_eq!(d.code, "R005");
    assert_eq!(d.message, "node `A` is never declared; declared with its id as the label");
    assert_eq!((d.span.line, d.span.column, d.span.byte_start, d.span.byte_end), (2, 3, 15, 16));
    let f = d.fix.as_ref().unwrap();
    assert_eq!(f.replacement, "[A]");
    assert_eq!((f.span.byte_start, f.span.byte_end), (16, 16));
    assert_eq!(diags[1].message, "node `C` is never declared; declared with its id as the label");
    assert_eq!((diags[1].span.line, diags[1].span.column), (3, 14));
}

#[test]
fn classes_clicks_and_styles_apply_in_order() {
    let b = FlowBuild {
        nodes: vec![node("a", Some(0), true), node("b", None, true)],
        edges: vec![],
        subs: vec![sub("g", None)],
        ops: vec![
            Op::Class { id: String::from("a"), class: String::from("hot") },
            Op::Class { id: String::from("a"), class: String::from("cold") },
            Op::Class { id: String::from("a"), class: String::from("hot") },
            Op::Class { id: String::from("g"), class: String::from("box") },
            Op::Class { id: String::from("nope"), class: String::from("x") },
            Op::Click {
                id: String::from("b"),
                link: Link { url: String::from("https://a"), target_blank: false },
            },
            Op::Click {
                id: String::from("b"),
                link: Link { url: String::from("https://b"), target_blank: true },
            },
            Op::Style { id: String::from("g"), span: Span::default() },
            Op::Style { id: String::from("ghost"), span: Span::default() },
        ],
        link_styles: vec![],
    };
    let idx = LineIndex::new("");
    let mut diags: Vec<Diagnostic> = Vec::new();
    let chart = finish_with(&b, &idx, &mut diags);
    assert_eq!(chart.nodes[0].classes, vec!["hot", "cold"]);
    assert!(chart.nodes[0].link.is_none());
    assert!(chart.nodes[1].classes.is_empty());
    let l = chart.nodes[1].link.as_ref().unwrap();
    assert_eq!((l.url.as_str(), l.target_blank), ("https://b", true));
    assert_eq!(chart.subgraphs[0].classes, vec!["box"]);
    assert_eq!(chart.subgraphs[0].nodes, vec![0]);
    assert_eq!(diags.len(), 1);
    assert_eq!(diags[0].code, "W010");
    assert_eq!(diags[0].severity, Severity::Warning);
    assert_eq!(diags[0].message, "style target `ghost` is not a node; ignored");
    assert!(diags[0].fix.is_none());
}

#[test]
fn a_link_style_index_past_the_edges_is_reported() {
    let far = Span { line: 4, column: 11, byte_start: 40, byte_end: 42 };
    let b = FlowBuild {
        nodes: vec![node("a", None, true), node("b", None, true)],
        edges: vec![edge(0, 1)],
        subs: vec![],
        ops: vec![],
        link_styles: vec![vec![(0, Span::default()), (12, far)], vec![(1, far)]],
    };
    let idx = LineIndex::new("");
    let mut diags: Vec<Diagnostic> = Vec::new();
    finish_with(&b, &idx, &mut diags);
    assert_eq!(diags.len(), 2);
    assert_eq!(diags[0].code, "W010");
    assert_eq!(
        diags[0].message,
        "linkStyle index 12 is out of range: the diagram has 1 edges; ignored"
    );
    assert_eq!(diags[0].span, far);
    assert_eq!(
        diags[1].message,
        "linkStyle index 1 is out of range: the diagram has 1 edges; ignored"
    );
}
