use merlion_render::options::Direction;
use merlion_render::svg::outline::{arrow_glyph, count, direction_phrase, outline, plain_label, Arrow};

#[test]
fn plain_label_strips_markup() {
    assert_eq!(plain_label("a\nb\nc\nd"), "a b c d");
    // A `<br>` in the label is text the source escaped, not a break.
    assert_eq!(plain_label("a<br>b"), "a<br>b");
    assert_eq!(plain_label("**bold** and *it* `code`"), "bold and it code");
    assert_eq!(plain_label("2 * 3"), "2 * 3");
    assert_eq!(plain_label("  lots   of\tspace "), "lots of space");
    assert_eq!(plain_label("<b>html</b>"), "<b>html</b>");
    assert_eq!(plain_label("a\u{0}b"), "ab");
}

#[test]
fn odd_delimiters_stay_literal() {
    assert_eq!(plain_label("***x**"), "*x");
    assert_eq!(plain_label("`a` `b"), "a `b");
    assert_eq!(plain_label("*a* *b* *"), "a b *");
    assert_eq!(plain_label(""), "");
    assert_eq!(plain_label(" \n "), "");
    assert_eq!(plain_label("a\u{202e}b"), "ab");
}

#[test]
fn arrow_glyphs() {
    assert_eq!(arrow_glyph(Arrow::Plain, Arrow::Arrow), "→");
    assert_eq!(arrow_glyph(Arrow::Circle, Arrow::Cross), "↔");
    assert_eq!(arrow_glyph(Arrow::Plain, Arrow::Plain), "—");
    assert_eq!(arrow_glyph(Arrow::Arrow, Arrow::Plain), "←");
}

#[test]
fn directions_read_as_words() {
    assert_eq!(direction_phrase(Direction::TB), "top to bottom");
    assert_eq!(direction_phrase(Direction::BT), "bottom to top");
    assert_eq!(direction_phrase(Direction::LR), "left to right");
    assert_eq!(direction_phrase(Direction::RL), "right to left");
}

#[test]
fn counts_pick_the_noun_by_number() {
    let mut out = String::from("Flowchart, ");
    count(&mut out, 1, "node", "nodes");
    out.push_str(", ");
    count(&mut out, 0, "edge", "edges");
    out.push_str(", ");
    count(&mut out, 1234, "edge", "edges");
    assert_eq!(out, "Flowchart, 1 node, 0 edges, 1234 edges");
}

use merlion_render::diag::Span;
use merlion_render::model::{Edge, Flowchart, Node, Shape, Stroke, Subgraph};

fn node(id: &str, label: &str, subgraph: Option<usize>) -> Node {
    Node {
        id: String::from(id),
        label: String::from(label),
        shape: Shape::Rect,
        subgraph,
        classes: Vec::new(),
        link: None,
        span: Span::default(),
    }
}

fn edge(from: usize, to: usize, label: Option<&str>, stroke: Stroke) -> Edge {
    Edge {
        from,
        to,
        label: label.map(String::from),
        stroke,
        arrow_start: Arrow::Plain,
        arrow_end: Arrow::Arrow,
        min_len: 1,
        span: Span::default(),
    }
}

fn sub(id: &str, title: &str, parent: Option<usize>) -> Subgraph {
    Subgraph {
        id: String::from(id),
        title: String::from(title),
        parent,
        nodes: Vec::new(),
        direction: None,
        classes: Vec::new(),
        span: Span::default(),
    }
}

#[test]
fn outline_lists_edges_by_source_with_cluster_headings() {
    let chart = Flowchart {
        nodes: vec![
            node("s", "Source .md", Some(0)),
            node("h", "Has mermaid?", None),
            node("r", "Render SVG", None),
            node("p", "Pass through", None),
            node("c", "Cache", None),
        ],
        edges: vec![
            edge(0, 1, None, Stroke::Normal),
            edge(1, 2, Some("yes"), Stroke::Normal),
            edge(1, 3, Some("no"), Stroke::Normal),
            edge(2, 4, None, Stroke::Thick),
        ],
        subgraphs: vec![sub("b", "Build", None)],
    };
    assert_eq!(
        outline(&chart, Direction::LR),
        "Flowchart, left to right. 5 nodes, 4 edges.\n\
         Build: Source .md → Has mermaid?\n\
         Has mermaid? → Render SVG [yes]; → Pass through [no]\n\
         Render SVG → Cache"
    );
}

#[test]
fn outline_skips_invisible_edges_and_lists_lone_nodes_and_empty_clusters() {
    let chart = Flowchart {
        nodes: vec![
            node("a", "", Some(1)),
            node("b", "**B**", None),
            node("c", "C", None),
        ],
        edges: vec![
            edge(0, 1, Some("  "), Stroke::Dotted),
            edge(1, 2, None, Stroke::Invisible),
            edge(1, 9, None, Stroke::Normal),
        ],
        subgraphs: vec![
            sub("outer", "Outer", None),
            sub("inner", "", Some(0)),
            sub("empty", "Empty", Some(0)),
        ],
    };
    assert_eq!(
        outline(&chart, Direction::TB),
        "Flowchart, top to bottom. 3 nodes, 2 edges.\n\
         Outer / inner: a → B\n\
         B → ?\n\
         C\n\
         Outer / Empty:"
    );
}

#[test]
fn outline_counts_in_the_singular() {
    let chart = Flowchart {
        nodes: vec![node("x", "X", None)],
        edges: vec![edge(0, 0, None, Stroke::Normal)],
        subgraphs: vec![],
    };
    assert_eq!(
        outline(&chart, Direction::RL),
        "Flowchart, right to left. 1 node, 1 edge.\nX → X"
    );
}

#[test]
fn plain_labels_are_single_spaced() {
    for raw in ["  a \n\n b\t\tc ", "**x**\u{2028}y", "\u{202e}  z  ", "p\u{85}q"] {
        let l = plain_label(raw);
        assert!(!l.starts_with(' ') && !l.ends_with(' '));
        assert!(!l.contains("  "));
        assert!(l.chars().all(|c| c == ' ' || !c.is_whitespace()));
    }
}
