//! The flowchart model the writers read: nodes, edges and clusters by index.

use vstd::prelude::*;

use crate::diag::Span;
use crate::options::Direction;
use crate::svg::outline::Arrow;

verus! {

/// How an edge's line is drawn; an invisible edge only shapes the layout.
#[derive(Clone, Copy, Debug, PartialEq, Eq)]
pub enum Stroke {
    Normal,
    Thick,
    Dotted,
    Invisible,
}

/// A node's shape.
#[derive(Clone, Copy, Debug, PartialEq, Eq)]
pub enum Shape {
    Asymmetric,
    Bolt,
    BowTieRect,
    BraceLeft,
    BraceRight,
    Braces,
    Circle,
    CrossedCircle,
    CurvedTrapezoid,
    Cylinder,
    DataStore,
    Delay,
    DividedRect,
    Document,
    DoubleCircle,
    FilledCircle,
    Flag,
    FlippedTriangle,
    Fork,
    FramedCircle,
    Hexagon,
    HorizontalCylinder,
    Hourglass,
    LinedCylinder,
    LinedDocument,
    LinedRect,
    NotchedPentagon,
    NotchedRect,
    Parallelogram,
    ParallelogramAlt,
    Rect,
    Rhombus,
    Round,
    SlopedRect,
    SmallCircle,
    StackedDocument,
    StackedRect,
    Stadium,
    Subroutine,
    TaggedDocument,
    TaggedRect,
    TextBlock,
    Trapezoid,
    TrapezoidAlt,
    Triangle,
    WindowPane,
}

/// A `click` link: its URL, and whether it opens in a new tab.
#[derive(Clone, Debug)]
pub struct Link {
    pub url: String,
    pub target_blank: bool,
}

/// A node: its id, its label text, its shape, the cluster it sits in directly, its
/// classes, its link and where it was first written.
#[derive(Clone, Debug)]
pub struct Node {
    pub id: String,
    pub label: String,
    pub shape: Shape,
    pub subgraph: Option<usize>,
    pub classes: Vec<String>,
    pub link: Option<Link>,
    pub span: Span,
}

/// An edge between two nodes, by index, with its end markers, optional label, length
/// in ranks and source span.
#[derive(Clone, Debug)]
pub struct Edge {
    pub from: usize,
    pub to: usize,
    pub label: Option<String>,
    pub stroke: Stroke,
    pub arrow_start: Arrow,
    pub arrow_end: Arrow,
    pub min_len: u32,
    pub span: Span,
}

/// A cluster (`subgraph`): its id, its title, the cluster it nests in, its member nodes,
/// its own direction, its classes and its source span.
#[derive(Clone, Debug)]
pub struct Subgraph {
    pub id: String,
    pub title: String,
    pub parent: Option<usize>,
    pub nodes: Vec<usize>,
    pub direction: Option<Direction>,
    pub classes: Vec<String>,
    pub span: Span,
}

/// A flowchart as the writers read it.
#[derive(Clone, Debug)]
pub struct Flowchart {
    pub nodes: Vec<Node>,
    pub edges: Vec<Edge>,
    pub subgraphs: Vec<Subgraph>,
}

} // verus!
