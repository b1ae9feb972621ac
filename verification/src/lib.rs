//! Merlion's parsing and SVG-writing core: source positions, label text, the YAML front
//! matter subset, URL and style checks, cluster resolution, the stylesheet subset, XML
//! escaping, theme tokens, the flowchart outline and the cluster draw order.

pub mod diag;
pub mod model;
pub mod options;
pub mod parse;
pub mod stylesheet;
pub mod svg;
pub mod text;
