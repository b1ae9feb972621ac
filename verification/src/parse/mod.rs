//! Parsers: source positions, front matter, label text, URL rules, repairs, typed styles
//! and the per-diagram source text.

pub mod config;
pub mod cursor;
pub mod directive;
pub mod edge;
pub mod finish;
pub mod flowchart;
pub mod frontmatter;
pub mod label;
pub mod link;
pub mod repair;
pub mod sequence;
pub mod state;
pub mod style;
