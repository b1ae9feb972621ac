//! SVG output helpers.

pub mod auto;
pub mod color;
pub mod escape;
pub mod link;
pub mod outline;
pub mod roles;
pub mod sequence;
pub mod style;
pub mod theme;
pub mod tree;
