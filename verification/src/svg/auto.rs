//! Automatic tones: with `auto_tone` on, an element with no class and no style takes a
//! built-in role by its shape: decisions `warn`, stores `store`, terminals `ok`.

use vstd::prelude::*;

use crate::model::Shape;

verus! {

/// The marker class of an element whose role is automatic.
pub const MARKER: &'static str = "merlion-auto";

/// The number of series tones top-level clusters cycle through.
pub const SERIES: usize = 8;

/// The built-in role a node shape takes automatically: rhombus and hexagon `warn`,
/// cylinder `store`, stadium, circle and double circle `ok`; no other shape takes one.
pub open spec fn auto_role(shape: Shape) -> Option<Seq<char>> {
    match shape {
        Shape::Rhombus | Shape::Hexagon => Some("warn"@),
        Shape::Cylinder => Some("store"@),
        Shape::Stadium | Shape::Circle | Shape::DoubleCircle => Some("ok"@),
        _ => None,
    }
}

/// The built-in role a node shape takes automatically.
pub fn node_role(shape: Shape) -> (r: Option<&'static str>)
    ensures
        match r {
            Some(s) => auto_role(shape) == Some(s@),
            None => auto_role(shape) is None,
        },
{
    match shape {
        Shape::Rhombus | Shape::Hexagon => Some("warn"),
        Shape::Cylinder => Some("store"),
        Shape::Stadium | Shape::Circle | Shape::DoubleCircle => Some("ok"),
        _ => None,
    }
}

} // verus!
