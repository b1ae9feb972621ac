//! Flowchart source text: identifier characters, direction tokens and class names.

use vstd::prelude::*;

use crate::options::Direction;
use crate::text::{alphanumeric, chars_of, eq_ignore_case, is_alphanumeric, range_eq_ignore_case};

verus! {

/// A character that may appear in a node id: alphanumeric or `_`.
pub open spec fn id_char(c: char) -> bool {
    alphanumeric(c) || c == '_'
}

/// Whether `c` may appear in a node id.
pub fn is_id_char(c: char) -> (r: bool)
    ensures
        r == id_char(c),
{
    is_alphanumeric(c) || c == '_'
}

/// The direction a header token names, ignoring ASCII case: `TB`, `TD` or `V` top to
/// bottom, `BT` or `^` bottom to top, `LR` or `>` left to right, `RL` or `<` right to
/// left.
pub open spec fn direction_of(tok: Seq<char>) -> Option<Direction> {
    if eq_ignore_case(tok, "TB"@) || eq_ignore_case(tok, "TD"@) || eq_ignore_case(tok, "V"@) {
        Some(Direction::TB)
    } else if eq_ignore_case(tok, "BT"@) || eq_ignore_case(tok, "^"@) {
        Some(Direction::BT)
    } else if eq_ignore_case(tok, "LR"@) || eq_ignore_case(tok, ">"@) {
        Some(Direction::LR)
    } else if eq_ignore_case(tok, "RL"@) || eq_ignore_case(tok, "<"@) {
        Some(Direction::RL)
    } else {
        None
    }
}

/// The direction the token `tok` names, if any.
pub fn parse_direction(tok: &str) -> (r: Option<Direction>)
    ensures
        r == direction_of(tok@),
{
    let cs = chars_of(tok);
    let n = cs.len();
    assert(cs@.subrange(0, n as int) =~= cs@);
    if range_eq_ignore_case(&cs, 0, n, "TB") || range_eq_ignore_case(&cs, 0, n, "TD")
        || range_eq_ignore_case(&cs, 0, n, "V") {
        Some(Direction::TB)
    } else if range_eq_ignore_case(&cs, 0, n, "BT") || range_eq_ignore_case(&cs, 0, n, "^") {
        Some(Direction::BT)
    } else if range_eq_ignore_case(&cs, 0, n, "LR") || range_eq_ignore_case(&cs, 0, n, ">") {
        Some(Direction::LR)
    } else if range_eq_ignore_case(&cs, 0, n, "RL") || range_eq_ignore_case(&cs, 0, n, "<") {
        Some(Direction::RL)
    } else {
        None
    }
}

/// `[A-Za-z_][A-Za-z0-9_-]{0,63}`: a class name `classDef` and `class` accept.
pub fn valid_class_name(name: &str) -> (r: bool)
    ensures
        r == crate::svg::color::class_name(name@),
{
    crate::svg::color::is_valid_class_name(name)
}

} // verus!
