//! Checks on the names that styles write into the output.

use vstd::prelude::*;

use crate::text::chars_of;

verus! {

pub open spec fn is_class_start(c: char) -> bool {
    ('a' <= c && c <= 'z') || ('A' <= c && c <= 'Z') || c == '_'
}

pub open spec fn is_class_char(c: char) -> bool {
    ('a' <= c && c <= 'z') || ('A' <= c && c <= 'Z') || ('0' <= c && c <= '9') || c == '_' || c
        == '-'
}

/// `[A-Za-z_][A-Za-z0-9_-]{0,63}`.
pub open spec fn class_name(s: Seq<char>) -> bool {
    &&& 1 <= s.len() <= 64
    &&& is_class_start(s[0])
    &&& forall|i: int| 0 <= i < s.len() ==> is_class_char(#[trigger] s[i])
}

/// `[A-Za-z_][A-Za-z0-9_-]{0,63}`: the accepted `classDef` name.
pub fn is_valid_class_name(name: &str) -> (r: bool)
    ensures
        r == class_name(name@),
{
    let cs = chars_of(name);
    if cs.len() == 0 || cs.len() > 64 {
        return false;
    }
    let c = cs[0];
    if !(('a' <= c && c <= 'z') || ('A' <= c && c <= 'Z') || c == '_') {
        return false;
    }
    let mut i: usize = 0;
    while i < cs.len()
        invariant
            cs@ == name@,
            i <= cs@.len(),
            forall|k: int| 0 <= k < i ==> is_class_char(#[trigger] cs@[k]),
        decreases cs@.len() - i,
    {
        let c = cs[i];
        if !(('a' <= c && c <= 'z') || ('A' <= c && c <= 'Z') || ('0' <= c && c <= '9') || c
            == '_' || c == '-') {
            return false;
        }
        i += 1;
    }
    true
}

} // verus!
