//! Link URL re-check. The parser already validates `click … href` URLs; the draw stage
//! checks again so a hand-built or corrupted model cannot put an active URL into the
//! output.

use vstd::prelude::*;

use crate::parse::link::{
    allowed_scheme, before_colon, colon_index, index_from, is_alpha_char, is_scheme,
    is_scheme_char, prepare, prepared, scheme_allowed,
};
use crate::text::string_from_chars;

verus! {

/// Whether the draw stage writes the prepared URL `u`: it has no scheme per the WHATWG
/// grammar, or its scheme is an accepted one.
pub open spec fn href_accepts(u: Seq<char>) -> bool {
    match before_colon(u) {
        None => true,
        Some(s) => !is_scheme(s) || scheme_allowed(s),
    }
}

/// Whether `u[..n]` matches `[A-Za-z][A-Za-z0-9+.-]*`.
fn scheme_shape(u: &Vec<char>, n: usize) -> (r: bool)
    requires
        n <= u@.len(),
    ensures
        r == is_scheme(u@.take(n as int)),
{
    if n == 0 {
        return false;
    }
    let c = u[0];
    if !(('a' <= c && c <= 'z') || ('A' <= c && c <= 'Z')) {
        return false;
    }
    let mut i: usize = 1;
    while i < n
        invariant
            1 <= i <= n <= u@.len(),
            forall|k: int| 1 <= k < i ==> is_scheme_char(u@[k]),
        decreases n - i,
    {
        let c = u[i];
        if !(('a' <= c && c <= 'z') || ('A' <= c && c <= 'Z') || ('0' <= c && c <= '9') || c
            == '+' || c == '.' || c == '-') {
            assert(!is_scheme_char(u@.take(n as int)[i as int]));
            return false;
        }
        i += 1;
    }
    assert(is_alpha_char(u@.take(n as int)[0]));
    assert forall|k: int| 1 <= k < n implies is_scheme_char(u@.take(n as int)[k]) by {
        assert(u@.take(n as int)[k] == u@[k]);
    }
    true
}

/// The URL to write, or `None` when it is rejected.
///
/// ASCII tab, newline and carriage return are removed (as browsers do before parsing),
/// leading and trailing C0 controls and spaces are trimmed, and the scheme is checked on
/// the trimmed text. A URL is accepted when it has no scheme (relative) or its scheme,
/// compared case-insensitively, is `https`, `http` or `mailto`.
pub fn safe_href(url: &str) -> (r: Option<String>)
    ensures
        r is Some <==> prepared(url@).len() > 0 && href_accepts(prepared(url@)),
        r matches Some(u) ==> u@ == prepared(url@),
{
    let u = prepare(url);
    if u.len() == 0 {
        return None;
    }
    let colon = colon_index(&u);
    if colon < u.len() {
        if scheme_shape(&u, colon) && !allowed_scheme(&u, colon) {
            return None;
        }
    }
    Some(string_from_chars(&u, 0, u.len()))
}

} // verus!
