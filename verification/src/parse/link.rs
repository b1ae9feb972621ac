//! `click … href` URL rules.
//!
//! The check follows the WHATWG URL parser's preprocessing so that it judges the scheme
//! a browser would see: ASCII tab, newline and carriage return are removed everywhere,
//! and leading and trailing C0 controls and spaces are trimmed. The URL is then
//! accepted when it is relative (no scheme) or its scheme, compared case-insensitively,
//! is `https`, `http` or `mailto`.

use vstd::prelude::*;

use crate::text::{chars_of, eq_ignore_case, range_eq_ignore_case, string_from_chars};

verus! {

/// Tab, line feed or carriage return: removed everywhere before anything else.
pub open spec fn is_url_removed(c: char) -> bool {
    c == '\t' || c == '\n' || c == '\r'
}

/// A C0 control or a space: trimmed at both ends.
pub open spec fn is_url_trimmed(c: char) -> bool {
    (c as u32) <= 0x20
}

/// `cs` without tabs, line feeds and carriage returns.
pub open spec fn cleaned(cs: Seq<char>) -> Seq<char>
    decreases cs.len(),
{
    if cs.len() == 0 {
        Seq::<char>::empty()
    } else if is_url_removed(cs.last()) {
        cleaned(cs.drop_last())
    } else {
        cleaned(cs.drop_last()).push(cs.last())
    }
}

/// Index of the first character at or after `i` that is not trimmed.
pub open spec fn lead_end(cs: Seq<char>, i: int) -> int
    decreases cs.len() - i,
{
    if 0 <= i < cs.len() && is_url_trimmed(cs[i]) {
        lead_end(cs, i + 1)
    } else {
        i
    }
}

/// Index just past the last character before `j` (and after `lo`) that is not trimmed.
pub open spec fn trail_start(cs: Seq<char>, lo: int, j: int) -> int
    decreases j - lo,
{
    if lo < j <= cs.len() && is_url_trimmed(cs[j - 1]) {
        trail_start(cs, lo, j - 1)
    } else {
        j
    }
}

/// `cs` with leading and trailing C0 controls and spaces removed.
pub open spec fn trimmed(cs: Seq<char>) -> Seq<char> {
    let lo = lead_end(cs, 0);
    cs.subrange(lo, trail_start(cs, lo, cs.len() as int))
}

/// The URL after the browser's preprocessing.
pub open spec fn prepared(raw: Seq<char>) -> Seq<char> {
    trimmed(cleaned(raw))
}

/// Index of the first `c` at or after `i`, or the length when there is none.
pub open spec fn index_from(cs: Seq<char>, c: char, i: int) -> int
    decreases cs.len() - i,
{
    if i >= cs.len() {
        cs.len() as int
    } else if cs[i] == c {
        i
    } else {
        index_from(cs, c, i + 1)
    }
}

pub open spec fn is_scheme_char(c: char) -> bool {
    ('a' <= c && c <= 'z') || ('A' <= c && c <= 'Z') || ('0' <= c && c <= '9') || c == '+'
        || c == '.' || c == '-'
}

pub open spec fn is_alpha_char(c: char) -> bool {
    ('a' <= c && c <= 'z') || ('A' <= c && c <= 'Z')
}

/// `[A-Za-z][A-Za-z0-9+.-]*`.
pub open spec fn is_scheme(s: Seq<char>) -> bool {
    s.len() > 0 && is_alpha_char(s[0]) && forall|k: int| 1 <= k < s.len() ==> is_scheme_char(s[k])
}

/// One of the accepted schemes.
pub open spec fn scheme_allowed(s: Seq<char>) -> bool {
    eq_ignore_case(s, "https"@) || eq_ignore_case(s, "http"@) || eq_ignore_case(s, "mailto"@)
}

/// A path, query or fragment delimiter.
pub open spec fn is_delim(c: char) -> bool {
    c == '/' || c == '?' || c == '#'
}

/// The text before the first `:`, when there is a `:`.
pub open spec fn before_colon(u: Seq<char>) -> Option<Seq<char>> {
    let colon = index_from(u, ':', 0);
    if colon < u.len() {
        Some(u.take(colon))
    } else {
        None
    }
}

/// Whether the parser accepts the prepared URL `u`: it has no scheme (no `:`, an
/// empty text before it, or a path, query or fragment delimiter before it), or its
/// scheme is an accepted one.
pub open spec fn parser_accepts(u: Seq<char>) -> bool {
    match before_colon(u) {
        None => true,
        Some(cand) => cand.len() == 0 || (exists|k: int| 0 <= k < cand.len() && is_delim(cand[k]))
            || scheme_allowed(cand),
    }
}

pub proof fn lemma_index_from(cs: Seq<char>, c: char, i: int)
    requires
        0 <= i <= cs.len(),
    ensures
        i <= index_from(cs, c, i) <= cs.len(),
        index_from(cs, c, i) < cs.len() ==> cs[index_from(cs, c, i)] == c,
        forall|k: int| i <= k < index_from(cs, c, i) ==> cs[k] != c,
    decreases cs.len() - i,
{
    if i < cs.len() && cs[i] != c {
        lemma_index_from(cs, c, i + 1);
    }
}

/// The characters of `raw` after removing tabs, line feeds and carriage returns and
/// trimming C0 controls and spaces at both ends.
pub(crate) fn prepare(raw: &str) -> (r: Vec<char>)
    ensures
        r@ == prepared(raw@),
{
    let cs = chars_of(raw);
    let mut v: Vec<char> = Vec::new();
    let mut i: usize = 0;
    while i < cs.len()
        invariant
            cs@ == raw@,
            i <= cs@.len(),
            v@ == cleaned(cs@.take(i as int)),
        decreases cs@.len() - i,
    {
        let c = cs[i];
        if !(c == '\t' || c == '\n' || c == '\r') {
            v.push(c);
        }
        proof {
            assert(cs@.take(i + 1).drop_last() =~= cs@.take(i as int));
        }
        i += 1;
    }
    proof {
        assert(cs@.take(cs@.len() as int) =~= cs@);
    }
    let mut lo: usize = 0;
    while lo < v.len() && (v[lo] as u32) <= 0x20
        invariant
            lo <= v@.len(),
            lead_end(v@, lo as int) == lead_end(v@, 0),
        decreases v@.len() - lo,
    {
        lo += 1;
    }
    let mut hi: usize = v.len();
    while hi > lo && (v[hi - 1] as u32) <= 0x20
        invariant
            lo <= hi <= v@.len(),
            lo == lead_end(v@, 0),
            trail_start(v@, lo as int, hi as int) == trail_start(v@, lo as int, v@.len() as int),
        decreases hi,
    {
        hi -= 1;
    }
    let mut out: Vec<char> = Vec::new();
    let mut k = lo;
    while k < hi
        invariant
            lo <= k <= hi <= v@.len(),
            out@ == v@.subrange(lo as int, k as int),
        decreases hi - k,
    {
        out.push(v[k]);
        k += 1;
        assert(out@ =~= v@.subrange(lo as int, k as int));
    }
    out
}

/// Index of the first `:` in `u`, or its length.
pub(crate) fn colon_index(u: &Vec<char>) -> (r: usize)
    ensures
        r == index_from(u@, ':', 0),
{
    let mut i: usize = 0;
    while i < u.len() && u[i] != ':'
        invariant
            i <= u@.len(),
            index_from(u@, ':', i as int) == index_from(u@, ':', 0),
        decreases u@.len() - i,
    {
        i += 1;
    }
    i
}

/// Whether `u[..n]` is one of the accepted schemes.
pub(crate) fn allowed_scheme(u: &Vec<char>, n: usize) -> (r: bool)
    requires
        n <= u@.len(),
    ensures
        r == scheme_allowed(u@.take(n as int)),
{
    assert(u@.take(n as int) =~= u@.subrange(0, n as int));
    range_eq_ignore_case(u, 0, n, "https") || range_eq_ignore_case(u, 0, n, "http")
        || range_eq_ignore_case(u, 0, n, "mailto")
}

/// Whether `u[..n]` holds a `/`, `?` or `#`.
fn has_delim(u: &Vec<char>, n: usize) -> (r: bool)
    requires
        n <= u@.len(),
    ensures
        r == exists|k: int| 0 <= k < n && is_delim(u@.take(n as int)[k]),
{
    let mut i: usize = 0;
    while i < n
        invariant
            n <= u@.len(),
            i <= n,
            forall|k: int| 0 <= k < i ==> !is_delim(u@[k]),
        decreases n - i,
    {
        let c = u[i];
        if c == '/' || c == '?' || c == '#' {
            assert(is_delim(u@.take(n as int)[i as int]));
            return true;
        }
        i += 1;
    }
    assert forall|k: int| 0 <= k < n implies !is_delim(u@.take(n as int)[k]) by {
        assert(u@.take(n as int)[k] == u@[k]);
    }
    false
}

/// Returns the URL to emit, or `None` when it must be dropped with `W013 LinkRejected`.
pub fn check_url(raw: &str) -> (r: Option<String>)
    ensures
        r is Some <==> prepared(raw@).len() > 0 && parser_accepts(prepared(raw@)),
        r matches Some(u) ==> u@ == prepared(raw@),
{
    let u = prepare(raw);
    if u.len() == 0 {
        return None;
    }
    let colon = colon_index(&u);
    proof {
        lemma_index_from(u@, ':', 0);
    }
    if colon >= u.len() {
        return Some(string_from_chars(&u, 0, u.len()));
    }
    let accepted = colon == 0 || has_delim(&u, colon) || allowed_scheme(&u, colon);
    if accepted {
        Some(string_from_chars(&u, 0, u.len()))
    } else {
        None
    }
}

proof fn lemma_cleaned_clean(cs: Seq<char>)
    ensures
        forall|i: int| 0 <= i < cleaned(cs).len() ==> !is_url_removed(#[trigger] cleaned(cs)[i]),
    decreases cs.len(),
{
    if cs.len() > 0 {
        lemma_cleaned_clean(cs.drop_last());
        let p = cleaned(cs.drop_last());
        if !is_url_removed(cs.last()) {
            assert forall|i: int| 0 <= i < p.push(cs.last()).len() implies !is_url_removed(
                #[trigger] p.push(cs.last())[i],
            ) by {
                if i < p.len() {
                    assert(p.push(cs.last())[i] == p[i]);
                }
            }
        }
    }
}

proof fn lemma_cleaned_keeps(cs: Seq<char>)
    requires
        forall|i: int| 0 <= i < cs.len() ==> !is_url_removed(#[trigger] cs[i]),
    ensures
        cleaned(cs) == cs,
    decreases cs.len(),
{
    if cs.len() > 0 {
        let d = cs.drop_last();
        assert forall|i: int| 0 <= i < d.len() implies !is_url_removed(#[trigger] d[i]) by {
            assert(d[i] == cs[i]);
        }
        lemma_cleaned_keeps(d);
        assert(!is_url_removed(cs[cs.len() - 1]));
        assert(d.push(cs.last()) =~= cs);
    }
}

proof fn lemma_lead_end(cs: Seq<char>, i: int)
    requires
        0 <= i <= cs.len(),
    ensures
        i <= lead_end(cs, i) <= cs.len(),
        lead_end(cs, i) < cs.len() ==> !is_url_trimmed(cs[lead_end(cs, i)]),
    decreases cs.len() - i,
{
    if i < cs.len() && is_url_trimmed(cs[i]) {
        lemma_lead_end(cs, i + 1);
    }
}

proof fn lemma_trail_start(cs: Seq<char>, lo: int, j: int)
    requires
        0 <= lo <= j <= cs.len(),
    ensures
        lo <= trail_start(cs, lo, j) <= j,
        trail_start(cs, lo, j) > lo ==> !is_url_trimmed(cs[trail_start(cs, lo, j) - 1]),
    decreases j - lo,
{
    if lo < j && is_url_trimmed(cs[j - 1]) {
        lemma_trail_start(cs, lo, j - 1);
    }
}

/// A URL that `check_url` accepts is final: it is not empty, holds no tab, line feed or
/// carriage return, neither starts nor ends with a control or a space, comes back
/// unchanged and accepted when checked again, and when the text before its first `:`
/// is a well-formed scheme, that scheme is `https`, `http` or `mailto` in any case.
pub proof fn lemma_accepted_url_is_final(raw: Seq<char>)
    requires
        prepared(raw).len() > 0,
        parser_accepts(prepared(raw)),
    ensures
        ({
            let t = prepared(raw);
            &&& forall|i: int| 0 <= i < t.len() ==> !is_url_removed(#[trigger] t[i])
            &&& !is_url_trimmed(t[0])
            &&& !is_url_trimmed(t[t.len() - 1])
            &&& prepared(t) == t
            &&& parser_accepts(t)
            &&& (before_colon(t) is Some && is_scheme(before_colon(t)->0)) ==> scheme_allowed(
                before_colon(t)->0,
            )
        }),
{
    let c = cleaned(raw);
    let t = prepared(raw);
    lemma_cleaned_clean(raw);
    lemma_lead_end(c, 0);
    let lo = lead_end(c, 0);
    lemma_trail_start(c, lo, c.len() as int);
    let hi = trail_start(c, lo, c.len() as int);
    assert(t == c.subrange(lo, hi));
    assert forall|i: int| 0 <= i < t.len() implies !is_url_removed(#[trigger] t[i]) by {
        assert(t[i] == c[lo + i]);
    }
    assert(t[0] == c[lo]);
    assert(t[t.len() - 1] == c[hi - 1]);
    lemma_cleaned_keeps(t);
    lemma_lead_end(t, 0);
    assert(lead_end(t, 0) == 0);
    lemma_trail_start(t, 0, t.len() as int);
    assert(trail_start(t, 0, t.len() as int) == t.len());
    assert(t.subrange(0, t.len() as int) =~= t);
    if let Some(cand) = before_colon(t) {
        if is_scheme(cand) {
            assert(cand.len() > 0);
            assert forall|k: int| 0 <= k < cand.len() implies !is_delim(cand[k]) by {
                if k > 0 {
                    assert(is_scheme_char(cand[k]));
                }
            }
        }
    }
}

} // verus!
