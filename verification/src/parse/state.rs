//! State-diagram source text: transition arrows, comments, concurrency dividers and
//! the label colon.

use vstd::prelude::*;
use vstd::string::StringSliceAdditionalSpecFns;

use crate::parse::sequence::{entity_len, entity_end, entity_spec};
use crate::text::{
    chars_of, contains_at, contains_seq, eq_ignore_case, is_unicode_ws, is_whitespace,
    lemma_ascii_boundary, lemma_boundary_after_ascii, lemma_valid, range_eq_ignore_case, slice,
    starts_with_at, str_get, trim_bounds, trim_str, trim_ws,
};

verus! {

broadcast use vstd::utf8::group_utf8_lib;

/// The one arrow the grammar defines.
pub const CANONICAL: &'static str = "-->";

/// Every arrow token, longest first so the first match is the longest. Each one other
/// than [`CANONICAL`] is read as `-->` with a repair: they come from flowchart and
/// sequence habits and mean one thing here.
pub open spec fn arrow_tokens() -> Seq<&'static str> {
    seq!["<-->", "-.->", "--->", "-->>", "===>", "<->", "-.-", "->>", "==>", "-->", "->", "=>"]
}

/// The arrow tokens, in the order of [`arrow_tokens`].
pub fn arrows() -> (v: Vec<&'static str>)
    ensures
        v@ == arrow_tokens(),
{
    let v: Vec<&'static str> = vec![
        "<-->", "-.->", "--->", "-->>", "===>", "<->", "-.-", "->>", "==>", "-->", "->", "=>",
    ];
    v
}

/// Whether the bytes of `t` start `b` at `at`.
pub open spec fn starts_at(b: Seq<u8>, at: int, t: Seq<u8>) -> bool {
    at + t.len() <= b.len() && b.subrange(at, at + t.len()) == t
}

/// The first token of the table, from `k` on, that starts `b` at `at`.
pub open spec fn token_from(b: Seq<u8>, at: int, k: int) -> Option<&'static str>
    decreases arrow_tokens().len() - k,
{
    if k < 0 || k >= arrow_tokens().len() {
        None
    } else if starts_at(b, at, arrow_tokens()[k].spec_bytes()) {
        Some(arrow_tokens()[k])
    } else {
        token_from(b, at, k + 1)
    }
}

/// Whether `b[at..]` starts with the bytes of `t`.
fn starts_with_bytes(b: &[u8], at: usize, t: &[u8]) -> (r: bool)
    requires
        at <= b@.len(),
    ensures
        r == starts_at(b@, at as int, t@),
{
    let bl = b.len();
    if t.len() > bl - at {
        return false;
    }
    let mut i: usize = 0;
    while i < t.len()
        invariant
            bl == b@.len(),
            at + t@.len() <= b@.len(),
            i <= t@.len(),
            forall|k: int| 0 <= k < i ==> b@[at + k] == t@[k],
        decreases t@.len() - i,
    {
        if b[at + i] != t[i] {
            proof {
                assert(b@.subrange(at as int, at + t@.len())[i as int] == b@[at + i]);
            }
            return false;
        }
        i += 1;
    }
    proof {
        assert(b@.subrange(at as int, at + t@.len()) =~= t@);
    }
    true
}

/// The arrow token starting at byte `at` of `src`, if any.
pub fn arrow_at(src: &str, at: usize) -> (r: Option<&'static str>)
    ensures
        r == (if at <= src.spec_bytes().len() && vstd::utf8::is_char_boundary(
            src.spec_bytes(),
            at as int,
        ) {
            token_from(src.spec_bytes(), at as int, 0)
        } else {
            None
        }),
{
    let b = src.as_bytes();
    proof {
        lemma_valid(src);
    }
    if at > b.len() || str_get(src, at, b.len()).is_none() {
        return None;
    }
    let table = arrows();
    let mut k: usize = 0;
    while k < table.len()
        invariant
            table@ == arrow_tokens(),
            k <= table@.len(),
            at <= b@.len(),
            b@ == src.spec_bytes(),
            vstd::utf8::is_char_boundary(src.spec_bytes(), at as int),
            token_from(b@, at as int, k as int) == token_from(b@, at as int, 0),
        decreases table@.len() - k,
    {
        let t = table[k];
        if starts_with_bytes(b, at, t.as_bytes()) {
            return Some(t);
        }
        k += 1;
    }
    None
}

/// The byte length of each arrow token.
proof fn lemma_arrow_token_lengths()
    ensures
        forall|k: int|
            0 <= k < arrow_tokens().len() ==> (#[trigger] arrow_tokens()[k]).spec_bytes().len()
                == arrow_tokens()[k]@.len(),
        forall|i: int, j: int|
            0 <= i <= j < arrow_tokens().len() ==> (#[trigger] arrow_tokens()[j])@.len() <= (
            #[trigger] arrow_tokens()[i])@.len(),
{
    reveal_strlit("<-->");
    reveal_strlit("-.->");
    reveal_strlit("--->");
    reveal_strlit("-->>");
    reveal_strlit("===>");
    reveal_strlit("<->");
    reveal_strlit("-.-");
    reveal_strlit("->>");
    reveal_strlit("==>");
    reveal_strlit("-->");
    reveal_strlit("->");
    reveal_strlit("=>");
    assert forall|k: int| 0 <= k < arrow_tokens().len() implies (#[trigger] arrow_tokens()[k]).spec_bytes().len()
        == arrow_tokens()[k]@.len() by {
        let t = arrow_tokens()[k];
        assert(vstd::string::is_ascii(t));
        vstd::string::is_ascii_spec_bytes(t);
    }
}

/// A scan from `j` finds the first token at or after `j` that starts at `at`, and it
/// is at least as long as any later token that does.
proof fn lemma_token_from_first(b: Seq<u8>, at: int, j: int, k: int)
    requires
        0 <= j <= k < arrow_tokens().len(),
        starts_at(b, at, arrow_tokens()[k].spec_bytes()),
    ensures
        token_from(b, at, j) matches Some(t) && arrow_tokens()[k].spec_bytes().len()
            <= t.spec_bytes().len(),
    decreases k - j,
{
    lemma_arrow_token_lengths();
    if !starts_at(b, at, arrow_tokens()[j].spec_bytes()) {
        lemma_token_from_first(b, at, j + 1, k);
    } else {
        assert(arrow_tokens()[k]@.len() <= arrow_tokens()[j]@.len());
    }
}

/// The table lists the arrows longest first, so the token found at a position is the
/// longest arrow token that starts there.
pub proof fn lemma_arrow_is_longest(b: Seq<u8>, at: int, k: int)
    requires
        0 <= k < arrow_tokens().len(),
        starts_at(b, at, arrow_tokens()[k].spec_bytes()),
    ensures
        token_from(b, at, 0) matches Some(t) && arrow_tokens()[k].spec_bytes().len()
            <= t.spec_bytes().len(),
{
    lemma_token_from_first(b, at, 0, k);
}

// ---------------------------------------------------------------------------------------
// Comments
// ---------------------------------------------------------------------------------------

/// The first index at or after `i` holding `%` or `#`, or `b.len()`.
pub open spec fn mark_from(b: Seq<u8>, i: int) -> int
    decreases b.len() - i,
{
    if i < 0 || i >= b.len() {
        b.len() as int
    } else if b[i] == 0x25 || b[i] == 0x23 {
        i
    } else {
        mark_from(b, i + 1)
    }
}

pub proof fn lemma_mark_from(b: Seq<u8>, i: int)
    requires
        0 <= i <= b.len(),
    ensures
        i <= mark_from(b, i) <= b.len(),
        mark_from(b, i) < b.len() ==> (b[mark_from(b, i)] == 0x25 || b[mark_from(b, i)]
            == 0x23),
    decreases b.len() - i,
{
    if i < b.len() && !(b[i] == 0x25 || b[i] == 0x23) {
        lemma_mark_from(b, i + 1);
    }
}

/// The end of the text kept when comments are cut, scanning from `i`: `%%` starts a
/// comment and a lone `%` is text; a `#` that opens an entity code is skipped with its
/// code, and any other `#` starts a comment.
pub open spec fn kept_from(b: Seq<u8>, i: int) -> int
    decreases b.len() - i,
{
    let at = mark_from(b, i);
    if i < 0 || i > b.len() || at >= b.len() {
        b.len() as int
    } else {
        proof {
            lemma_mark_from(b, i);
        }
        if b[at] == 0x25 {
            if at + 1 < b.len() && b[at + 1] == 0x25 {
                at
            } else {
                kept_from(b, at + 1)
            }
        } else {
            match entity_spec(b.skip(at + 1)) {
                Some(l) => if l > 0 {
                    kept_from(b, at + 1 + l)
                } else {
                    at
                },
                None => at,
            }
        }
    }
}

/// The kept text never reaches past the end.
pub proof fn lemma_kept_from_bounds(b: Seq<u8>, i: int)
    ensures
        0 <= kept_from(b, i) <= b.len(),
    decreases b.len() - i,
{
    let at = mark_from(b, i);
    if 0 <= i <= b.len() {
        lemma_mark_from(b, i);
        if at < b.len() {
            if b[at] == 0x25 {
                if !(at + 1 < b.len() && b[at + 1] == 0x25) {
                    lemma_kept_from_bounds(b, at + 1);
                }
            } else if let Some(l) = entity_spec(b.skip(at + 1)) {
                if l > 0 {
                    lemma_kept_from_bounds(b, at + 1 + l);
                }
            }
        }
    }
}

/// Cuts `text` at the comment it holds: `%%`, or a `#` that opens no entity code.
pub fn cut_comment(text: &str) -> (r: &str)
    ensures
        r.spec_bytes() == text.spec_bytes().take(kept_from(text.spec_bytes(), 0)),
{
    let b = text.as_bytes();
    let n = b.len();
    let mut i: usize = 0;
    loop
        invariant
            n == b@.len(),
            b@ == text.spec_bytes(),
            i <= n,
            kept_from(b@, i as int) == kept_from(b@, 0),
        decreases n - i,
    {
        let mut at = i;
        while at < n && b[at] != 0x25 && b[at] != 0x23
            invariant
                i <= at <= n,
                n == b@.len(),
                mark_from(b@, at as int) == mark_from(b@, i as int),
            decreases n - at,
        {
            at += 1;
        }
        proof {
            lemma_mark_from(b@, i as int);
        }
        if at >= n {
            proof {
                assert(b@.take(n as int) =~= b@);
            }
            return text;
        }
        proof {
            lemma_valid(text);
            lemma_ascii_boundary(text, at as int);
            lemma_boundary_after_ascii(b@, at as int);
            lemma_ascii_boundary(text, n as int);
        }
        if b[at] == 0x25 {
            if n - at > 1 && b[at + 1] == 0x25 {
                let r = slice(text, 0, at);
                proof {
                    assert(r.spec_bytes() =~= b@.take(at as int));
                }
                return r;
            }
            i = at + 1;
        } else {
            let rest = slice(text, at + 1, n);
            proof {
                assert(rest.spec_bytes() =~= b@.skip(at + 1));
            }
            match entity_len(rest) {
                Some(len) => {
                    proof {
                        let k = choose|k: int| #[trigger] entity_end(b@.skip(at + 1), k);
                        assert(entity_end(b@.skip(at + 1), k));
                    }
                    i = at + 1 + len;
                },
                None => {
                    let r = slice(text, 0, at);
                    proof {
                        assert(r.spec_bytes() =~= b@.take(at as int));
                    }
                    return r;
                },
            }
        }
    }
}

/// Whether the whole statement is a comment: `%%` or a `#` that opens no entity.
pub fn is_comment_start(rest: &str) -> (r: bool)
    ensures
        r == ({
            let b = rest.spec_bytes();
            (b.len() >= 2 && b[0] == 0x25 && b[1] == 0x25) || (b.len() >= 1 && b[0] == 0x23
                && kept_from(b, 0) == 0)
        }),
{
    let b = rest.as_bytes();
    if b.len() >= 2 && b[0] == 0x25 && b[1] == 0x25 {
        return true;
    }
    proof {
        lemma_kept_from_bounds(b@, 0);
    }
    b.len() >= 1 && b[0] == 0x23 && cut_comment(rest).as_bytes().len() == 0
}

// ---------------------------------------------------------------------------------------
// Dividers and labels
// ---------------------------------------------------------------------------------------

/// Whether the statement is a concurrency divider: two or more `-` and nothing else.
pub open spec fn divider(text: Seq<char>) -> bool {
    let t = trim_ws(text);
    t.len() >= 2 && forall|i: int| 0 <= i < t.len() ==> #[trigger] t[i] == '-'
}

/// Whether the statement is a concurrency divider: two or more `-` and nothing else.
pub fn is_divider(text: &str) -> (r: bool)
    ensures
        r == divider(text@),
{
    let t = trim_str(text);
    let cs = chars_of(t);
    if cs.len() < 2 {
        return false;
    }
    let mut i: usize = 0;
    while i < cs.len()
        invariant
            i <= cs@.len(),
            cs@.len() >= 2,
            cs@ == trim_ws(text@),
            forall|k: int| 0 <= k < i ==> #[trigger] cs@[k] == '-',
        decreases cs@.len() - i,
    {
        if cs[i] != '-' {
            return false;
        }
        i += 1;
    }
    true
}

/// The first `:` at or after `i` that is not part of a `:::` role shorthand.
pub open spec fn colon_from(b: Seq<u8>, i: int) -> Option<int>
    decreases b.len() - i,
{
    if i < 0 || i >= b.len() {
        None
    } else if b[i] == 0x3a {
        if i + 2 < b.len() && b[i + 1] == 0x3a && b[i + 2] == 0x3a {
            colon_from(b, i + 3)
        } else {
            Some(i)
        }
    } else {
        colon_from(b, i + 1)
    }
}

/// Offset of the `:` that marks a label, skipping the `:::` role shorthand so
/// `A:::role --> B` still finds its arrow.
pub fn label_colon(text: &str) -> (r: Option<usize>)
    ensures
        match colon_from(text.spec_bytes(), 0) {
            Some(k) => r == Some(k as usize),
            None => r is None,
        },
{
    let b = text.as_bytes();
    let n = b.len();
    let mut i: usize = 0;
    while i < n
        invariant
            n == b@.len(),
            b@ == text.spec_bytes(),
            i <= n + 2,
            colon_from(b@, i as int) == colon_from(b@, 0),
        decreases n + 2 - i,
    {
        if b[i] == 0x3a {
            if n - i > 2 && b[i + 1] == 0x3a && b[i + 2] == 0x3a {
                i += 3;
                continue;
            }
            return Some(i);
        }
        i += 1;
    }
    None
}

/// The words that open a statement (compared ignoring ASCII case).
pub open spec fn statement_keywords() -> Seq<&'static str> {
    seq![
        "state",
        "note",
        "direction",
        "class",
        "classdef",
        "style",
        "click",
        "link",
        "acctitle",
        "accdescr",
    ]
}

fn keywords() -> (v: Vec<&'static str>)
    ensures
        v@ == statement_keywords(),
{
    vec![
        "state",
        "note",
        "direction",
        "class",
        "classdef",
        "style",
        "click",
        "link",
        "acctitle",
        "accdescr",
    ]
}

/// The index of the first whitespace character at or after `i`, or the end.
pub open spec fn word_end(cs: Seq<char>, i: int) -> int
    decreases cs.len() - i,
{
    if i < 0 || i >= cs.len() || is_unicode_ws(cs[i]) {
        i
    } else {
        word_end(cs, i + 1)
    }
}

/// Whether a line of a note block would parse as a statement: it holds a transition
/// arrow, or it opens with `}`, `[*]`, `--` or a keyword the grammar reserves.
pub open spec fn starts_statement(line: Seq<char>) -> bool {
    let t = trim_ws(line);
    &&& t.len() > 0
    &&& {
        ||| contains_seq(t, "->"@)
        ||| contains_seq(t, "=>"@)
        ||| contains_seq(t, "-.-"@)
        ||| t[0] == '}'
        ||| "[*]"@.is_prefix_of(t)
        ||| "--"@.is_prefix_of(t)
        ||| exists|k: int|
            0 <= k < statement_keywords().len() && eq_ignore_case(
                t.subrange(0, word_end(t, 0)),
                (#[trigger] statement_keywords()[k])@,
            )
    }
}

/// Whether `line` starts a statement, which ends an unterminated note block.
pub fn starts_a_statement(line: &str) -> (r: bool)
    ensures
        r == starts_statement(line@),
{
    let cs = chars_of(line);
    let (a, b) = trim_bounds(&cs, 0, cs.len());
    let ghost t = trim_ws(line@);
    proof {
        assert(cs@.subrange(0, cs@.len() as int) =~= cs@);
        assert(t == cs@.subrange(a as int, b as int));
    }
    if a == b {
        return false;
    }
    if contains_at(&cs, a, b, "->") || contains_at(&cs, a, b, "=>") || contains_at(&cs, a, b, "-.-")
        || cs[a] == '}' || starts_with_at(&cs, a, b, "[*]") || starts_with_at(&cs, a, b, "--") {
        return true;
    }
    let mut e = a;
    while e < b && !is_whitespace(cs[e])
        invariant
            a <= e <= b <= cs@.len(),
            t == cs@.subrange(a as int, b as int),
            word_end(t, e - a) == word_end(t, 0),
        decreases b - e,
    {
        assert(t[e - a] == cs@[e as int]);
        e += 1;
    }
    proof {
        if e < b {
            assert(t[e - a] == cs@[e as int]);
        }
        assert(word_end(t, 0) == e - a);
        assert(t.subrange(0, e - a) =~= cs@.subrange(a as int, e as int));
    }
    let kws = keywords();
    let mut k: usize = 0;
    while k < kws.len()
        invariant
            kws@ == statement_keywords(),
            k <= kws@.len(),
            a <= e <= b <= cs@.len(),
            a < b,
            t == trim_ws(line@),
            t == cs@.subrange(a as int, b as int),
            t.subrange(0, word_end(t, 0)) == cs@.subrange(a as int, e as int),
            forall|j: int|
                0 <= j < k ==> !eq_ignore_case(
                    t.subrange(0, word_end(t, 0)),
                    (#[trigger] statement_keywords()[j])@,
                ),
        decreases kws@.len() - k,
    {
        if range_eq_ignore_case(&cs, a, e, kws[k]) {
            assert(kws@[k as int] == statement_keywords()[k as int]);
            assert(eq_ignore_case(
                t.subrange(0, word_end(t, 0)),
                statement_keywords()[k as int]@,
            ));
            return true;
        }
        k += 1;
    }
    false
}

} // verus!
