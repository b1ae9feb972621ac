//! Sequence-diagram source text: message arrows, comments and entity codes,
//! `autonumber` values and participant aliases.

use vstd::prelude::*;
use vstd::string::StringSliceAdditionalSpecFns;

use crate::text::{
    byte_index_from, find_byte, lemma_ascii_boundary, lemma_boundary_after_ascii,
    lemma_byte_index_from, lemma_valid, lower, slice,
    trim_end_str, trim_end_ws,
};

verus! {

broadcast use vstd::utf8::group_utf8_lib;

/// The line a message is drawn with.
#[derive(Clone, Copy, Debug, PartialEq, Eq, Structural)]
pub enum MessageLine {
    Solid,
    Dotted,
}

/// The head at one end of a message line.
#[derive(Clone, Copy, Debug, PartialEq, Eq, Structural)]
pub enum Head {
    /// No head: a plain line end.
    Plain,
    Filled,
    Open,
    Cross,
    HalfTop,
    HalfBottom,
    StickTop,
    StickBottom,
}

/// One arrow token: its text, its line, the head at the tail and the head at the target.
pub type Arrow = (&'static str, MessageLine, Head, Head);

/// Every arrow token, longest first so the first match is the right one.
pub open spec fn arrow_table() -> Seq<Arrow> {
    seq![
        ("<<-->>", MessageLine::Dotted, Head::Filled, Head::Filled),
        ("<<->>", MessageLine::Solid, Head::Filled, Head::Filled),
        ("-->>", MessageLine::Dotted, Head::Plain, Head::Filled),
        ("--|\\", MessageLine::Dotted, Head::Plain, Head::HalfTop),
        ("--|/", MessageLine::Dotted, Head::Plain, Head::HalfBottom),
        ("--\\\\", MessageLine::Dotted, Head::Plain, Head::StickTop),
        ("--//", MessageLine::Dotted, Head::Plain, Head::StickBottom),
        ("/|--", MessageLine::Dotted, Head::HalfTop, Head::Plain),
        ("\\|--", MessageLine::Dotted, Head::HalfBottom, Head::Plain),
        ("//--", MessageLine::Dotted, Head::StickTop, Head::Plain),
        ("\\\\--", MessageLine::Dotted, Head::StickBottom, Head::Plain),
        ("-->", MessageLine::Dotted, Head::Plain, Head::Plain),
        ("--x", MessageLine::Dotted, Head::Plain, Head::Cross),
        ("--)", MessageLine::Dotted, Head::Plain, Head::Open),
        ("->>", MessageLine::Solid, Head::Plain, Head::Filled),
        ("-|\\", MessageLine::Solid, Head::Plain, Head::HalfTop),
        ("-|/", MessageLine::Solid, Head::Plain, Head::HalfBottom),
        ("-\\\\", MessageLine::Solid, Head::Plain, Head::StickTop),
        ("-//", MessageLine::Solid, Head::Plain, Head::StickBottom),
        ("/|-", MessageLine::Solid, Head::HalfTop, Head::Plain),
        ("\\|-", MessageLine::Solid, Head::HalfBottom, Head::Plain),
        ("//-", MessageLine::Solid, Head::StickTop, Head::Plain),
        ("\\\\-", MessageLine::Solid, Head::StickBottom, Head::Plain),
        ("->", MessageLine::Solid, Head::Plain, Head::Plain),
        ("-x", MessageLine::Solid, Head::Plain, Head::Cross),
        ("-)", MessageLine::Solid, Head::Plain, Head::Open),
    ]
}

/// The arrow tokens, in the order of [`arrow_table`].
pub fn arrows() -> (v: Vec<Arrow>)
    ensures
        v@ == arrow_table(),
{
    let v: Vec<Arrow> = vec![
        ("<<-->>", MessageLine::Dotted, Head::Filled, Head::Filled),
        ("<<->>", MessageLine::Solid, Head::Filled, Head::Filled),
        ("-->>", MessageLine::Dotted, Head::Plain, Head::Filled),
        ("--|\\", MessageLine::Dotted, Head::Plain, Head::HalfTop),
        ("--|/", MessageLine::Dotted, Head::Plain, Head::HalfBottom),
        ("--\\\\", MessageLine::Dotted, Head::Plain, Head::StickTop),
        ("--//", MessageLine::Dotted, Head::Plain, Head::StickBottom),
        ("/|--", MessageLine::Dotted, Head::HalfTop, Head::Plain),
        ("\\|--", MessageLine::Dotted, Head::HalfBottom, Head::Plain),
        ("//--", MessageLine::Dotted, Head::StickTop, Head::Plain),
        ("\\\\--", MessageLine::Dotted, Head::StickBottom, Head::Plain),
        ("-->", MessageLine::Dotted, Head::Plain, Head::Plain),
        ("--x", MessageLine::Dotted, Head::Plain, Head::Cross),
        ("--)", MessageLine::Dotted, Head::Plain, Head::Open),
        ("->>", MessageLine::Solid, Head::Plain, Head::Filled),
        ("-|\\", MessageLine::Solid, Head::Plain, Head::HalfTop),
        ("-|/", MessageLine::Solid, Head::Plain, Head::HalfBottom),
        ("-\\\\", MessageLine::Solid, Head::Plain, Head::StickTop),
        ("-//", MessageLine::Solid, Head::Plain, Head::StickBottom),
        ("/|-", MessageLine::Solid, Head::HalfTop, Head::Plain),
        ("\\|-", MessageLine::Solid, Head::HalfBottom, Head::Plain),
        ("//-", MessageLine::Solid, Head::StickTop, Head::Plain),
        ("\\\\-", MessageLine::Solid, Head::StickBottom, Head::Plain),
        ("->", MessageLine::Solid, Head::Plain, Head::Plain),
        ("-x", MessageLine::Solid, Head::Plain, Head::Cross),
        ("-)", MessageLine::Solid, Head::Plain, Head::Open),
    ];
    v
}

/// Whether the bytes of `t` start `b` at `at`.
pub open spec fn token_at(b: Seq<u8>, at: int, t: Seq<u8>) -> bool {
    at + t.len() <= b.len() && b.subrange(at, at + t.len()) == t
}

/// Whether `b[at..]` starts with the bytes of `t`.
fn bytes_start_with(b: &[u8], at: usize, t: &[u8]) -> (r: bool)
    requires
        at <= b@.len(),
    ensures
        r == token_at(b@, at as int, t@),
{
    if t.len() > b.len() - at {
        return false;
    }
    let bl = b.len();
    let mut i: usize = 0;
    while i < t.len()
        invariant
            bl == b@.len(),
            at + t@.len() <= b@.len(),
            i <= t@.len(),
            forall|k: int| 0 <= k < i ==> b@[at + k] == t@[k],
        decreases t@.len() - i,
    {
        if b[at + i] != t[i] {
            proof {
                assert(b@.subrange(at as int, at + t@.len())[i as int] == b@[at + i]);
            }
            return false;
        }
        i += 1;
    }
    proof {
        assert(b@.subrange(at as int, at + t@.len()) =~= t@);
    }
    true
}

/// The first arrow of the table whose token starts `b` at `at`, searching from `k`.
pub open spec fn arrow_from(b: Seq<u8>, at: int, k: int) -> Option<Arrow>
    decreases arrow_table().len() - k,
{
    if k < 0 || k >= arrow_table().len() {
        None
    } else if token_at(b, at, arrow_table()[k].0.spec_bytes()) {
        Some(arrow_table()[k])
    } else {
        arrow_from(b, at, k + 1)
    }
}

/// The arrow token starting at byte `at` of `src`, if any.
pub fn arrow_at(src: &str, at: usize) -> (r: Option<Arrow>)
    ensures
        r == (if at <= src.spec_bytes().len() && vstd::utf8::is_char_boundary(
            src.spec_bytes(),
            at as int,
        ) {
            arrow_from(src.spec_bytes(), at as int, 0)
        } else {
            None
        }),
{
    let b = src.as_bytes();
    proof {
        lemma_valid(src);
    }
    if at > b.len() || crate::text::str_get(src, at, b.len()).is_none() {
        return None;
    }
    let table = arrows();
    let mut k: usize = 0;
    while k < table.len()
        invariant
            table@ == arrow_table(),
            k <= table@.len(),
            at <= b@.len(),
            b@ == src.spec_bytes(),
            vstd::utf8::is_char_boundary(src.spec_bytes(), at as int),
            arrow_from(b@, at as int, k as int) == arrow_from(b@, at as int, 0),
        decreases table@.len() - k,
    {
        let t = table[k];
        let tb = t.0.as_bytes();
        if bytes_start_with(b, at, tb) {
            return Some(t);
        }
        k += 1;
    }
    None
}

/// The byte length of each arrow token, and the table's order: longest first.
proof fn lemma_arrow_token_lengths()
    ensures
        forall|k: int|
            0 <= k < arrow_table().len() ==> (#[trigger] arrow_table()[k]).0.spec_bytes().len()
                == arrow_table()[k].0@.len(),
        forall|i: int, j: int|
            0 <= i <= j < arrow_table().len() ==> (#[trigger] arrow_table()[j]).0@.len() <= (
            #[trigger] arrow_table()[i]).0@.len(),
{
    reveal_strlit("<<-->>");
    reveal_strlit("<<->>");
    reveal_strlit("-->>");
    reveal_strlit("--|\\");
    reveal_strlit("--|/");
    reveal_strlit("--\\\\");
    reveal_strlit("--//");
    reveal_strlit("/|--");
    reveal_strlit("\\|--");
    reveal_strlit("//--");
    reveal_strlit("\\\\--");
    reveal_strlit("-->");
    reveal_strlit("--x");
    reveal_strlit("--)");
    reveal_strlit("->>");
    reveal_strlit("-|\\");
    reveal_strlit("-|/");
    reveal_strlit("-\\\\");
    reveal_strlit("-//");
    reveal_strlit("/|-");
    reveal_strlit("\\|-");
    reveal_strlit("//-");
    reveal_strlit("\\\\-");
    reveal_strlit("->");
    reveal_strlit("-x");
    reveal_strlit("-)");
    assert forall|k: int| 0 <= k < arrow_table().len() implies (#[trigger] arrow_table()[k]).0.spec_bytes().len()
        == arrow_table()[k].0@.len() by {
        let t = arrow_table()[k].0;
        assert(vstd::string::is_ascii(t));
        vstd::string::is_ascii_spec_bytes(t);
    }
}

/// A scan from `j` finds the first arrow at or after `j` whose token starts at `at`,
/// and its token is at least as long as any later one that does.
proof fn lemma_arrow_from_first(b: Seq<u8>, at: int, j: int, k: int)
    requires
        0 <= j <= k < arrow_table().len(),
        token_at(b, at, arrow_table()[k].0.spec_bytes()),
    ensures
        arrow_from(b, at, j) matches Some(a) && arrow_table()[k].0.spec_bytes().len()
            <= a.0.spec_bytes().len(),
    decreases k - j,
{
    lemma_arrow_token_lengths();
    if !token_at(b, at, arrow_table()[j].0.spec_bytes()) {
        lemma_arrow_from_first(b, at, j + 1, k);
    } else {
        assert(arrow_table()[k].0@.len() <= arrow_table()[j].0@.len());
    }
}

/// The table lists the arrows longest first, so the arrow found at a position is the
/// one with the longest token that starts there.
pub proof fn lemma_arrow_is_longest(b: Seq<u8>, at: int, k: int)
    requires
        0 <= k < arrow_table().len(),
        token_at(b, at, arrow_table()[k].0.spec_bytes()),
    ensures
        arrow_from(b, at, 0) matches Some(a) && arrow_table()[k].0.spec_bytes().len()
            <= a.0.spec_bytes().len(),
{
    lemma_arrow_from_first(b, at, 0, k);
}

// ---------------------------------------------------------------------------------------
// Comments and entity codes
// ---------------------------------------------------------------------------------------

pub open spec fn is_alnum_byte(c: u8) -> bool {
    (0x30 <= c <= 0x39) || (0x41 <= c <= 0x5a) || (0x61 <= c <= 0x7a)
}

/// Whether `b` opens an entity code whose `;` is at `k`: one to nine ASCII letters or
/// digits, then `;`.
pub open spec fn entity_end(b: Seq<u8>, k: int) -> bool {
    &&& 1 <= k <= 9
    &&& k < b.len()
    &&& b[k] == 0x3b
    &&& forall|j: int| 0 <= j < k ==> is_alnum_byte(#[trigger] b[j])
}

/// The length of the entity code at the start of `b`, through its `;`.
pub open spec fn entity_spec(b: Seq<u8>) -> Option<int> {
    if exists|k: int| entity_end(b, k) {
        Some((choose|k: int| entity_end(b, k)) + 1)
    } else {
        None
    }
}

/// Length of the entity code starting just after a `#`, through its `;` (`35;`,
/// `x2665;`, `hearts;`), or `None` when the `#` opens a comment instead.
pub fn entity_len(after_hash: &str) -> (r: Option<usize>)
    ensures
        r matches Some(n) ==> entity_spec(after_hash.spec_bytes()) == Some(n as int),
        r is None ==> entity_spec(after_hash.spec_bytes()) is None,
{
    let b = after_hash.as_bytes();
    let mut i: usize = 0;
    while i < b.len()
        invariant
            i <= b@.len(),
            i <= 9,
            b@ == after_hash.spec_bytes(),
            forall|j: int| 0 <= j < i ==> is_alnum_byte(#[trigger] b@[j]),
        decreases b@.len() - i,
    {
        let c = b[i];
        if c == 0x3b {
            if i == 0 {
                proof {
                    assert forall|k: int| !entity_end(b@, k) by {
                        if entity_end(b@, k) {
                            assert(is_alnum_byte(b@[0]));
                        }
                    }
                }
                return None;
            }
            proof {
                assert(entity_end(b@, i as int));
                assert forall|k: int| entity_end(b@, k) implies k == i by {
                    if k < i {
                        assert(is_alnum_byte(b@[k]));
                    } else if k > i {
                        assert(is_alnum_byte(b@[i as int]));
                    }
                }
            }
            return Some(i + 1);
        }
        let alnum = (0x30 <= c && c <= 0x39) || (0x41 <= c && c <= 0x5a) || (0x61 <= c && c
            <= 0x7a);
        if !alnum || i > 8 {
            proof {
                assert forall|k: int| !entity_end(b@, k) by {
                    if entity_end(b@, k) {
                        if k > i {
                            assert(is_alnum_byte(b@[i as int]));
                        }
                    }
                }
            }
            return None;
        }
        i += 1;
    }
    proof {
        assert forall|k: int| !entity_end(b@, k) by {}
    }
    None
}

/// The end of the text kept when comments are cut, scanning from `i`: a `#` that opens
/// an entity code is skipped with its code; any other `#` starts the comment.
pub open spec fn kept_from(b: Seq<u8>, i: int) -> int
    decreases b.len() - i,
{
    let at = byte_index_from(b, 0x23, i);
    if i < 0 || i > b.len() || at >= b.len() {
        b.len() as int
    } else {
        match entity_spec(b.skip(at + 1)) {
            Some(l) => if l > 0 {
                proof {
                    lemma_byte_index_from(b, 0x23, i);
                }
                kept_from(b, at + 1 + l)
            } else {
                at
            },
            None => at,
        }
    }
}

/// The kept text never reaches past the end.
pub proof fn lemma_kept_from_bounds(b: Seq<u8>, i: int)
    ensures
        0 <= kept_from(b, i) <= b.len(),
    decreases b.len() - i,
{
    let at = byte_index_from(b, 0x23, i);
    if 0 <= i <= b.len() {
        lemma_byte_index_from(b, 0x23, i);
        if at < b.len() {
            if let Some(l) = entity_spec(b.skip(at + 1)) {
                if l > 0 {
                    lemma_kept_from_bounds(b, at + 1 + l);
                }
            }
        }
    }
}

/// Cuts `text` at the `#` that opens a comment, keeping entity codes.
pub fn cut_comment(text: &str) -> (r: &str)
    ensures
        r.spec_bytes() == text.spec_bytes().take(kept_from(text.spec_bytes(), 0)),
{
    let b = text.as_bytes();
    let n = b.len();
    let mut i: usize = 0;
    loop
        invariant
            n == b@.len(),
            b@ == text.spec_bytes(),
            i <= n,
            kept_from(b@, i as int) == kept_from(b@, 0),
        decreases n - i,
    {
        let at = find_byte(b, i, 0x23);
        proof {
            lemma_byte_index_from(b@, 0x23, i as int);
        }
        if at >= n {
            proof {
                assert(b@.take(n as int) =~= b@);
            }
            return text;
        }
        proof {
            lemma_ascii_boundary(text, at as int);
            lemma_valid(text);
            lemma_boundary_after_ascii(b@, at as int);
            lemma_ascii_boundary(text, n as int);
        }
        let rest = slice(text, at + 1, n);
        proof {
            assert(rest.spec_bytes() =~= b@.skip(at + 1));
        }
        match entity_len(rest) {
            Some(len) => {
                proof {
                    let k = choose|k: int| #[trigger] entity_end(b@.skip(at + 1), k);
                    assert(entity_end(b@.skip(at + 1), k));
                }
                i = at + 1 + len;
            },
            None => {
                let r = slice(text, 0, at);
                proof {
                    assert(r.spec_bytes() =~= b@.take(at as int));
                }
                return r;
            },
        }
    }
}

/// Whether the whole statement is a comment line: `%%` or a `#` that opens no entity.
pub fn is_comment_start(rest: &str) -> (r: bool)
    ensures
        r == ({
            let b = rest.spec_bytes();
            (b.len() >= 2 && b[0] == 0x25 && b[1] == 0x25) || (b.len() >= 1 && b[0] == 0x23
                && kept_from(b, 0) == 0)
        }),
{
    let b = rest.as_bytes();
    if b.len() >= 2 && b[0] == 0x25 && b[1] == 0x25 {
        return true;
    }
    proof {
        lemma_kept_from_bounds(b@, 0);
    }
    b.len() >= 1 && b[0] == 0x23 && cut_comment(rest).as_bytes().len() == 0
}

// ---------------------------------------------------------------------------------------
// `autonumber` values
// ---------------------------------------------------------------------------------------

pub open spec fn is_digit_byte(c: u8) -> bool {
    0x30 <= c <= 0x39
}

pub open spec fn all_digits(s: Seq<u8>) -> bool {
    forall|i: int| 0 <= i < s.len() ==> is_digit_byte(#[trigger] s[i])
}

/// The value of a run of decimal digits.
pub open spec fn digits_value(s: Seq<u8>) -> nat
    decreases s.len(),
{
    if s.len() == 0 {
        0
    } else {
        digits_value(s.drop_last()) * 10 + (s.last() - 0x30) as nat
    }
}

/// A prefix of a run of digits is worth no more than the run.
pub proof fn lemma_digits_prefix(s: Seq<u8>, k: int)
    requires
        0 <= k <= s.len(),
        all_digits(s),
    ensures
        digits_value(s.take(k)) <= digits_value(s),
    decreases s.len(),
{
    if k < s.len() {
        let d = s.drop_last();
        assert(all_digits(d)) by {
            assert forall|i: int| 0 <= i < d.len() implies is_digit_byte(#[trigger] d[i]) by {
                assert(d[i] == s[i]);
            }
        }
        lemma_digits_prefix(d, k);
        assert(d.take(k) =~= s.take(k));
    } else {
        assert(s.take(k) =~= s);
    }
}

/// The length of a leading sign.
pub open spec fn sign_len(b: Seq<u8>) -> int {
    if b.len() > 0 && (b[0] == 0x2d || b[0] == 0x2b) {
        1
    } else {
        0
    }
}

/// The value in hundredths of the fraction digits.
pub open spec fn cents(frac: Seq<u8>) -> nat {
    if frac.len() == 1 {
        digits_value(frac) * 10
    } else {
        digits_value(frac)
    }
}

/// An `autonumber` value in hundredths: an optional sign, digits, and at most two
/// decimals; `None` outside that grammar or past the range of `i64`.
pub open spec fn hundredths_spec(b: Seq<u8>) -> Option<i64> {
    let start = sign_len(b);
    let neg = start == 1 && b[0] == 0x2d;
    let dot = byte_index_from(b, 0x2e, start);
    let int_part = b.subrange(start, dot);
    let frac = if dot < b.len() {
        b.subrange(dot + 1, b.len() as int)
    } else {
        Seq::<u8>::empty()
    };
    let v = digits_value(int_part) * 100 + cents(frac);
    if int_part.len() == 0 && frac.len() == 0 {
        None
    } else if !all_digits(int_part) || !all_digits(frac) || frac.len() > 2 {
        None
    } else if digits_value(int_part) > i64::MAX || v > i64::MAX {
        None
    } else if neg {
        Some((-v) as i64)
    } else {
        Some(v as i64)
    }
}

/// Whether `b[lo..hi]` is all digits.
fn digits_in(b: &[u8], lo: usize, hi: usize) -> (r: bool)
    requires
        lo <= hi <= b@.len(),
    ensures
        r == all_digits(b@.subrange(lo as int, hi as int)),
{
    let mut i = lo;
    while i < hi
        invariant
            lo <= i <= hi <= b@.len(),
            forall|k: int| lo <= k < i ==> is_digit_byte(#[trigger] b@[k]),
        decreases hi - i,
    {
        if b[i] < 0x30 || b[i] > 0x39 {
            proof {
                assert(b@.subrange(lo as int, hi as int)[i - lo] == b@[i as int]);
            }
            return false;
        }
        i += 1;
    }
    proof {
        let t = b@.subrange(lo as int, hi as int);
        assert forall|k: int| 0 <= k < t.len() implies is_digit_byte(#[trigger] t[k]) by {
            assert(t[k] == b@[lo + k]);
        }
    }
    true
}

/// The value of the digits `b[lo..hi]`, or `None` past `i64::MAX`.
fn digits_i64(b: &[u8], lo: usize, hi: usize) -> (r: Option<i64>)
    requires
        lo <= hi <= b@.len(),
        all_digits(b@.subrange(lo as int, hi as int)),
    ensures
        match r {
            Some(v) => v == digits_value(b@.subrange(lo as int, hi as int)),
            None => digits_value(b@.subrange(lo as int, hi as int)) > i64::MAX,
        },
{
    let ghost run = b@.subrange(lo as int, hi as int);
    let mut acc: i64 = 0;
    let mut i = lo;
    assert(run.take(0) =~= Seq::<u8>::empty());
    while i < hi
        invariant
            lo <= i <= hi <= b@.len(),
            run == b@.subrange(lo as int, hi as int),
            all_digits(run),
            0 <= acc,
            acc == digits_value(run.take(i - lo)),
        decreases hi - i,
    {
        proof {
            assert(run.take(i - lo + 1).drop_last() =~= run.take(i - lo));
            assert(run.take(i - lo + 1).last() == b@[i as int]);
            assert(is_digit_byte(run[i - lo]));
        }
        let d = (b[i] - 0x30) as i64;
        let next = match acc.checked_mul(10) {
            Some(m) => m.checked_add(d),
            None => None,
        };
        match next {
            Some(v) => {
                acc = v;
            },
            None => {
                proof {
                    lemma_digits_prefix(run, i - lo + 1);
                }
                return None;
            },
        }
        i += 1;
    }
    proof {
        assert(run.take(hi - lo) =~= run);
    }
    Some(acc)
}

/// `autonumber` values are hundredths of a unit, so a badge formats as an integer. At
/// most two decimals.
pub fn hundredths(s: &str) -> (r: Option<i64>)
    ensures
        r == hundredths_spec(s.spec_bytes()),
{
    let b = s.as_bytes();
    let n = b.len();
    let start: usize = if n > 0 && (b[0] == 0x2d || b[0] == 0x2b) {
        1
    } else {
        0
    };
    let neg = start == 1 && b[0] == 0x2d;
    let dot = find_byte(b, start, 0x2e);
    proof {
        lemma_byte_index_from(b@, 0x2e, start as int);
    }
    let frac_lo = if dot < n {
        dot + 1
    } else {
        n
    };
    proof {
        if dot >= n {
            assert(b@.subrange(n as int, n as int) =~= Seq::<u8>::empty());
        }
    }
    if dot == start && frac_lo == n {
        return None;
    }
    if !digits_in(b, start, dot) || !digits_in(b, frac_lo, n) || n - frac_lo > 2 {
        return None;
    }
    let whole = match digits_i64(b, start, dot) {
        Some(w) => w,
        None => {
            return None;
        },
    };
    let ghost frac = b@.subrange(frac_lo as int, n as int);
    let c: i64 = if n - frac_lo == 0 {
        0
    } else if n - frac_lo == 1 {
        proof {
            assert(frac.drop_last() =~= Seq::<u8>::empty());
            assert(digits_value(frac.drop_last()) == 0);
            assert(frac.last() == b@[frac_lo as int]);
            assert(digits_value(frac) == (b@[frac_lo as int] - 0x30) as nat);
        }
        ((b[frac_lo] - 0x30) as i64) * 10
    } else {
        proof {
            let f1 = frac.drop_last();
            assert(f1.drop_last() =~= Seq::<u8>::empty());
            assert(digits_value(f1.drop_last()) == 0);
            assert(f1.last() == b@[frac_lo as int]);
            assert(frac.last() == b@[frac_lo + 1]);
            assert(digits_value(f1) == (b@[frac_lo as int] - 0x30) as nat);
            assert(digits_value(frac) == digits_value(f1) * 10 + (b@[frac_lo + 1] - 0x30) as nat);
        }
        ((b[frac_lo] - 0x30) as i64) * 10 + ((b[frac_lo + 1] - 0x30) as i64)
    };
    assert(c == cents(frac));
    let v = match whole.checked_mul(100) {
        Some(m) => match m.checked_add(c) {
            Some(v) => v,
            None => {
                return None;
            },
        },
        None => {
            return None;
        },
    };
    if neg {
        Some(-v)
    } else {
        Some(v)
    }
}

// ---------------------------------------------------------------------------------------
// Participant aliases
// ---------------------------------------------------------------------------------------

/// A space, tab or carriage return.
pub open spec fn is_gap_byte(c: u8) -> bool {
    c == 0x20 || c == 0x09 || c == 0x0d
}

/// Whether the alias keyword `as` (any case) stands at `p`, as a whole word.
pub open spec fn alias_at(b: Seq<u8>, p: int) -> bool {
    &&& 0 < p
    &&& p + 2 < b.len()
    &&& lower(b[p]) == 0x61
    &&& lower(b[p + 1]) == 0x73
    &&& is_gap_byte(b[p - 1])
    &&& is_gap_byte(b[p + 2])
}

/// The first alias keyword at or after `i`, or `b.len()`.
pub open spec fn first_alias(b: Seq<u8>, i: int) -> int
    decreases b.len() - i,
{
    if i < 0 || i >= b.len() {
        b.len() as int
    } else if alias_at(b, i) {
        i
    } else {
        first_alias(b, i + 1)
    }
}

/// The first index at or after `j` that is not a gap byte, or `b.len()`.
pub open spec fn gap_end(b: Seq<u8>, j: int) -> int
    decreases b.len() - j,
{
    if 0 <= j < b.len() && is_gap_byte(b[j]) {
        gap_end(b, j + 1)
    } else {
        j
    }
}

/// `head as <label>`: the text before the alias keyword and where the label starts.
pub fn alias_split(text: &str) -> (r: Option<(&str, usize)>)
    ensures
        ({
            let b = text.spec_bytes();
            let p = first_alias(b, 0);
            match r {
                None => p >= b.len(),
                Some((h, label)) => p < b.len() && h@ == trim_end_ws(
                    vstd::utf8::decode_utf8(b.take(p)),
                ) && label == gap_end(b, p + 2),
            }
        }),
{
    let b = text.as_bytes();
    let n = b.len();
    let mut p: usize = 0;
    while p < n
        invariant
            p <= n,
            n == b@.len(),
            b@ == text.spec_bytes(),
            first_alias(b@, p as int) == first_alias(b@, 0),
        decreases n - p,
    {
        if p > 0 && n - p > 2 && (b[p] == 0x61 || b[p] == 0x41) && (b[p + 1] == 0x73 || b[p + 1]
            == 0x53) && (b[p - 1] == 0x20 || b[p - 1] == 0x09 || b[p - 1] == 0x0d) && (b[p + 2]
            == 0x20 || b[p + 2] == 0x09 || b[p + 2] == 0x0d) {
            let mut label = p + 2;
            while label < n && (b[label] == 0x20 || b[label] == 0x09 || b[label] == 0x0d)
                invariant
                    p + 2 <= label <= n,
                    n == b@.len(),
                    gap_end(b@, label as int) == gap_end(b@, p + 2),
                decreases n - label,
            {
                label += 1;
            }
            proof {
                lemma_ascii_boundary(text, p as int);
                lemma_valid(text);
                assert(vstd::utf8::is_char_boundary(b@, 0));
            }
            let head = slice(text, 0, p);
            proof {
                assert(b@.subrange(0, p as int) =~= b@.take(p as int));
            }
            return Some((trim_end_str(head), label));
        }
        p += 1;
    }
    None
}

/// The last character boundary of `src` at or before `at`; offsets past the end count
/// as the end.
pub fn floor_boundary(src: &str, at: usize) -> (r: usize)
    ensures
        r <= at,
        r <= src.spec_bytes().len(),
        vstd::utf8::is_char_boundary(src.spec_bytes(), r as int),
        forall|k: int|
            r < k <= at && k <= src.spec_bytes().len() ==> !vstd::utf8::is_char_boundary(
                src.spec_bytes(),
                k,
            ),
{
    let n = src.as_bytes().len();
    let mut at = if at < n {
        at
    } else {
        n
    };
    let ghost top = at;
    proof {
        lemma_valid(src);
    }
    while at > 0 && !src.is_char_boundary(at)
        invariant
            at <= top <= n,
            n == src.spec_bytes().len(),
            vstd::utf8::valid_utf8(src.spec_bytes()),
            forall|k: int| at < k <= top ==> !vstd::utf8::is_char_boundary(src.spec_bytes(), k),
        decreases at,
    {
        at -= 1;
    }
    at
}

/// `a` and `b` are equal ignoring ASCII case, byte for byte.
pub open spec fn bytes_eq_ci(a: Seq<u8>, b: Seq<u8>) -> bool {
    a.len() == b.len() && forall|i: int| 0 <= i < a.len() ==> lower(a[i]) == lower(b[i])
}

/// `text` after `prefix`, when it starts with `prefix` ignoring ASCII case.
pub fn strip_prefix_ci<'a>(text: &'a str, prefix: &str) -> (r: Option<&'a str>)
    ensures
        r is Some <==> (prefix.spec_bytes().len() <= text.spec_bytes().len()
            && vstd::utf8::is_char_boundary(text.spec_bytes(), prefix.spec_bytes().len() as int)
            && bytes_eq_ci(
            text.spec_bytes().subrange(0, prefix.spec_bytes().len() as int),
            prefix.spec_bytes(),
        )),
        r matches Some(t) ==> t.spec_bytes() == text.spec_bytes().subrange(
            prefix.spec_bytes().len() as int,
            text.spec_bytes().len() as int,
        ),
{
    let tb = text.as_bytes();
    let pb = prefix.as_bytes();
    let n = tb.len();
    let m = pb.len();
    if m > n || !text.is_char_boundary(m) {
        return None;
    }
    let mut i: usize = 0;
    while i < m
        invariant
            m <= n,
            n == tb@.len(),
            m == pb@.len(),
            tb@ == text.spec_bytes(),
            pb@ == prefix.spec_bytes(),
            i <= m,
            forall|k: int| 0 <= k < i ==> lower(tb@[k]) == lower(pb@[k]),
        decreases m - i,
    {
        let x = tb[i];
        let y = pb[i];
        let lx = if 0x41 <= x && x <= 0x5a {
            x + 32
        } else {
            x
        };
        let ly = if 0x41 <= y && y <= 0x5a {
            y + 32
        } else {
            y
        };
        if lx != ly {
            assert(text.spec_bytes().subrange(0, m as int)[i as int] == tb@[i as int]);
            return None;
        }
        i += 1;
    }
    proof {
        lemma_valid(text);
        vstd::utf8::is_char_boundary_start_end_of_seq(text.spec_bytes());
    }
    crate::text::str_get(text, m, n)
}

} // verus!
