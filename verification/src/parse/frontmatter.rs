//! YAML front matter subset.
//!
//! Accepted: block mappings, plain and quoted scalars, and single-line flow
//! sequences. Anchors, aliases, tags, block sequences, block scalars, flow mappings,
//! multi-document markers and duplicate keys are rejected, which rules out
//! alias-expansion attacks. The caller reports a rejection as `E011`.
//!
//! The parser reads the body as characters; every position it reports is an absolute
//! byte offset: the body's own offset `base` plus the UTF-8 length of the characters
//! before the position.

use vstd::prelude::*;
use vstd::utf8::*;
use vstd::string::StringSliceAdditionalSpecFns;

use crate::parse::config::{
    distinct_keys, flat, keyed_seq, keys_unique, lemma_flat, lemma_list_tree,
    lemma_mapping_tree, ranges_within, tree_of, Entry, Keyed, Tree, Value,
};
use crate::parse::label::{digits_value, hex_value, is_hex_char};
use crate::text::{
    byte_at, char_offsets, decimal, is_unicode_ws, is_whitespace, lemma_byte_at_mono,
    lemma_prefix_boundary, push_char, push_decimal, string_from_chars, ws_trail,
};

verus! {

/// Why the front matter falls outside the subset, with the offending byte range.
#[derive(Clone, Debug, PartialEq, Eq)]
pub struct FrontMatterError {
    pub start: usize,
    pub end: usize,
    pub message: String,
}

/// The mathematical form of a [`FrontMatterError`].
pub struct Rejection {
    pub start: int,
    pub end: int,
    pub message: Seq<char>,
}

impl View for FrontMatterError {
    type V = Rejection;

    open spec fn view(&self) -> Rejection {
        Rejection { start: self.start as int, end: self.end as int, message: self.message@ }
    }
}

// ---------------------------------------------------------------------------------------
// Positions
// ---------------------------------------------------------------------------------------

/// Absolute byte offset of the character index `k` of a body at byte offset `base`.
pub open spec fn ab(cs: Seq<char>, base: int, k: int) -> int {
    base + byte_at(cs, k)
}

/// A rejection of the text from character `at` to character `end`.
pub open spec fn rej(cs: Seq<char>, base: int, at: int, end: int, m: Seq<char>) -> Rejection {
    Rejection { start: ab(cs, base, at), end: ab(cs, base, end), message: m }
}

/// The body as characters, with the byte offset of every character boundary.
struct Body {
    cs: Vec<char>,
    offs: Vec<usize>,
    base: usize,
}

impl Body {
    spec fn wf(&self) -> bool {
        &&& self.offs@.len() == self.cs@.len() + 1
        &&& forall|k: int| 0 <= k <= self.cs@.len() ==> #[trigger] self.offs@[k] == byte_at(self.cs@, k)
        &&& self.base + byte_at(self.cs@, self.cs@.len() as int) <= usize::MAX
    }

    spec fn n(&self) -> int {
        self.cs@.len() as int
    }

    fn new(s: &str, base: usize) -> (r: Body)
        requires
            base + s.spec_bytes().len() <= usize::MAX,
        ensures
            r.wf(),
            r.cs@ == s@,
            r.base == base,
    {
        let (cs, offs) = char_offsets(s);
        Body { cs, offs, base }
    }

    /// The absolute byte offset of character index `k`.
    fn at(&self, k: usize) -> (r: usize)
        requires
            self.wf(),
            k <= self.cs@.len(),
        ensures
            r == ab(self.cs@, self.base as int, k as int),
    {
        proof {
            lemma_prefix_boundary(self.cs@, k as int);
            assert(self.cs@.take(self.cs@.len() as int) =~= self.cs@);
            assert(self.offs@[k as int] == byte_at(self.cs@, k as int));
            assert(self.offs@[self.cs@.len() as int] == byte_at(self.cs@, self.cs@.len() as int));
        }
        self.base + self.offs[k]
    }

    /// A rejection of the text from character `at` to character `end`.
    fn rej(&self, at: usize, end: usize, m: &str) -> (r: FrontMatterError)
        requires
            self.wf(),
            at <= self.cs@.len(),
            end <= self.cs@.len(),
        ensures
            r@ == rej(self.cs@, self.base as int, at as int, end as int, m@),
    {
        FrontMatterError { start: self.at(at), end: self.at(end), message: String::from_str(m) }
    }
}

// ---------------------------------------------------------------------------------------
// Messages
// ---------------------------------------------------------------------------------------

/// The message for a construct outside the subset that starts with `c`, if any.
pub open spec fn rejected_message(c: char) -> Option<Seq<char>> {
    if c == '&' {
        Some("anchors are outside the accepted front matter subset"@)
    } else if c == '*' {
        Some("aliases are outside the accepted front matter subset"@)
    } else if c == '!' {
        Some("tags are outside the accepted front matter subset"@)
    } else if c == '|' || c == '>' {
        Some("block scalars are outside the accepted front matter subset"@)
    } else if c == '{' {
        Some("flow mappings are outside the accepted front matter subset"@)
    } else if c == '@' || c == '`' {
        Some("reserved YAML indicators cannot start a plain scalar"@)
    } else {
        None
    }
}

fn rejected_indicator(c: char) -> (r: Option<&'static str>)
    ensures
        match r {
            Some(m) => rejected_message(c) == Some(m@),
            None => rejected_message(c) is None,
        },
{
    if c == '&' {
        Some("anchors are outside the accepted front matter subset")
    } else if c == '*' {
        Some("aliases are outside the accepted front matter subset")
    } else if c == '!' {
        Some("tags are outside the accepted front matter subset")
    } else if c == '|' || c == '>' {
        Some("block scalars are outside the accepted front matter subset")
    } else if c == '{' {
        Some("flow mappings are outside the accepted front matter subset")
    } else if c == '@' || c == '`' {
        Some("reserved YAML indicators cannot start a plain scalar")
    } else {
        None
    }
}

// ---------------------------------------------------------------------------------------
// Quoted scalars
// ---------------------------------------------------------------------------------------

/// The character a one-letter escape stands for inside a double-quoted scalar.
pub open spec fn simple_escape(e: char) -> Option<char> {
    if e == '"' {
        Some('"')
    } else if e == '\\' {
        Some('\\')
    } else if e == '/' {
        Some('/')
    } else if e == 'n' {
        Some('\n')
    } else if e == 't' {
        Some('\t')
    } else if e == 'r' {
        Some('\r')
    } else if e == '0' {
        Some('\0')
    } else {
        None
    }
}

/// `cs[a..b]` are all hexadecimal digits.
pub open spec fn all_hex(cs: Seq<char>, a: int, b: int) -> bool {
    forall|k: int| a <= k < b ==> is_hex_char(cs[k])
}

/// The character `\x` (two digits) or `\u` (four digits) at `cs[d..]` encodes.
pub open spec fn hex_escape(cs: Seq<char>, d: int, n: int, hi: int) -> Option<char> {
    if d + n <= hi && all_hex(cs, d, d + n) {
        let v = hex_value(cs.subrange(d, d + n));
        if v <= u32::MAX && is_scalar(v as u32) {
            Some((v as u32) as char)
        } else {
            None
        }
    } else {
        None
    }
}

/// Scans a scalar quoted with `q` from character `i` of `cs[lo..hi]`, with `out` decoded
/// so far: the decoded text and the index just past the closing quote.
pub open spec fn quoted_from(
    cs: Seq<char>,
    base: int,
    lo: int,
    hi: int,
    q: char,
    i: int,
    out: Seq<char>,
) -> Result<(Seq<char>, int), Rejection>
    decreases hi - i,
{
    if i < 0 || i >= hi {
        Err(rej(cs, base, lo, hi, "unterminated quoted scalar"@))
    } else {
        let c = cs[i];
        if c == q {
            if q == '\'' && i + 1 < hi && cs[i + 1] == '\'' {
                quoted_from(cs, base, lo, hi, q, i + 2, out.push('\''))
            } else {
                Ok((out, i + 1))
            }
        } else if c == '\\' && q == '"' {
            if i + 1 >= hi {
                Err(rej(cs, base, lo, hi, "unterminated quoted scalar"@))
            } else {
                let e = cs[i + 1];
                match simple_escape(e) {
                    Some(x) => quoted_from(cs, base, lo, hi, q, i + 2, out.push(x)),
                    None => if e == 'x' || e == 'u' {
                        let n: int = if e == 'x' {
                            2
                        } else {
                            4
                        };
                        match hex_escape(cs, i + 2, n, hi) {
                            Some(x) => quoted_from(cs, base, lo, hi, q, i + 2 + n, out.push(x)),
                            None => Err(
                                rej(cs, base, i + 1, hi, "invalid escape in quoted scalar"@),
                            ),
                        }
                    } else {
                        Err(rej(cs, base, i + 1, hi, "invalid escape in quoted scalar"@))
                    },
                }
            }
        } else if c == '\n' {
            Err(rej(cs, base, lo, hi, "unterminated quoted scalar"@))
        } else {
            quoted_from(cs, base, lo, hi, q, i + 1, out.push(c))
        }
    }
}

/// A single- or double-quoted scalar at the start of `cs[lo..hi]`: the decoded string
/// and the index just past it. Inside single quotes `''` is a quote; inside double
/// quotes the escapes are `\" \\ \/ \n \t \r \0`, `\xHH` and `\uHHHH`.
pub open spec fn quoted(cs: Seq<char>, base: int, lo: int, hi: int) -> Result<
    (Seq<char>, int),
    Rejection,
> {
    quoted_from(cs, base, lo, hi, cs[lo], lo + 1, Seq::empty())
}

/// A scan that succeeds ends after its start and within its text.
pub proof fn lemma_quoted_from_bounds(
    cs: Seq<char>,
    base: int,
    lo: int,
    hi: int,
    q: char,
    i: int,
    out: Seq<char>,
)
    ensures
        quoted_from(cs, base, lo, hi, q, i, out) matches Ok((_, u)) ==> i < u <= hi,
    decreases hi - i,
{
    if 0 <= i < hi {
        let c = cs[i];
        if c == q {
            if q == '\'' && i + 1 < hi && cs[i + 1] == '\'' {
                lemma_quoted_from_bounds(cs, base, lo, hi, q, i + 2, out.push('\''));
            }
        } else if c == '\\' && q == '"' {
            if i + 1 < hi {
                let e = cs[i + 1];
                match simple_escape(e) {
                    Some(x) => lemma_quoted_from_bounds(cs, base, lo, hi, q, i + 2, out.push(x)),
                    None => if e == 'x' || e == 'u' {
                        let n: int = if e == 'x' {
                            2
                        } else {
                            4
                        };
                        match hex_escape(cs, i + 2, n, hi) {
                            Some(x) => lemma_quoted_from_bounds(
                                cs,
                                base,
                                lo,
                                hi,
                                q,
                                i + 2 + n,
                                out.push(x),
                            ),
                            None => {},
                        }
                    },
                }
            }
        } else if c != '\n' {
            lemma_quoted_from_bounds(cs, base, lo, hi, q, i + 1, out.push(c));
        }
    }
}

/// The character of the `n` hexadecimal digits at `cs[d..]`, if they are there and
/// encode a scalar value.
fn hex_escape_exec(b: &Body, d: usize, n: usize, hi: usize) -> (r: Option<char>)
    requires
        b.wf(),
        hi <= b.cs@.len(),
        n == 2 || n == 4,
    ensures
        r == hex_escape(b.cs@, d as int, n as int, hi as int),
{
    if d > hi || hi - d < n {
        return None;
    }
    let mut k = d;
    while k < d + n
        invariant
            d <= k <= d + n <= hi <= b.cs@.len(),
            forall|j: int| d <= j < k ==> is_hex_char(b.cs@[j]),
        decreases d + n - k,
    {
        let c = b.cs[k];
        if !(('0' <= c && c <= '9') || ('a' <= c && c <= 'f') || ('A' <= c && c <= 'F')) {
            return None;
        }
        k += 1;
    }
    let v = digits_value(&b.cs, d, d + n, true);
    match crate::text::char_from_u32(v) {
        Some(c) => {
            proof {
                vstd::utf8::char_u32_cast(c, v);
            }
            Some(c)
        },
        None => None,
    }
}

/// Parses the quoted scalar at the start of `cs[lo..hi]`.
fn parse_quoted(b: &Body, lo: usize, hi: usize) -> (r: Result<(String, usize), FrontMatterError>)
    requires
        b.wf(),
        lo < hi <= b.cs@.len(),
    ensures
        match r {
            Ok((s, u)) => quoted(b.cs@, b.base as int, lo as int, hi as int) == Ok::<
                (Seq<char>, int),
                Rejection,
            >((s@, u as int)),
            Err(e) => quoted(b.cs@, b.base as int, lo as int, hi as int) == Err::<
                (Seq<char>, int),
                Rejection,
            >(e@),
        },
{
    let ghost cs = b.cs@;
    let ghost base = b.base as int;
    let q = b.cs[lo];
    let mut out = String::new();
    let mut i = lo + 1;
    loop
        invariant
            b.wf(),
            cs == b.cs@,
            base == b.base,
            lo < i <= hi + 1,
            hi <= cs.len(),
            q == cs[lo as int],
            quoted_from(cs, base, lo as int, hi as int, q, i as int, out@) == quoted(
                cs,
                base,
                lo as int,
                hi as int,
            ),
        decreases hi + 1 - i,
    {
        if i >= hi {
            return Err(b.rej(lo, hi, "unterminated quoted scalar"));
        }
        let c = b.cs[i];
        if c == q {
            if q == '\'' && i + 1 < hi && b.cs[i + 1] == '\'' {
                push_char(&mut out, '\'');
                i += 2;
                continue;
            }
            return Ok((out, i + 1));
        }
        if c == '\\' && q == '"' {
            if i + 1 >= hi {
                return Err(b.rej(lo, hi, "unterminated quoted scalar"));
            }
            let e = b.cs[i + 1];
            let simple: Option<char> = if e == '"' {
                Some('"')
            } else if e == '\\' {
                Some('\\')
            } else if e == '/' {
                Some('/')
            } else if e == 'n' {
                Some('\n')
            } else if e == 't' {
                Some('\t')
            } else if e == 'r' {
                Some('\r')
            } else if e == '0' {
                Some('\0')
            } else {
                None
            };
            assert(simple == simple_escape(e));
            match simple {
                Some(x) => {
                    push_char(&mut out, x);
                    i += 2;
                    continue;
                },
                None => {},
            }
            if e == 'x' || e == 'u' {
                let n: usize = if e == 'x' {
                    2
                } else {
                    4
                };
                match hex_escape_exec(b, i + 2, n, hi) {
                    Some(x) => {
                        push_char(&mut out, x);
                        i += 2 + n;
                        continue;
                    },
                    None => {
                        return Err(b.rej(i + 1, hi, "invalid escape in quoted scalar"));
                    },
                }
            }
            return Err(b.rej(i + 1, hi, "invalid escape in quoted scalar"));
        }
        if c == '\n' {
            return Err(b.rej(lo, hi, "unterminated quoted scalar"));
        }
        push_char(&mut out, c);
        i += 1;
    }
}

// ---------------------------------------------------------------------------------------
// Scanning helpers
// ---------------------------------------------------------------------------------------

/// A space or a tab.
pub open spec fn is_sp(c: char) -> bool {
    c == ' ' || c == '\t'
}

/// The first index at or after `i` in `cs[..hi]` that is not a space or a tab.
pub open spec fn sp_end(cs: Seq<char>, i: int, hi: int) -> int
    decreases hi - i,
{
    if 0 <= i < hi && is_sp(cs[i]) {
        sp_end(cs, i + 1, hi)
    } else {
        i
    }
}

pub proof fn lemma_sp_end(cs: Seq<char>, i: int, hi: int)
    requires
        0 <= i,
    ensures
        i <= hi ==> i <= sp_end(cs, i, hi) <= hi,
        i > hi ==> sp_end(cs, i, hi) == i,
        forall|k: int| i <= k < sp_end(cs, i, hi) ==> is_sp(cs[k]),
    decreases hi - i,
{
    if 0 <= i < hi && is_sp(cs[i]) {
        lemma_sp_end(cs, i + 1, hi);
    }
}

/// The first ` #` comment start in `cs[lo..hi]`, scanning from `k`, or `hi`.
pub open spec fn comment_from(cs: Seq<char>, lo: int, hi: int, k: int) -> int
    decreases hi - k,
{
    if k < 0 || k >= hi {
        hi
    } else if k > lo && cs[k] == '#' && is_sp(cs[k - 1]) {
        k
    } else {
        comment_from(cs, lo, hi, k + 1)
    }
}

/// Where a plain scalar's comment starts: at the first `#` that follows a space or a
/// tab, and nowhere else. A `#` with anything else before it (`C#`, `a#b`) is text, so a
/// value with no ` #` or `\t#` is kept whole.
pub proof fn lemma_comment_starts_after_space(cs: Seq<char>, lo: int, hi: int)
    requires
        0 <= lo <= hi <= cs.len(),
    ensures
        lo <= comment_from(cs, lo, hi, lo) <= hi,
        comment_from(cs, lo, hi, lo) < hi ==> {
            let k = comment_from(cs, lo, hi, lo);
            &&& k > lo
            &&& cs[k] == '#'
            &&& (cs[k - 1] == ' ' || cs[k - 1] == '\t')
        },
        forall|j: int|
            lo < j < comment_from(cs, lo, hi, lo) ==> !(#[trigger] cs[j] == '#' && (cs[j - 1] == ' '
                || cs[j - 1] == '\t')),
{
    lemma_comment_scan(cs, lo, hi, lo);
}

proof fn lemma_comment_scan(cs: Seq<char>, lo: int, hi: int, k: int)
    requires
        0 <= lo <= k <= hi <= cs.len(),
    ensures
        k <= comment_from(cs, lo, hi, k) <= hi,
        comment_from(cs, lo, hi, k) < hi ==> {
            let m = comment_from(cs, lo, hi, k);
            &&& m > lo
            &&& cs[m] == '#'
            &&& (cs[m - 1] == ' ' || cs[m - 1] == '\t')
        },
        forall|j: int|
            k <= j < comment_from(cs, lo, hi, k) && j > lo ==> !(#[trigger] cs[j] == '#' && (cs[j
                - 1] == ' ' || cs[j - 1] == '\t')),
    decreases hi - k,
{
    if k < hi && !(k > lo && cs[k] == '#' && is_sp(cs[k - 1])) {
        lemma_comment_scan(cs, lo, hi, k + 1);
    }
}

/// The colon that ends a plain key in `cs[lo..hi]`, scanning from `k`: a `:` followed by a
/// space, a tab or the end, unless a ` #` comment comes first.
pub open spec fn colon_from(cs: Seq<char>, lo: int, hi: int, k: int) -> Option<int>
    decreases hi - k,
{
    if k < 0 || k >= hi {
        None
    } else if cs[k] == '#' && k > lo && is_sp(cs[k - 1]) {
        None
    } else if cs[k] == ':' && (k + 1 == hi || is_sp(cs[k + 1])) {
        Some(k)
    } else {
        colon_from(cs, lo, hi, k + 1)
    }
}

/// The colon that ends a plain key is the first `:` followed by a space, a tab or the
/// end, provided no ` #` comment starts before it; a `:` inside a word (`a:b`) is text.
pub proof fn lemma_key_colon_is_first_separator(cs: Seq<char>, lo: int, hi: int)
    requires
        0 <= lo <= hi <= cs.len(),
    ensures
        colon_from(cs, lo, hi, lo) matches Some(c) ==> {
            &&& lo <= c < hi
            &&& cs[c] == ':'
            &&& (c + 1 == hi || cs[c + 1] == ' ' || cs[c + 1] == '\t')
            &&& forall|j: int|
                lo <= j < c ==> !(#[trigger] cs[j] == ':' && (j + 1 == hi || cs[j + 1] == ' ' || cs[j
                    + 1] == '\t')) && !(cs[j] == '#' && j > lo && (cs[j - 1] == ' ' || cs[j - 1] == '\t'))
        },
{
    lemma_colon_scan(cs, lo, hi, lo);
}

proof fn lemma_colon_scan(cs: Seq<char>, lo: int, hi: int, k: int)
    requires
        0 <= lo <= k <= hi <= cs.len(),
    ensures
        colon_from(cs, lo, hi, k) matches Some(c) ==> {
            &&& k <= c < hi
            &&& cs[c] == ':'
            &&& (c + 1 == hi || cs[c + 1] == ' ' || cs[c + 1] == '\t')
            &&& forall|j: int|
                k <= j < c ==> !(#[trigger] cs[j] == ':' && (j + 1 == hi || cs[j + 1] == ' ' || cs[j
                    + 1] == '\t')) && !(cs[j] == '#' && j > lo && (cs[j - 1] == ' ' || cs[j - 1] == '\t'))
        },
    decreases hi - k,
{
    if k < hi && !(cs[k] == '#' && k > lo && is_sp(cs[k - 1])) && !(cs[k] == ':' && (k + 1 == hi
        || is_sp(cs[k + 1]))) {
        lemma_colon_scan(cs, lo, hi, k + 1);
    }
}

/// A character that ends a plain item of a flow sequence.
pub open spec fn is_flow_delim(c: char) -> bool {
    c == ',' || c == ']' || c == '[' || c == '{' || c == '}'
}

/// The first flow delimiter at or after `k` in `cs[..hi]`, or `hi`.
pub open spec fn delim_from(cs: Seq<char>, k: int, hi: int) -> int
    decreases hi - k,
{
    if k < 0 || k >= hi {
        hi
    } else if is_flow_delim(cs[k]) {
        k
    } else {
        delim_from(cs, k + 1, hi)
    }
}

pub proof fn lemma_delim_from(cs: Seq<char>, k: int, hi: int)
    requires
        0 <= k <= hi,
    ensures
        k <= delim_from(cs, k, hi) <= hi,
    decreases hi - k,
{
    if k < hi && !is_flow_delim(cs[k]) {
        lemma_delim_from(cs, k + 1, hi);
    }
}

pub proof fn lemma_ws_trail(cs: Seq<char>, lo: int, j: int)
    requires
        0 <= lo <= j,
    ensures
        lo <= ws_trail(cs, lo, j) <= j,
    decreases j - lo,
{
    if lo < j <= cs.len() && is_unicode_ws(cs[j - 1]) {
        lemma_ws_trail(cs, lo, j - 1);
    }
}

/// The message for nesting deeper than `max_depth`.
pub open spec fn nest_message(max_depth: nat) -> Seq<char> {
    "front matter nests deeper than "@ + decimal(max_depth) + " levels"@
}

fn nest_error(b: &Body, at: usize, end: usize, max_depth: usize) -> (r: FrontMatterError)
    requires
        b.wf(),
        at <= b.cs@.len(),
        end <= b.cs@.len(),
    ensures
        r@ == rej(b.cs@, b.base as int, at as int, end as int, nest_message(max_depth as nat)),
{
    let mut m = String::from_str("front matter nests deeper than ");
    push_decimal(&mut m, max_depth);
    crate::text::push_str(&mut m, " levels");
    FrontMatterError { start: b.at(at), end: b.at(end), message: m }
}

impl Body {
    fn sp_end(&self, i: usize, hi: usize) -> (r: usize)
        requires
            i <= hi <= self.cs@.len(),
        ensures
            r == sp_end(self.cs@, i as int, hi as int),
            i <= r <= hi,
    {
        proof {
            lemma_sp_end(self.cs@, i as int, hi as int);
        }
        let mut k = i;
        while k < hi && (self.cs[k] == ' ' || self.cs[k] == '\t')
            invariant
                i <= k <= hi <= self.cs@.len(),
                sp_end(self.cs@, k as int, hi as int) == sp_end(self.cs@, i as int, hi as int),
            decreases hi - k,
        {
            k += 1;
        }
        k
    }

    fn trim_end(&self, lo: usize, hi: usize) -> (r: usize)
        requires
            lo <= hi <= self.cs@.len(),
        ensures
            r == ws_trail(self.cs@, lo as int, hi as int),
            lo <= r <= hi,
    {
        proof {
            lemma_ws_trail(self.cs@, lo as int, hi as int);
        }
        let mut k = hi;
        while k > lo && is_whitespace(self.cs[k - 1])
            invariant
                lo <= k <= hi <= self.cs@.len(),
                ws_trail(self.cs@, lo as int, k as int) == ws_trail(self.cs@, lo as int, hi as int),
            decreases k,
        {
            k -= 1;
        }
        k
    }

    fn comment_start(&self, lo: usize, hi: usize) -> (r: usize)
        requires
            lo <= hi <= self.cs@.len(),
        ensures
            r == comment_from(self.cs@, lo as int, hi as int, lo as int),
            lo <= r <= hi,
    {
        let mut k = lo;
        while k < hi
            invariant
                lo <= k <= hi <= self.cs@.len(),
                comment_from(self.cs@, lo as int, hi as int, k as int) == comment_from(
                    self.cs@,
                    lo as int,
                    hi as int,
                    lo as int,
                ),
            decreases hi - k,
        {
            if k > lo && self.cs[k] == '#' && (self.cs[k - 1] == ' ' || self.cs[k - 1] == '\t') {
                return k;
            }
            k += 1;
        }
        hi
    }

    fn key_colon(&self, lo: usize, hi: usize) -> (r: Option<usize>)
        requires
            lo <= hi <= self.cs@.len(),
        ensures
            match r {
                Some(c) => colon_from(self.cs@, lo as int, hi as int, lo as int) == Some(c as int)
                    && lo <= c < hi,
                None => colon_from(self.cs@, lo as int, hi as int, lo as int) is None,
            },
    {
        let mut k = lo;
        while k < hi
            invariant
                lo <= k <= hi <= self.cs@.len(),
                colon_from(self.cs@, lo as int, hi as int, k as int) == colon_from(
                    self.cs@,
                    lo as int,
                    hi as int,
                    lo as int,
                ),
            decreases hi - k,
        {
            let c = self.cs[k];
            if c == '#' && k > lo && (self.cs[k - 1] == ' ' || self.cs[k - 1] == '\t') {
                return None;
            }
            if c == ':' && (k + 1 == hi || self.cs[k + 1] == ' ' || self.cs[k + 1] == '\t') {
                return Some(k);
            }
            k += 1;
        }
        None
    }

    fn delim(&self, i: usize, hi: usize) -> (r: usize)
        requires
            i <= hi <= self.cs@.len(),
        ensures
            r == delim_from(self.cs@, i as int, hi as int),
            i <= r <= hi,
    {
        proof {
            lemma_delim_from(self.cs@, i as int, hi as int);
        }
        let mut k = i;
        while k < hi
            invariant
                i <= k <= hi <= self.cs@.len(),
                delim_from(self.cs@, k as int, hi as int) == delim_from(
                    self.cs@,
                    i as int,
                    hi as int,
                ),
            decreases hi - k,
        {
            let c = self.cs[k];
            if c == ',' || c == ']' || c == '[' || c == '{' || c == '}' {
                return k;
            }
            k += 1;
        }
        hi
    }
}

// ---------------------------------------------------------------------------------------
// Keys
// ---------------------------------------------------------------------------------------

/// `key:` at the start of `cs[lo..hi]`: the key, its character range and the index just
/// past the `:`. A quoted key may be followed by spaces before its colon; a plain key
/// ends at the first `:` followed by a space, a tab or the end, and loses trailing
/// whitespace.
pub open spec fn key_at(cs: Seq<char>, base: int, lo: int, hi: int) -> Result<
    (Seq<char>, int, int, int),
    Rejection,
> {
    let first = if lo < hi {
        cs[lo]
    } else {
        ' '
    };
    let expected = rej(cs, base, lo, hi, "expected `key: value`"@);
    if first == '"' || first == '\'' {
        match quoted(cs, base, lo, hi) {
            Err(x) => Err(x),
            Ok((k, u)) => {
                let t = sp_end(cs, u, hi);
                if t < hi && cs[t] == ':' {
                    Ok((k, lo, u, t + 1))
                } else {
                    Err(expected)
                }
            },
        }
    } else {
        match rejected_message(first) {
            Some(m) => Err(rej(cs, base, lo, hi, m)),
            None => if first == '[' {
                Err(
                    rej(
                        cs,
                        base,
                        lo,
                        hi,
                        "flow sequences as keys are outside the accepted front matter subset"@,
                    ),
                )
            } else {
                match colon_from(cs, lo, hi, lo) {
                    None => Err(expected),
                    Some(c) => {
                        let ke = ws_trail(cs, lo, c);
                        if ke == lo {
                            Err(expected)
                        } else {
                            Ok((cs.subrange(lo, ke), lo, ke, c + 1))
                        }
                    },
                }
            },
        }
    }
}

/// Parses `key:` at the start of `cs[lo..hi]`.
fn parse_key(b: &Body, lo: usize, hi: usize) -> (r: Result<
    (String, usize, usize, usize),
    FrontMatterError,
>)
    requires
        b.wf(),
        lo <= hi <= b.cs@.len(),
    ensures
        match r {
            Ok((k, ks, ke, after)) => key_at(b.cs@, b.base as int, lo as int, hi as int) == Ok::<
                (Seq<char>, int, int, int),
                Rejection,
            >((k@, ks as int, ke as int, after as int)) && lo <= ks <= ke < after <= hi,
            Err(e) => key_at(b.cs@, b.base as int, lo as int, hi as int) == Err::<
                (Seq<char>, int, int, int),
                Rejection,
            >(e@),
        },
{
    let first = if lo < hi {
        b.cs[lo]
    } else {
        ' '
    };
    if first == '"' || first == '\'' {
        let (k, u) = match parse_quoted(b, lo, hi) {
            Ok(x) => x,
            Err(e) => {
                return Err(e);
            },
        };
        proof {
            lemma_quoted_from_bounds(
                b.cs@,
                b.base as int,
                lo as int,
                hi as int,
                first,
                lo + 1,
                Seq::empty(),
            );
        }
        let t = b.sp_end(u, hi);
        if t < hi && b.cs[t] == ':' {
            return Ok((k, lo, u, t + 1));
        }
        return Err(b.rej(lo, hi, "expected `key: value`"));
    }
    match rejected_indicator(first) {
        Some(m) => {
            return Err(b.rej(lo, hi, m));
        },
        None => {},
    }
    if first == '[' {
        return Err(
            b.rej(lo, hi, "flow sequences as keys are outside the accepted front matter subset"),
        );
    }
    match b.key_colon(lo, hi) {
        None => Err(b.rej(lo, hi, "expected `key: value`")),
        Some(c) => {
            let ke = b.trim_end(lo, c);
            if ke == lo {
                Err(b.rej(lo, hi, "expected `key: value`"))
            } else {
                Ok((string_from_chars(&b.cs, lo, ke), lo, ke, c + 1))
            }
        },
    }
}

// ---------------------------------------------------------------------------------------
// Flow sequences
// ---------------------------------------------------------------------------------------

/// A flow sequence `[a, 'b', [c]]` at the start of `cs[lo..hi]` that closes there, at
/// nesting `depth`: the list and the index just past its `]`.
pub open spec fn flow(cs: Seq<char>, base: int, lo: int, hi: int, depth: int, max_depth: int) -> Result<
    (Tree, int),
    Rejection,
>
    decreases hi - lo, 0int,
{
    if depth > max_depth {
        Err(rej(cs, base, lo, hi, nest_message(max_depth as nat)))
    } else if lo < 0 || lo >= hi {
        Err(rej(cs, base, lo, hi, "flow sequence is not closed on its line"@))
    } else {
        flow_items(cs, base, lo, hi, depth, max_depth, lo + 1, Seq::empty())
    }
}

/// The items of the flow sequence that starts at `lo`, from index `i` on, after `items`.
pub open spec fn flow_items(
    cs: Seq<char>,
    base: int,
    lo: int,
    hi: int,
    depth: int,
    max_depth: int,
    i: int,
    items: Seq<Tree>,
) -> Result<(Tree, int), Rejection>
    decreases hi - i, 1int,
{
    if i < 0 || i > hi {
        Err(rej(cs, base, lo, hi, "flow sequence is not closed on its line"@))
    } else {
        let i1 = sp_end(cs, i, hi);
        proof {
            lemma_sp_end(cs, i, hi);
        }
        if i1 >= hi {
            Err(rej(cs, base, lo, hi, "flow sequence is not closed on its line"@))
        } else if cs[i1] == ']' {
            Ok((Tree::List(items), i1 + 1))
        } else {
            let c = cs[i1];
            let item: Result<(Tree, int), Rejection> = if c == '"' || c == '\'' {
                match quoted(cs, base, i1, hi) {
                    Ok((s, u)) => Ok((Tree::Str(s), u)),
                    Err(x) => Err(x),
                }
            } else if c == '[' {
                flow(cs, base, i1, hi, depth + 1, max_depth)
            } else {
                match rejected_message(c) {
                    Some(m) => Err(rej(cs, base, i1, hi, m)),
                    None => {
                        let e = delim_from(cs, i1, hi);
                        if e < hi && (cs[e] == '[' || cs[e] == '{') {
                            Err(
                                rej(
                                    cs,
                                    base,
                                    i1,
                                    hi,
                                    "flow mappings are outside the accepted front matter subset"@,
                                ),
                            )
                        } else {
                            Ok((Tree::Str(cs.subrange(i1, ws_trail(cs, i1, e))), e))
                        }
                    },
                }
            };
            match item {
                Err(x) => Err(x),
                Ok((v, u)) => {
                    let i2 = sp_end(cs, u, hi);
                    if i2 < hi && cs[i2] == ',' {
                        if i2 >= i {
                            flow_items(cs, base, lo, hi, depth, max_depth, i2 + 1, items.push(v))
                        } else {
                            Err(rej(cs, base, i2, hi, "expected `,` or `]` in flow sequence"@))
                        }
                    } else if i2 < hi && cs[i2] == ']' {
                        Ok((Tree::List(items.push(v)), i2 + 1))
                    } else {
                        Err(rej(cs, base, i2, hi, "expected `,` or `]` in flow sequence"@))
                    }
                },
            }
        }
    }
}

/// A flow sequence that parses ends after its `[` and within its text.
pub proof fn lemma_flow_bounds(cs: Seq<char>, base: int, lo: int, hi: int, depth: int, max_depth: int)
    ensures
        flow(cs, base, lo, hi, depth, max_depth) matches Ok((_, u)) ==> lo < u <= hi,
    decreases hi - lo, 0int,
{
    if depth <= max_depth && 0 <= lo < hi {
        lemma_flow_items_bounds(cs, base, lo, hi, depth, max_depth, lo + 1, Seq::empty());
    }
}

pub proof fn lemma_flow_items_bounds(
    cs: Seq<char>,
    base: int,
    lo: int,
    hi: int,
    depth: int,
    max_depth: int,
    i: int,
    items: Seq<Tree>,
)
    ensures
        flow_items(cs, base, lo, hi, depth, max_depth, i, items) matches Ok((_, u)) ==> i < u
            <= hi,
    decreases hi - i, 1int,
{
    if 0 <= i <= hi {
        let i1 = sp_end(cs, i, hi);
        lemma_sp_end(cs, i, hi);
        if i1 < hi && cs[i1] != ']' {
            let c = cs[i1];
            if c == '[' {
                lemma_flow_bounds(cs, base, i1, hi, depth + 1, max_depth);
            }
            lemma_quoted_from_bounds(cs, base, i1, hi, cs[i1], i1 + 1, Seq::empty());
            lemma_delim_from(cs, i1, hi);
            let item: Result<(Tree, int), Rejection> = if c == '"' || c == '\'' {
                match quoted(cs, base, i1, hi) {
                    Ok((s, u)) => Ok((Tree::Str(s), u)),
                    Err(x) => Err(x),
                }
            } else if c == '[' {
                flow(cs, base, i1, hi, depth + 1, max_depth)
            } else {
                match rejected_message(c) {
                    Some(m) => Err(rej(cs, base, i1, hi, m)),
                    None => {
                        let e = delim_from(cs, i1, hi);
                        if e < hi && (cs[e] == '[' || cs[e] == '{') {
                            Err(
                                rej(
                                    cs,
                                    base,
                                    i1,
                                    hi,
                                    "flow mappings are outside the accepted front matter subset"@,
                                ),
                            )
                        } else {
                            Ok((Tree::Str(cs.subrange(i1, ws_trail(cs, i1, e))), e))
                        }
                    },
                }
            };
            if let Ok((v, u)) = item {
                if 0 <= u {
                    lemma_sp_end(cs, u, hi);
                    let i2 = sp_end(cs, u, hi);
                    if i2 < hi && cs[i2] == ',' && i2 >= i {
                        lemma_flow_items_bounds(
                            cs,
                            base,
                            lo,
                            hi,
                            depth,
                            max_depth,
                            i2 + 1,
                            items.push(v),
                        );
                    }
                }
            }
        }
    }
}

/// The trees of a list of values.
pub open spec fn trees(vs: Seq<Value>) -> Seq<Tree> {
    vs.map_values(|v: Value| tree_of(v))
}

/// Parses the flow sequence at the start of `cs[lo..hi]`, at nesting `depth`.
fn parse_flow_seq(b: &Body, lo: usize, hi: usize, depth: usize, max_depth: usize) -> (r: Result<
    (Value, usize),
    FrontMatterError,
>)
    requires
        b.wf(),
        lo < hi <= b.cs@.len(),
        depth <= lo + 1,
    ensures
        match r {
            Ok((v, u)) => flow(
                b.cs@,
                b.base as int,
                lo as int,
                hi as int,
                depth as int,
                max_depth as int,
            ) == Ok::<(Tree, int), Rejection>((tree_of(v), u as int)),
            Err(e) => flow(
                b.cs@,
                b.base as int,
                lo as int,
                hi as int,
                depth as int,
                max_depth as int,
            ) == Err::<(Tree, int), Rejection>(e@),
        },
    decreases hi - lo,
{
    let ghost cs = b.cs@;
    let ghost base = b.base as int;
    if depth > max_depth {
        return Err(nest_error(b, lo, hi, max_depth));
    }
    let mut items: Vec<Value> = Vec::new();
    let mut i = lo + 1;
    proof {
        assert(trees(items@) =~= Seq::<Tree>::empty());
    }
    loop
        invariant
            b.wf(),
            cs == b.cs@,
            base == b.base,
            lo < i <= hi <= cs.len(),
            depth <= lo + 1,
            depth <= max_depth,
            flow_items(
                cs,
                base,
                lo as int,
                hi as int,
                depth as int,
                max_depth as int,
                i as int,
                trees(items@),
            ) == flow(cs, base, lo as int, hi as int, depth as int, max_depth as int),
        decreases hi - i,
    {
        let i1 = b.sp_end(i, hi);
        if i1 >= hi {
            return Err(b.rej(lo, hi, "flow sequence is not closed on its line"));
        }
        if b.cs[i1] == ']' {
            proof {
                lemma_list_tree(items);
            }
            return Ok((Value::List(items), i1 + 1));
        }
        let c = b.cs[i1];
        let ghost item: Result<(Tree, int), Rejection> = if c == '"' || c == '\'' {
            match quoted(cs, base, i1 as int, hi as int) {
                Ok((s, u)) => Ok((Tree::Str(s), u)),
                Err(x) => Err(x),
            }
        } else if c == '[' {
            flow(cs, base, i1 as int, hi as int, depth + 1, max_depth as int)
        } else {
            match rejected_message(c) {
                Some(m) => Err(rej(cs, base, i1 as int, hi as int, m)),
                None => {
                    let e = delim_from(cs, i1 as int, hi as int);
                    if e < hi && (cs[e] == '[' || cs[e] == '{') {
                        Err(
                            rej(
                                cs,
                                base,
                                i1 as int,
                                hi as int,
                                "flow mappings are outside the accepted front matter subset"@,
                            ),
                        )
                    } else {
                        Ok((Tree::Str(cs.subrange(i1 as int, ws_trail(cs, i1 as int, e))), e))
                    }
                },
            }
        };
        let (v, u) = if c == '"' || c == '\'' {
            match parse_quoted(b, i1, hi) {
                Ok((s, u)) => {
                    proof {
                        lemma_quoted_from_bounds(
                            cs,
                            base,
                            i1 as int,
                            hi as int,
                            c,
                            i1 + 1,
                            Seq::empty(),
                        );
                    }
                    (Value::Str(s), u)
                },
                Err(e) => {
                    return Err(e);
                },
            }
        } else if c == '[' {
            match parse_flow_seq(b, i1, hi, depth + 1, max_depth) {
                Ok((v, u)) => {
                    proof {
                        lemma_flow_bounds(
                            cs,
                            base,
                            i1 as int,
                            hi as int,
                            depth + 1,
                            max_depth as int,
                        );
                    }
                    (v, u)
                },
                Err(e) => {
                    return Err(e);
                },
            }
        } else {
            match rejected_indicator(c) {
                Some(m) => {
                    return Err(b.rej(i1, hi, m));
                },
                None => {},
            }
            let e = b.delim(i1, hi);
            if e < hi && (b.cs[e] == '[' || b.cs[e] == '{') {
                return Err(
                    b.rej(i1, hi, "flow mappings are outside the accepted front matter subset"),
                );
            }
            let t = b.trim_end(i1, e);
            (Value::Str(string_from_chars(&b.cs, i1, t)), e)
        };
        assert(item == Ok::<(Tree, int), Rejection>((tree_of(v), u as int)));
        let i2 = b.sp_end(u, hi);
        let ghost before = trees(items@);
        items.push(v);
        proof {
            assert(trees(items@) =~= before.push(tree_of(v)));
        }
        if i2 < hi && b.cs[i2] == ',' {
            i = i2 + 1;
        } else if i2 < hi && b.cs[i2] == ']' {
            proof {
                lemma_list_tree(items);
            }
            return Ok((Value::List(items), i2 + 1));
        } else {
            return Err(b.rej(i2, hi, "expected `,` or `]` in flow sequence"));
        }
    }
}

// ---------------------------------------------------------------------------------------
// Block values
// ---------------------------------------------------------------------------------------

/// After a quoted scalar or a flow sequence that ends at `u`, only spaces and a ` #`
/// comment may follow.
pub open spec fn with_tail(cs: Seq<char>, base: int, lo: int, hi: int, u: int, v: Tree) -> Result<
    Tree,
    Rejection,
> {
    let t = sp_end(cs, u, hi);
    if t >= hi || (cs[t] == '#' && t > u) {
        Ok(v)
    } else {
        Err(rej(cs, base, lo, hi, "unexpected text after the value"@))
    }
}

/// A value in block context at `cs[lo..hi0]` (which starts with neither a space nor a
/// `#`): a quoted scalar, a flow sequence or a plain scalar, optionally followed by a
/// comment. Trailing whitespace is not part of the value.
pub open spec fn block_value(cs: Seq<char>, base: int, lo: int, hi0: int, max_depth: int) -> Result<
    Tree,
    Rejection,
> {
    let hi = ws_trail(cs, lo, hi0);
    let first = if lo < hi {
        cs[lo]
    } else {
        ' '
    };
    if first == '"' || first == '\'' {
        match quoted(cs, base, lo, hi) {
            Err(x) => Err(x),
            Ok((s, u)) => with_tail(cs, base, lo, hi, u, Tree::Str(s)),
        }
    } else if first == '[' {
        match flow(cs, base, lo, hi, 1, max_depth) {
            Err(x) => Err(x),
            Ok((v, u)) => with_tail(cs, base, lo, hi, u, v),
        }
    } else if first == '-' && (hi - lo == 1 || (hi - lo >= 2 && cs[lo + 1] == ' ')) {
        Err(rej(cs, base, lo, hi, "block sequences are outside the accepted front matter subset"@))
    } else {
        match rejected_message(first) {
            Some(m) => Err(rej(cs, base, lo, hi, m)),
            None => {
                let pe = ws_trail(cs, lo, comment_from(cs, lo, hi, lo));
                let plain = cs.subrange(lo, pe);
                if crate::text::contains_seq(plain, ": "@) || (pe > lo && cs[pe - 1] == ':') {
                    Err(
                        rej(
                            cs,
                            base,
                            lo,
                            hi,
                            "`: ` inside a plain scalar is outside the accepted front matter subset; quote the value"@,
                        ),
                    )
                } else {
                    Ok(Tree::Str(plain))
                }
            },
        }
    }
}

/// A plain value is kept whole: a `#` is text unless a space or a tab comes before it
/// (`C# basics` stays `C# basics`). A plain scalar with no ` #`, `\t#` or `: ` in it, that
/// ends in neither whitespace nor `:`, is the value itself.
pub proof fn lemma_plain_value_kept_whole(cs: Seq<char>, base: int, lo: int, hi: int, max_depth: int)
    requires
        0 <= lo < hi <= cs.len(),
        !is_unicode_ws(cs[hi - 1]),
        cs[hi - 1] != ':',
        cs[lo] != '"' && cs[lo] != '\'' && cs[lo] != '[',
        !(cs[lo] == '-' && (hi - lo == 1 || cs[lo + 1] == ' ')),
        rejected_message(cs[lo]) is None,
        forall|k: int| lo < k < hi ==> !(#[trigger] cs[k] == '#' && is_sp(cs[k - 1])),
        forall|k: int| lo <= k < hi - 1 ==> !(#[trigger] cs[k] == ':' && cs[k + 1] == ' '),
    ensures
        block_value(cs, base, lo, hi, max_depth) == Ok::<Tree, Rejection>(Tree::Str(cs.subrange(lo, hi))),
{
    assert(ws_trail(cs, lo, hi) == hi);
    lemma_comment_starts_after_space(cs, lo, hi);
    if comment_from(cs, lo, hi, lo) < hi {
        let k = comment_from(cs, lo, hi, lo);
        assert(cs[k] == '#' && is_sp(cs[k - 1]));
    }
    assert(comment_from(cs, lo, hi, lo) == hi);
    let plain = cs.subrange(lo, hi);
    reveal_strlit(": ");
    assert(!crate::text::contains_seq(plain, ": "@)) by {
        assert forall|i: int| 0 <= i <= plain.len() - 2 implies #[trigger] plain.subrange(i, i + 2)
            != ": "@ by {
            assert(plain[i] == cs[lo + i]);
            assert(plain[i + 1] == cs[lo + i + 1]);
            if plain.subrange(i, i + 2) == ": "@ {
                assert(plain.subrange(i, i + 2)[0] == ':');
                assert(plain.subrange(i, i + 2)[1] == ' ');
                assert(cs[lo + i] == ':' && cs[lo + i + 1] == ' ');
            }
        }
    }
}

/// Parses the value in block context at `cs[lo..hi0]`.
fn parse_block_value(b: &Body, lo: usize, hi0: usize, max_depth: usize) -> (r: Result<
    Value,
    FrontMatterError,
>)
    requires
        b.wf(),
        lo <= hi0 <= b.cs@.len(),
    ensures
        match r {
            Ok(v) => block_value(b.cs@, b.base as int, lo as int, hi0 as int, max_depth as int)
                == Ok::<Tree, Rejection>(tree_of(v)),
            Err(e) => block_value(b.cs@, b.base as int, lo as int, hi0 as int, max_depth as int)
                == Err::<Tree, Rejection>(e@),
        },
{
    let hi = b.trim_end(lo, hi0);
    let first = if lo < hi {
        b.cs[lo]
    } else {
        ' '
    };
    if first == '"' || first == '\'' || first == '[' {
        let (v, u) = if first == '[' {
            match parse_flow_seq(b, lo, hi, 1, max_depth) {
                Ok(x) => x,
                Err(e) => {
                    return Err(e);
                },
            }
        } else {
            match parse_quoted(b, lo, hi) {
                Ok((s, u)) => (Value::Str(s), u),
                Err(e) => {
                    return Err(e);
                },
            }
        };
        proof {
            if first == '[' {
                lemma_flow_bounds(b.cs@, b.base as int, lo as int, hi as int, 1, max_depth as int);
            } else {
                lemma_quoted_from_bounds(
                    b.cs@,
                    b.base as int,
                    lo as int,
                    hi as int,
                    first,
                    lo + 1,
                    Seq::empty(),
                );
            }
        }
        let t = b.sp_end(u, hi);
        if t >= hi || (b.cs[t] == '#' && t > u) {
            return Ok(v);
        }
        return Err(b.rej(lo, hi, "unexpected text after the value"));
    }
    if first == '-' && (hi - lo == 1 || (hi - lo >= 2 && b.cs[lo + 1] == ' ')) {
        return Err(b.rej(lo, hi, "block sequences are outside the accepted front matter subset"));
    }
    match rejected_indicator(first) {
        Some(m) => {
            return Err(b.rej(lo, hi, m));
        },
        None => {},
    }
    let pe = b.trim_end(lo, b.comment_start(lo, hi));
    if crate::text::contains_at(&b.cs, lo, pe, ": ") || (pe > lo && b.cs[pe - 1] == ':') {
        return Err(
            b.rej(
                lo,
                hi,
                "`: ` inside a plain scalar is outside the accepted front matter subset; quote the value",
            ),
        );
    }
    Ok(Value::Str(string_from_chars(&b.cs, lo, pe)))
}

// ---------------------------------------------------------------------------------------
// Block mappings
// ---------------------------------------------------------------------------------------

/// A block mapping still open while the lines are read.
pub struct MapState {
    pub indent: int,
    pub entries: Seq<Keyed>,
    /// A key whose value is on the following, more indented lines, with its byte range.
    pub pending: Option<(Seq<char>, int, int)>,
}

/// A key with no nested lines has a null value.
pub open spec fn flush(f: MapState) -> MapState {
    match f.pending {
        Some((k, s, e)) => MapState {
            indent: f.indent,
            entries: f.entries.push(Keyed { key: k, start: s, end: e, value: Tree::Null }),
            pending: None,
        },
        None => f,
    }
}

/// Pops the innermost mapping and stores it under its parent's pending key.
pub open spec fn close_top(st: Seq<MapState>) -> Seq<MapState> {
    let f = flush(st.last());
    let rest = st.drop_last();
    if rest.len() > 0 {
        let p = rest.last();
        match p.pending {
            Some((k, s, e)) => rest.update(
                rest.len() - 1,
                MapState {
                    indent: p.indent,
                    entries: p.entries.push(
                        Keyed { key: k, start: s, end: e, value: Tree::Mapping(f.entries) },
                    ),
                    pending: None,
                },
            ),
            None => rest,
        }
    } else {
        rest
    }
}

/// Closes the mappings indented deeper than `indent`, keeping the outermost one.
pub open spec fn pop_deeper(st: Seq<MapState>, indent: int) -> Seq<MapState>
    decreases st.len(),
{
    if st.len() > 1 && indent < st.last().indent {
        pop_deeper(close_top(st), indent)
    } else {
        st
    }
}

/// Closes every mapping but the outermost.
pub open spec fn close_all(st: Seq<MapState>) -> Seq<MapState>
    decreases st.len(),
{
    if st.len() > 1 {
        close_all(close_top(st))
    } else {
        st
    }
}

/// `key` is already in the mapping, or waits there for its value.
pub open spec fn has_key(f: MapState, key: Seq<char>) -> bool {
    (exists|i: int| 0 <= i < f.entries.len() && #[trigger] f.entries[i].key == key) || (
    f.pending matches Some((k, _, _)) && k == key)
}

/// A new, empty mapping at `indent`.
pub open spec fn fresh(indent: int) -> MapState {
    MapState { indent, entries: Seq::empty(), pending: None }
}

/// The open mappings after a line indented by `indent`, or the message that rejects it.
pub open spec fn resolve(st: Seq<MapState>, indent: int, max_depth: int) -> Result<
    Seq<MapState>,
    Seq<char>,
> {
    if st.len() == 0 {
        Ok(seq![fresh(indent)])
    } else if indent > st.last().indent {
        if st.last().pending is None {
            Err(
                "unexpected indentation; multi-line plain scalars are outside the accepted front matter subset"@,
            )
        } else if st.len() >= max_depth {
            Err(nest_message(max_depth as nat))
        } else {
            Ok(st.push(fresh(indent)))
        }
    } else {
        let s2 = pop_deeper(st, indent);
        if s2.last().indent != indent {
            Err("inconsistent indentation"@)
        } else {
            Ok(s2.update(s2.len() - 1, flush(s2.last())))
        }
    }
}

/// Every character of `cs[a..b]` is whitespace.
pub open spec fn all_ws(cs: Seq<char>, a: int, b: int) -> bool {
    forall|k: int| a <= k < b ==> is_unicode_ws(cs[k])
}

/// `cs[a..b]` holds a tab.
pub open spec fn has_tab(cs: Seq<char>, a: int, b: int) -> bool {
    exists|k: int| a <= k < b && cs[k] == '\t'
}

/// `cs[a..b]` starts with `lit`.
pub open spec fn starts(cs: Seq<char>, a: int, b: int, lit: Seq<char>) -> bool {
    lit.is_prefix_of(cs.subrange(a, b))
}

/// The duplicate-key message.
pub open spec fn duplicate_message(key: Seq<char>) -> Seq<char> {
    "duplicate key `"@ + key + "`"@
}

/// The open mappings after the line `cs[ls..le]` (without its line break).
pub open spec fn line_step(
    cs: Seq<char>,
    base: int,
    max_depth: int,
    st: Seq<MapState>,
    ls: int,
    le: int,
) -> Result<Seq<MapState>, Rejection> {
    let rs = sp_end(cs, ls, le);
    if all_ws(cs, rs, le) || (rs < le && cs[rs] == '#') {
        Ok(st)
    } else if has_tab(cs, ls, rs) {
        Err(rej(cs, base, ls, rs, "tab characters are not allowed in YAML indentation"@))
    } else if rs == ls && (starts(cs, rs, le, "---"@) || starts(cs, rs, le, "..."@)) {
        Err(
            rej(
                cs,
                base,
                rs,
                le,
                "multiple YAML documents are outside the accepted front matter subset"@,
            ),
        )
    } else if cs[rs] == '%' {
        Err(rej(cs, base, rs, le, "YAML directives are outside the accepted front matter subset"@))
    } else if cs[rs] == '-' && (le - rs == 1 || cs[rs + 1] == ' ') {
        Err(
            rej(
                cs,
                base,
                rs,
                le,
                "block sequences are outside the accepted front matter subset; use a flow sequence `[a, b]`"@,
            ),
        )
    } else if cs[rs] == '?' && (le - rs == 1 || cs[rs + 1] == ' ') {
        Err(rej(cs, base, rs, le, "complex keys are outside the accepted front matter subset"@))
    } else {
        match resolve(st, rs - ls, max_depth) {
            Err(m) => Err(rej(cs, base, rs, le, m)),
            Ok(st2) => match key_at(cs, base, rs, le) {
                Err(x) => Err(x),
                Ok((key, ks, ke, after)) => {
                    let top = st2.last();
                    if has_key(top, key) {
                        Err(
                            Rejection {
                                start: ab(cs, base, ks),
                                end: ab(cs, base, ke),
                                message: duplicate_message(key),
                            },
                        )
                    } else {
                        let vs = sp_end(cs, after, le);
                        if all_ws(cs, vs, le) || (vs < le && cs[vs] == '#') {
                            Ok(
                                st2.update(
                                    st2.len() - 1,
                                    MapState {
                                        indent: top.indent,
                                        entries: top.entries,
                                        pending: Some((key, ab(cs, base, ks), ab(cs, base, ke))),
                                    },
                                ),
                            )
                        } else {
                            match block_value(cs, base, vs, le, max_depth) {
                                Err(x) => Err(x),
                                Ok(v) => Ok(
                                    st2.update(
                                        st2.len() - 1,
                                        MapState {
                                            indent: top.indent,
                                            entries: top.entries.push(
                                                Keyed {
                                                    key,
                                                    start: ab(cs, base, ks),
                                                    end: ab(cs, base, ke),
                                                    value: v,
                                                },
                                            ),
                                            pending: top.pending,
                                        },
                                    ),
                                ),
                            }
                        }
                    }
                },
            },
        }
    }
}

/// The first line break at or after `k`, or the end.
pub open spec fn nl_from(cs: Seq<char>, k: int) -> int
    decreases cs.len() - k,
{
    if k < 0 || k >= cs.len() {
        cs.len() as int
    } else if cs[k] == '\n' {
        k
    } else {
        nl_from(cs, k + 1)
    }
}

pub proof fn lemma_nl_from(cs: Seq<char>, k: int)
    requires
        0 <= k <= cs.len(),
    ensures
        k <= nl_from(cs, k) <= cs.len(),
    decreases cs.len() - k,
{
    if k < cs.len() && cs[k] != '\n' {
        lemma_nl_from(cs, k + 1);
    }
}

/// Where the line that starts at `pos` ends, its line break included.
pub open spec fn raw_end(cs: Seq<char>, pos: int) -> int {
    let nl = nl_from(cs, pos);
    if nl < cs.len() {
        nl + 1
    } else {
        cs.len() as int
    }
}

/// `cs[lo..hi]` without the trailing line feeds and carriage returns.
pub open spec fn crlf_trim(cs: Seq<char>, lo: int, hi: int) -> int
    decreases hi - lo,
{
    if lo < hi && (cs[hi - 1] == '\n' || cs[hi - 1] == '\r') {
        crlf_trim(cs, lo, hi - 1)
    } else {
        hi
    }
}

pub proof fn lemma_crlf_trim(cs: Seq<char>, lo: int, hi: int)
    requires
        lo <= hi,
    ensures
        lo <= crlf_trim(cs, lo, hi) <= hi,
    decreases hi - lo,
{
    if lo < hi && (cs[hi - 1] == '\n' || cs[hi - 1] == '\r') {
        lemma_crlf_trim(cs, lo, hi - 1);
    }
}

/// The open mappings after the lines from `pos` on.
pub open spec fn lines_from(
    cs: Seq<char>,
    base: int,
    max_depth: int,
    pos: int,
    st: Seq<MapState>,
) -> Result<Seq<MapState>, Rejection>
    decreases cs.len() - pos,
{
    if pos < 0 || pos >= cs.len() {
        Ok(st)
    } else {
        let re = raw_end(cs, pos);
        proof {
            lemma_nl_from(cs, pos);
        }
        match line_step(cs, base, max_depth, st, pos, crlf_trim(cs, pos, re)) {
            Err(x) => Err(x),
            Ok(s2) => lines_from(cs, base, max_depth, re, s2),
        }
    }
}

/// The entries of the outermost mapping once every line is read.
pub open spec fn finish(st: Seq<MapState>) -> Seq<Keyed> {
    let s = close_all(st);
    if s.len() == 0 {
        Seq::empty()
    } else {
        flush(s[0]).entries
    }
}

/// The front matter `body` at byte offset `base` parses to these entries, or is
/// rejected.
pub open spec fn front_matter(body: Seq<char>, base: int, max_depth: int) -> Result<
    Seq<Keyed>,
    Rejection,
> {
    match lines_from(body, base, max_depth, 0, Seq::empty()) {
        Err(x) => Err(x),
        Ok(st) => Ok(finish(st)),
    }
}

// ---------------------------------------------------------------------------------------
// The parser
// ---------------------------------------------------------------------------------------

/// An open block mapping: one per nesting level, so the stack depth is the nesting depth
/// and the parser, being iterative, cannot exhaust the call stack on deep input.
struct OpenMap {
    indent: usize,
    entries: Vec<Entry>,
    pending: Option<(String, usize, usize)>,
}

spec fn state_of(f: OpenMap) -> MapState {
    MapState {
        indent: f.indent as int,
        entries: keyed_seq(f.entries@),
        pending: match f.pending {
            Some((k, s, e)) => Some((k@, s as int, e as int)),
            None => None,
        },
    }
}

spec fn states(st: Seq<OpenMap>) -> Seq<MapState> {
    st.map_values(|f: OpenMap| state_of(f))
}

fn flush_map(f: OpenMap) -> (r: OpenMap)
    ensures
        state_of(r) == flush(state_of(f)),
{
    let OpenMap { indent, mut entries, pending } = f;
    match pending {
        Some((key, start, end)) => {
            let ghost before = entries@;
            entries.push(Entry { key, start, end, value: Value::Null });
            proof {
                assert(keyed_seq(entries@) =~= keyed_seq(before).push(
                    Keyed { key: key@, start: start as int, end: end as int, value: Tree::Null },
                ));
            }
            OpenMap { indent, entries, pending: None }
        },
        None => OpenMap { indent, entries, pending: None },
    }
}

fn close_top_map(stack: &mut Vec<OpenMap>)
    requires
        old(stack)@.len() >= 1,
    ensures
        states(final(stack)@) == close_top(states(old(stack)@)),
        final(stack)@.len() == old(stack)@.len() - 1,
{
    let ghost old_st = states(stack@);
    let frame = flush_map(stack.pop().unwrap());
    proof {
        assert(states(stack@) =~= old_st.drop_last());
    }
    if stack.len() == 0 {
        return;
    }
    let ghost rest = states(stack@);
    let parent = stack.pop().unwrap();
    let OpenMap { indent, mut entries, pending } = parent;
    match pending {
        Some((key, start, end)) => {
            let ghost before = entries@;
            let fe = frame.entries;
            proof {
                lemma_mapping_tree(fe);
            }
            entries.push(Entry { key, start, end, value: Value::Mapping(fe) });
            proof {
                assert(keyed_seq(entries@) =~= keyed_seq(before).push(
                    Keyed {
                        key: key@,
                        start: start as int,
                        end: end as int,
                        value: Tree::Mapping(keyed_seq(fe@)),
                    },
                ));
            }
            stack.push(OpenMap { indent, entries, pending: None });
            proof {
                assert(states(stack@) =~= rest.update(
                    rest.len() - 1,
                    MapState {
                        indent: rest.last().indent,
                        entries: rest.last().entries.push(
                            Keyed {
                                key: key@,
                                start: start as int,
                                end: end as int,
                                value: Tree::Mapping(keyed_seq(fe@)),
                            },
                        ),
                        pending: None,
                    },
                ));
            }
        },
        None => {
            stack.push(OpenMap { indent, entries, pending: None });
            proof {
                assert(states(stack@) =~= rest);
            }
        },
    }
}

/// Whether `key` is already in the mapping or waits there for its value.
fn map_has_key(f: &OpenMap, key: &String) -> (r: bool)
    ensures
        r == has_key(state_of(*f), key@),
{
    let ghost fs = state_of(*f);
    let mut i: usize = 0;
    while i < f.entries.len()
        invariant
            i <= f.entries@.len(),
            fs == state_of(*f),
            forall|j: int| 0 <= j < i ==> fs.entries[j].key != key@,
        decreases f.entries@.len() - i,
    {
        if crate::text::str_eq(f.entries[i].key.as_str(), key.as_str()) {
            assert(fs.entries[i as int].key == key@);
            return true;
        }
        i += 1;
    }
    match &f.pending {
        Some((k, _, _)) => crate::text::str_eq(k.as_str(), key.as_str()),
        None => false,
    }
}

impl Body {
    /// Whether every character of `cs[a..b]` is whitespace.
    fn all_ws(&self, a: usize, b: usize) -> (r: bool)
        requires
            a <= b <= self.cs@.len(),
        ensures
            r == all_ws(self.cs@, a as int, b as int),
    {
        let mut k = a;
        while k < b
            invariant
                a <= k <= b <= self.cs@.len(),
                forall|j: int| a <= j < k ==> is_unicode_ws(self.cs@[j]),
            decreases b - k,
        {
            if !is_whitespace(self.cs[k]) {
                return false;
            }
            k += 1;
        }
        true
    }

    /// Whether `cs[a..b]` holds a tab.
    fn has_tab(&self, a: usize, b: usize) -> (r: bool)
        requires
            a <= b <= self.cs@.len(),
        ensures
            r == has_tab(self.cs@, a as int, b as int),
    {
        let mut k = a;
        while k < b
            invariant
                a <= k <= b <= self.cs@.len(),
                forall|j: int| a <= j < k ==> self.cs@[j] != '\t',
            decreases b - k,
        {
            if self.cs[k] == '\t' {
                return true;
            }
            k += 1;
        }
        false
    }
}

/// Opens, closes or flushes mappings for a line indented by `indent`.
fn resolve_indent(stack: &mut Vec<OpenMap>, indent: usize, max_depth: usize) -> (r: Result<
    (),
    Option<&'static str>,
>)
    ensures
        r is Ok ==> final(stack)@.len() >= 1,
        match r {
            Ok(_) => resolve(states(old(stack)@), indent as int, max_depth as int) == Ok::<
                Seq<MapState>,
                Seq<char>,
            >(states(final(stack)@)),
            Err(Some(m)) => resolve(states(old(stack)@), indent as int, max_depth as int)
                == Err::<Seq<MapState>, Seq<char>>(m@),
            Err(None) => resolve(states(old(stack)@), indent as int, max_depth as int) == Err::<
                Seq<MapState>,
                Seq<char>,
            >(nest_message(max_depth as nat)),
        },
{
    let ghost st0 = states(stack@);
    if stack.len() == 0 {
        stack.push(OpenMap { indent, entries: Vec::new(), pending: None });
        proof {
            assert(keyed_seq(Seq::<Entry>::empty()) =~= Seq::<Keyed>::empty());
            assert(states(stack@)[0] == fresh(indent as int));
            assert(states(stack@) =~= seq![fresh(indent as int)]);
        }
        return Ok(());
    }
    let last = stack.len() - 1;
    assert(st0.last() == state_of(stack@[last as int]));
    if indent > stack[last].indent {
        if stack[last].pending.is_none() {
            return Err(
                Some(
                    "unexpected indentation; multi-line plain scalars are outside the accepted front matter subset",
                ),
            );
        }
        if stack.len() >= max_depth {
            return Err(None);
        }
        stack.push(OpenMap { indent, entries: Vec::new(), pending: None });
        proof {
            assert(keyed_seq(Seq::<Entry>::empty()) =~= Seq::<Keyed>::empty());
            assert(states(stack@) =~= st0.push(fresh(indent as int)));
        }
        return Ok(());
    }
    while stack.len() > 1 && indent < stack[stack.len() - 1].indent
        invariant
            stack@.len() >= 1,
            pop_deeper(states(stack@), indent as int) == pop_deeper(st0, indent as int),
        decreases stack@.len(),
    {
        let ghost before = states(stack@);
        assert(before.last() == state_of(stack@[stack@.len() - 1]));
        close_top_map(stack);
    }
    let ghost s2 = states(stack@);
    proof {
        if stack@.len() > 1 {
            assert(s2.last() == state_of(stack@[stack@.len() - 1]));
        }
        assert(pop_deeper(s2, indent as int) == s2);
    }
    let top = stack.pop().unwrap();
    if top.indent != indent {
        assert(s2.last() == state_of(top));
        return Err(Some("inconsistent indentation"));
    }
    let top = flush_map(top);
    stack.push(top);
    proof {
        assert(states(stack@) =~= s2.update(s2.len() - 1, flush(s2.last())));
    }
    Ok(())
}

/// Reads the line `cs[ls..le]` (without its line break) into the open mappings.
fn read_line(b: &Body, stack: &mut Vec<OpenMap>, ls: usize, le: usize, max_depth: usize) -> (r:
    Result<(), FrontMatterError>)
    requires
        b.wf(),
        ls <= le <= b.cs@.len(),
    ensures
        match r {
            Ok(_) => line_step(
                b.cs@,
                b.base as int,
                max_depth as int,
                states(old(stack)@),
                ls as int,
                le as int,
            ) == Ok::<Seq<MapState>, Rejection>(states(final(stack)@)),
            Err(e) => line_step(
                b.cs@,
                b.base as int,
                max_depth as int,
                states(old(stack)@),
                ls as int,
                le as int,
            ) == Err::<Seq<MapState>, Rejection>(e@),
        },
{
    let ghost cs = b.cs@;
    let ghost base = b.base as int;
    let rs = b.sp_end(ls, le);
    if b.all_ws(rs, le) || (rs < le && b.cs[rs] == '#') {
        return Ok(());
    }
    if b.has_tab(ls, rs) {
        return Err(b.rej(ls, rs, "tab characters are not allowed in YAML indentation"));
    }
    if rs == ls && (crate::text::starts_with_at(&b.cs, rs, le, "---")
        || crate::text::starts_with_at(&b.cs, rs, le, "...")) {
        return Err(
            b.rej(rs, le, "multiple YAML documents are outside the accepted front matter subset"),
        );
    }
    if b.cs[rs] == '%' {
        return Err(b.rej(rs, le, "YAML directives are outside the accepted front matter subset"));
    }
    if b.cs[rs] == '-' && (le - rs == 1 || b.cs[rs + 1] == ' ') {
        return Err(
            b.rej(
                rs,
                le,
                "block sequences are outside the accepted front matter subset; use a flow sequence `[a, b]`",
            ),
        );
    }
    if b.cs[rs] == '?' && (le - rs == 1 || b.cs[rs + 1] == ' ') {
        return Err(b.rej(rs, le, "complex keys are outside the accepted front matter subset"));
    }
    match resolve_indent(stack, rs - ls, max_depth) {
        Ok(_) => {},
        Err(Some(m)) => {
            return Err(b.rej(rs, le, m));
        },
        Err(None) => {
            return Err(nest_error(b, rs, le, max_depth));
        },
    }
    let ghost st2 = states(stack@);
    let (key, ks, ke, after) = match parse_key(b, rs, le) {
        Ok(x) => x,
        Err(e) => {
            return Err(e);
        },
    };
    let top = stack.pop().unwrap();
    assert(st2.last() == state_of(top));
    if map_has_key(&top, &key) {
        let mut m = String::from_str("duplicate key `");
        crate::text::push_str(&mut m, key.as_str());
        crate::text::push_str(&mut m, "`");
        return Err(FrontMatterError { start: b.at(ks), end: b.at(ke), message: m });
    }
    let vs = b.sp_end(after, le);
    let start = b.at(ks);
    let end = b.at(ke);
    if b.all_ws(vs, le) || (vs < le && b.cs[vs] == '#') {
        let OpenMap { indent, entries, pending: _ } = top;
        stack.push(OpenMap { indent, entries, pending: Some((key, start, end)) });
        proof {
            assert(states(stack@) =~= st2.update(
                st2.len() - 1,
                MapState {
                    indent: st2.last().indent,
                    entries: st2.last().entries,
                    pending: Some((key@, start as int, end as int)),
                },
            ));
        }
        return Ok(());
    }
    let v = match parse_block_value(b, vs, le, max_depth) {
        Ok(v) => v,
        Err(e) => {
            return Err(e);
        },
    };
    let OpenMap { indent, mut entries, pending } = top;
    let ghost before = entries@;
    let ghost kv = Keyed { key: key@, start: start as int, end: end as int, value: tree_of(v) };
    entries.push(Entry { key, start, end, value: v });
    proof {
        assert(keyed_seq(entries@) =~= keyed_seq(before).push(kv));
    }
    stack.push(OpenMap { indent, entries, pending });
    proof {
        assert(states(stack@) =~= st2.update(
            st2.len() - 1,
            MapState {
                indent: st2.last().indent,
                entries: st2.last().entries.push(kv),
                pending: st2.last().pending,
            },
        ));
    }
    Ok(())
}

/// Parses the text between the `---` delimiters. `base` is the byte offset of `body`
/// in the source; every range in the result is absolute.
pub fn parse_yaml(body: &str, base: usize, max_depth: usize) -> (r: Result<
    Vec<Entry>,
    FrontMatterError,
>)
    requires
        base + body.spec_bytes().len() <= usize::MAX,
    ensures
        match r {
            Ok(es) => front_matter(body@, base as int, max_depth as int) == Ok::<
                Seq<Keyed>,
                Rejection,
            >(keyed_seq(es@)),
            Err(e) => front_matter(body@, base as int, max_depth as int) == Err::<
                Seq<Keyed>,
                Rejection,
            >(e@),
        },
{
    let b = Body::new(body, base);
    let ghost cs = b.cs@;
    let n = b.cs.len();
    let mut stack: Vec<OpenMap> = Vec::new();
    let mut pos: usize = 0;
    proof {
        assert(states(stack@) =~= Seq::<MapState>::empty());
    }
    while pos < n
        invariant
            b.wf(),
            cs == b.cs@,
            cs == body@,
            b.base == base,
            n == cs.len(),
            pos <= n,
            lines_from(cs, base as int, max_depth as int, pos as int, states(stack@))
                == lines_from(cs, base as int, max_depth as int, 0, Seq::empty()),
        decreases n - pos,
    {
        proof {
            lemma_nl_from(cs, pos as int);
        }
        let mut nl = pos;
        while nl < n && b.cs[nl] != '\n'
            invariant
                pos <= nl <= n,
                n == cs.len(),
                cs == b.cs@,
                nl_from(cs, nl as int) == nl_from(cs, pos as int),
            decreases n - nl,
        {
            nl += 1;
        }
        let re = if nl < n {
            nl + 1
        } else {
            n
        };
        proof {
            lemma_crlf_trim(cs, pos as int, re as int);
        }
        let mut le = re;
        while le > pos && (b.cs[le - 1] == '\n' || b.cs[le - 1] == '\r')
            invariant
                pos <= le <= re <= n,
                n == cs.len(),
                cs == b.cs@,
                crlf_trim(cs, pos as int, le as int) == crlf_trim(cs, pos as int, re as int),
            decreases le,
        {
            le -= 1;
        }
        match read_line(&b, &mut stack, pos, le, max_depth) {
            Ok(_) => {},
            Err(e) => {
                return Err(e);
            },
        }
        pos = re;
    }
    let ghost st = states(stack@);
    while stack.len() > 1
        invariant
            close_all(states(stack@)) == close_all(st),
        decreases stack@.len(),
    {
        close_top_map(&mut stack);
    }
    match stack.pop() {
        Some(root) => {
            let root = flush_map(root);
            proof {
                assert(states(stack@.push(root)) =~= seq![state_of(root)]);
            }
            Ok(root.entries)
        },
        None => {
            proof {
                assert(keyed_seq(Seq::<Entry>::empty()) =~= Seq::<Keyed>::empty());
            }
            Ok(Vec::new())
        },
    }
}

// ---------------------------------------------------------------------------------------
// Unique keys and ranges within the body
// ---------------------------------------------------------------------------------------

/// The byte range of `x` is ordered and lies within the body.
pub open spec fn within(cs: Seq<char>, base: int, x: Rejection) -> bool {
    base <= x.start <= x.end <= base + encode_utf8(cs).len()
}

proof fn lemma_rej_within(cs: Seq<char>, base: int, at: int, end: int, m: Seq<char>)
    requires
        0 <= at <= end <= cs.len(),
    ensures
        within(cs, base, rej(cs, base, at, end, m)),
{
    lemma_byte_at_mono(cs, at, end);
    lemma_byte_at_mono(cs, end, cs.len() as int);
}

proof fn lemma_quoted_within(
    cs: Seq<char>,
    base: int,
    lo: int,
    hi: int,
    q: char,
    i: int,
    out: Seq<char>,
)
    requires
        0 <= lo <= hi <= cs.len(),
    ensures
        quoted_from(cs, base, lo, hi, q, i, out) matches Err(x) ==> within(cs, base, x),
    decreases hi - i,
{
    lemma_rej_within(cs, base, lo, hi, "unterminated quoted scalar"@);
    if 0 <= i < hi {
        let c = cs[i];
        lemma_rej_within(cs, base, i + 1, hi, "invalid escape in quoted scalar"@);
        if c == q {
            if q == '\'' && i + 1 < hi && cs[i + 1] == '\'' {
                lemma_quoted_within(cs, base, lo, hi, q, i + 2, out.push('\''));
            }
        } else if c == '\\' && q == '"' {
            if i + 1 < hi {
                let e = cs[i + 1];
                match simple_escape(e) {
                    Some(x) => lemma_quoted_within(cs, base, lo, hi, q, i + 2, out.push(x)),
                    None => if e == 'x' || e == 'u' {
                        let n: int = if e == 'x' {
                            2
                        } else {
                            4
                        };
                        match hex_escape(cs, i + 2, n, hi) {
                            Some(x) => lemma_quoted_within(
                                cs,
                                base,
                                lo,
                                hi,
                                q,
                                i + 2 + n,
                                out.push(x),
                            ),
                            None => {},
                        }
                    },
                }
            }
        } else if c != '\n' {
            lemma_quoted_within(cs, base, lo, hi, q, i + 1, out.push(c));
        }
    }
}

/// A flow sequence holds strings and lists only; a rejection of one stays in the body.
proof fn lemma_flow_ok(cs: Seq<char>, base: int, lo: int, hi: int, depth: int, max_depth: int)
    requires
        0 <= lo <= hi <= cs.len(),
    ensures
        flow(cs, base, lo, hi, depth, max_depth) matches Ok((t, _)) ==> flat(t),
        flow(cs, base, lo, hi, depth, max_depth) matches Err(x) ==> within(cs, base, x),
    decreases hi - lo, 0int,
{
    lemma_rej_within(cs, base, lo, hi, nest_message(max_depth as nat));
    lemma_rej_within(cs, base, lo, hi, "flow sequence is not closed on its line"@);
    if depth <= max_depth && lo < hi {
        lemma_flow_items_ok(cs, base, lo, hi, depth, max_depth, lo + 1, Seq::empty());
    }
}

proof fn lemma_flow_items_ok(
    cs: Seq<char>,
    base: int,
    lo: int,
    hi: int,
    depth: int,
    max_depth: int,
    i: int,
    items: Seq<Tree>,
)
    requires
        0 <= lo <= hi <= cs.len(),
        forall|k: int| 0 <= k < items.len() ==> flat(#[trigger] items[k]),
    ensures
        flow_items(cs, base, lo, hi, depth, max_depth, i, items) matches Ok((t, _)) ==> flat(t),
        flow_items(cs, base, lo, hi, depth, max_depth, i, items) matches Err(x) ==> within(
            cs,
            base,
            x,
        ),
    decreases hi - i, 1int,
{
    lemma_rej_within(cs, base, lo, hi, "flow sequence is not closed on its line"@);
    if 0 <= i <= hi {
        let i1 = sp_end(cs, i, hi);
        lemma_sp_end(cs, i, hi);
        if i1 < hi && cs[i1] != ']' {
            let c = cs[i1];
            if c == '[' {
                lemma_flow_ok(cs, base, i1, hi, depth + 1, max_depth);
                lemma_flow_bounds(cs, base, i1, hi, depth + 1, max_depth);
            }
            lemma_quoted_within(cs, base, i1, hi, cs[i1], i1 + 1, Seq::empty());
            lemma_quoted_from_bounds(cs, base, i1, hi, cs[i1], i1 + 1, Seq::empty());
            lemma_delim_from(cs, i1, hi);
            lemma_rej_within(
                cs,
                base,
                i1,
                hi,
                "flow mappings are outside the accepted front matter subset"@,
            );
            if let Some(m) = rejected_message(c) {
                lemma_rej_within(cs, base, i1, hi, m);
            }
            let item: Result<(Tree, int), Rejection> = if c == '"' || c == '\'' {
                match quoted(cs, base, i1, hi) {
                    Ok((s, u)) => Ok((Tree::Str(s), u)),
                    Err(x) => Err(x),
                }
            } else if c == '[' {
                flow(cs, base, i1, hi, depth + 1, max_depth)
            } else {
                match rejected_message(c) {
                    Some(m) => Err(rej(cs, base, i1, hi, m)),
                    None => {
                        let e = delim_from(cs, i1, hi);
                        if e < hi && (cs[e] == '[' || cs[e] == '{') {
                            Err(
                                rej(
                                    cs,
                                    base,
                                    i1,
                                    hi,
                                    "flow mappings are outside the accepted front matter subset"@,
                                ),
                            )
                        } else {
                            Ok((Tree::Str(cs.subrange(i1, ws_trail(cs, i1, e))), e))
                        }
                    },
                }
            };
            if let Ok((v, u)) = item {
                assert(flat(v));
                let more = items.push(v);
                assert forall|k: int| 0 <= k < more.len() implies flat(#[trigger] more[k]) by {
                    if k < items.len() {
                        assert(more[k] == items[k]);
                    }
                }
                if 0 <= u {
                    lemma_sp_end(cs, u, hi);
                    let i2 = sp_end(cs, u, hi);
                    if u <= hi {
                        lemma_rej_within(
                            cs,
                            base,
                            i2,
                            hi,
                            "expected `,` or `]` in flow sequence"@,
                        );
                    }
                    if i2 < hi && cs[i2] == ',' && i2 >= i {
                        lemma_flow_items_ok(cs, base, lo, hi, depth, max_depth, i2 + 1, more);
                    }
                }
            }
        } else if i1 < hi {
            assert(flat(Tree::List(items)));
        }
    }
}

/// A parsed key lies within its text; a rejected one is rejected within the body.
proof fn lemma_key_ok(cs: Seq<char>, base: int, lo: int, hi: int)
    requires
        0 <= lo <= hi <= cs.len(),
    ensures
        key_at(cs, base, lo, hi) matches Ok((_, ks, ke, after)) ==> lo <= ks <= ke < after <= hi,
        key_at(cs, base, lo, hi) matches Err(x) ==> within(cs, base, x),
{
    lemma_rej_within(cs, base, lo, hi, "expected `key: value`"@);
    lemma_rej_within(
        cs,
        base,
        lo,
        hi,
        "flow sequences as keys are outside the accepted front matter subset"@,
    );
    if lo < hi {
        if let Some(m) = rejected_message(cs[lo]) {
            lemma_rej_within(cs, base, lo, hi, m);
        }
        lemma_quoted_within(cs, base, lo, hi, cs[lo], lo + 1, Seq::empty());
        lemma_quoted_from_bounds(cs, base, lo, hi, cs[lo], lo + 1, Seq::empty());
        if let Ok((_, u)) = quoted(cs, base, lo, hi) {
            lemma_sp_end(cs, u, hi);
        }
    }
    lemma_colon_from(cs, lo, hi, lo);
    if let Some(c) = colon_from(cs, lo, hi, lo) {
        lemma_ws_trail(cs, lo, c);
    }
}

proof fn lemma_colon_from(cs: Seq<char>, lo: int, hi: int, k: int)
    ensures
        colon_from(cs, lo, hi, k) matches Some(c) ==> k <= c < hi,
    decreases hi - k,
{
    if 0 <= k < hi && !(cs[k] == '#' && k > lo && is_sp(cs[k - 1])) && !(cs[k] == ':' && (k + 1
        == hi || is_sp(cs[k + 1]))) {
        lemma_colon_from(cs, lo, hi, k + 1);
    }
}

/// A block value holds no mapping; a rejection of one stays in the body.
proof fn lemma_block_ok(cs: Seq<char>, base: int, lo: int, hi0: int, max_depth: int)
    requires
        0 <= lo <= hi0 <= cs.len(),
    ensures
        block_value(cs, base, lo, hi0, max_depth) matches Ok(t) ==> flat(t),
        block_value(cs, base, lo, hi0, max_depth) matches Err(x) ==> within(cs, base, x),
{
    let hi = ws_trail(cs, lo, hi0);
    lemma_ws_trail(cs, lo, hi0);
    lemma_flow_ok(cs, base, lo, hi, 1, max_depth);
    lemma_rej_within(cs, base, lo, hi, "unexpected text after the value"@);
    lemma_rej_within(cs, base, lo, hi, "block sequences are outside the accepted front matter subset"@);
    lemma_rej_within(
        cs,
        base,
        lo,
        hi,
        "`: ` inside a plain scalar is outside the accepted front matter subset; quote the value"@,
    );
    if lo < hi {
        lemma_quoted_within(cs, base, lo, hi, cs[lo], lo + 1, Seq::empty());
        if let Some(m) = rejected_message(cs[lo]) {
            lemma_rej_within(cs, base, lo, hi, m);
        }
    }
}

/// A mapping under construction whose keys are distinct, pending key included, whose
/// values repeat no key either, and whose key ranges lie within `lo..hi`.
spec fn frame_ok(f: MapState, lo: int, hi: int) -> bool {
    &&& distinct_keys(f.entries)
    &&& forall|i: int|
        0 <= i < f.entries.len() ==> keys_unique(#[trigger] f.entries[i].value) && lo
            <= f.entries[i].start <= f.entries[i].end <= hi && ranges_within(
            f.entries[i].value,
            lo,
            hi,
        )
    &&& (f.pending matches Some((k, s, e)) ==> lo <= s <= e <= hi && forall|i: int|
        0 <= i < f.entries.len() ==> #[trigger] f.entries[i].key != k)
}

spec fn stack_ok(st: Seq<MapState>, lo: int, hi: int) -> bool {
    forall|i: int| 0 <= i < st.len() ==> frame_ok(#[trigger] st[i], lo, hi)
}

/// Adding an entry under a new key keeps a mapping's keys distinct and its ranges inside.
proof fn lemma_push_fresh(f: MapState, e: Keyed, lo: int, hi: int)
    requires
        frame_ok(f, lo, hi),
        keys_unique(e.value),
        ranges_within(e.value, lo, hi),
        lo <= e.start <= e.end <= hi,
        forall|i: int| 0 <= i < f.entries.len() ==> #[trigger] f.entries[i].key != e.key,
    ensures
        frame_ok(MapState { indent: f.indent, entries: f.entries.push(e), pending: None }, lo, hi),
{
    let es = f.entries.push(e);
    assert forall|i: int, j: int| 0 <= i < j < es.len() implies #[trigger] es[i].key
        != #[trigger] es[j].key by {
        if j == es.len() - 1 {
            assert(es[i] == f.entries[i]);
        } else {
            assert(es[i] == f.entries[i]);
            assert(es[j] == f.entries[j]);
        }
    }
    assert forall|i: int| 0 <= i < es.len() implies keys_unique(#[trigger] es[i].value) && lo
        <= es[i].start <= es[i].end <= hi && ranges_within(es[i].value, lo, hi) by {
        if i < f.entries.len() {
            assert(es[i] == f.entries[i]);
        }
    }
}

proof fn lemma_flush_ok(f: MapState, lo: int, hi: int)
    requires
        frame_ok(f, lo, hi),
    ensures
        frame_ok(flush(f), lo, hi),
        flush(f).pending is None,
        flush(f).indent == f.indent,
{
    if let Some((k, s, e)) = f.pending {
        lemma_push_fresh(f, Keyed { key: k, start: s, end: e, value: Tree::Null }, lo, hi);
    }
}

proof fn lemma_close_top_ok(st: Seq<MapState>, lo: int, hi: int)
    requires
        st.len() >= 1,
        stack_ok(st, lo, hi),
    ensures
        stack_ok(close_top(st), lo, hi),
        close_top(st).len() == st.len() - 1,
{
    let f = flush(st.last());
    lemma_flush_ok(st.last(), lo, hi);
    let rest = st.drop_last();
    assert(stack_ok(rest, lo, hi)) by {
        assert forall|i: int| 0 <= i < rest.len() implies frame_ok(#[trigger] rest[i], lo, hi) by {
            assert(rest[i] == st[i]);
        }
    }
    if rest.len() > 0 {
        let p = rest.last();
        assert(frame_ok(p, lo, hi));
        if let Some((k, s, e)) = p.pending {
            let kv = Keyed { key: k, start: s, end: e, value: Tree::Mapping(f.entries) };
            assert(keys_unique(kv.value));
            assert(ranges_within(kv.value, lo, hi));
            lemma_push_fresh(p, kv, lo, hi);
            let np = MapState { indent: p.indent, entries: p.entries.push(kv), pending: None };
            let out = rest.update(rest.len() - 1, np);
            assert forall|i: int| 0 <= i < out.len() implies frame_ok(#[trigger] out[i], lo, hi) by {
                if i < rest.len() - 1 {
                    assert(out[i] == rest[i]);
                }
            }
        }
    }
}

proof fn lemma_pop_deeper_ok(st: Seq<MapState>, indent: int, lo: int, hi: int)
    requires
        st.len() >= 1,
        stack_ok(st, lo, hi),
    ensures
        stack_ok(pop_deeper(st, indent), lo, hi),
        pop_deeper(st, indent).len() >= 1,
    decreases st.len(),
{
    if st.len() > 1 && indent < st.last().indent {
        lemma_close_top_ok(st, lo, hi);
        lemma_pop_deeper_ok(close_top(st), indent, lo, hi);
    }
}

proof fn lemma_close_all_ok(st: Seq<MapState>, lo: int, hi: int)
    requires
        stack_ok(st, lo, hi),
    ensures
        stack_ok(close_all(st), lo, hi),
        st.len() >= 1 ==> close_all(st).len() == 1,
        st.len() == 0 ==> close_all(st).len() == 0,
    decreases st.len(),
{
    if st.len() > 1 {
        lemma_close_top_ok(st, lo, hi);
        lemma_close_all_ok(close_top(st), lo, hi);
    }
}

proof fn lemma_resolve_ok(st: Seq<MapState>, indent: int, max_depth: int, lo: int, hi: int)
    requires
        stack_ok(st, lo, hi),
    ensures
        resolve(st, indent, max_depth) matches Ok(s2) ==> stack_ok(s2, lo, hi) && s2.len() >= 1
            && s2.last().pending is None,
{
    if st.len() == 0 {
        let s2 = seq![fresh(indent)];
        assert(frame_ok(s2[0], lo, hi));
    } else if indent > st.last().indent {
        let s2 = st.push(fresh(indent));
        assert forall|i: int| 0 <= i < s2.len() implies frame_ok(#[trigger] s2[i], lo, hi) by {
            if i < st.len() {
                assert(s2[i] == st[i]);
            }
        }
    } else {
        lemma_pop_deeper_ok(st, indent, lo, hi);
        let s2 = pop_deeper(st, indent);
        lemma_flush_ok(s2.last(), lo, hi);
        let s3 = s2.update(s2.len() - 1, flush(s2.last()));
        assert forall|i: int| 0 <= i < s3.len() implies frame_ok(#[trigger] s3[i], lo, hi) by {
            if i < s2.len() - 1 {
                assert(s3[i] == s2[i]);
            }
        }
    }
}

proof fn lemma_line_step_ok(
    cs: Seq<char>,
    base: int,
    max_depth: int,
    st: Seq<MapState>,
    ls: int,
    le: int,
)
    requires
        0 <= ls <= le <= cs.len(),
        stack_ok(st, base, base + encode_utf8(cs).len()),
    ensures
        line_step(cs, base, max_depth, st, ls, le) matches Ok(s2) ==> stack_ok(
            s2,
            base,
            base + encode_utf8(cs).len(),
        ),
        line_step(cs, base, max_depth, st, ls, le) matches Err(x) ==> within(cs, base, x),
{
    let lo = base;
    let hi = base + encode_utf8(cs).len();
    let rs = sp_end(cs, ls, le);
    lemma_sp_end(cs, ls, le);
    lemma_rej_within(cs, base, ls, rs, "tab characters are not allowed in YAML indentation"@);
    lemma_rej_within(
        cs,
        base,
        rs,
        le,
        "multiple YAML documents are outside the accepted front matter subset"@,
    );
    lemma_rej_within(cs, base, rs, le, "YAML directives are outside the accepted front matter subset"@);
    lemma_rej_within(
        cs,
        base,
        rs,
        le,
        "block sequences are outside the accepted front matter subset; use a flow sequence `[a, b]`"@,
    );
    lemma_rej_within(cs, base, rs, le, "complex keys are outside the accepted front matter subset"@);
    lemma_resolve_ok(st, rs - ls, max_depth, lo, hi);
    match resolve(st, rs - ls, max_depth) {
        Err(m) => {
            lemma_rej_within(cs, base, rs, le, m);
        },
        Ok(st2) => {
            lemma_key_ok(cs, base, rs, le);
            if let Ok((key, ks, ke, after)) = key_at(cs, base, rs, le) {
                let top = st2.last();
                assert(frame_ok(top, lo, hi));
                lemma_byte_at_mono(cs, ks, ke);
                lemma_byte_at_mono(cs, ke, cs.len() as int);
                if !has_key(top, key) {
                    let vs = sp_end(cs, after, le);
                    lemma_sp_end(cs, after, le);
                    assert forall|i: int| 0 <= i < top.entries.len() implies #[trigger] top.entries[i].key
                        != key by {
                        if top.entries[i].key == key {
                            assert(has_key(top, key));
                        }
                    }
                    let pend = MapState {
                        indent: top.indent,
                        entries: top.entries,
                        pending: Some((key, ab(cs, base, ks), ab(cs, base, ke))),
                    };
                    assert(frame_ok(pend, lo, hi));
                    let s3 = st2.update(st2.len() - 1, pend);
                    assert forall|i: int| 0 <= i < s3.len() implies frame_ok(#[trigger] s3[i], lo, hi) by {
                        if i < st2.len() - 1 {
                            assert(s3[i] == st2[i]);
                        }
                    }
                    lemma_block_ok(cs, base, vs, le, max_depth);
                    if let Ok(v) = block_value(cs, base, vs, le, max_depth) {
                        lemma_flat(v, lo, hi);
                        let kv = Keyed {
                            key,
                            start: ab(cs, base, ks),
                            end: ab(cs, base, ke),
                            value: v,
                        };
                        lemma_push_fresh(top, kv, lo, hi);
                        let nt = MapState {
                            indent: top.indent,
                            entries: top.entries.push(kv),
                            pending: top.pending,
                        };
                        assert(frame_ok(nt, lo, hi));
                        let s4 = st2.update(st2.len() - 1, nt);
                        assert forall|i: int| 0 <= i < s4.len() implies frame_ok(#[trigger] s4[i], lo, hi) by {
                            if i < st2.len() - 1 {
                                assert(s4[i] == st2[i]);
                            }
                        }
                    }
                }
            }
        },
    }
}

proof fn lemma_lines_from_ok(
    cs: Seq<char>,
    base: int,
    max_depth: int,
    pos: int,
    st: Seq<MapState>,
)
    requires
        stack_ok(st, base, base + encode_utf8(cs).len()),
    ensures
        lines_from(cs, base, max_depth, pos, st) matches Ok(s2) ==> stack_ok(
            s2,
            base,
            base + encode_utf8(cs).len(),
        ),
        lines_from(cs, base, max_depth, pos, st) matches Err(x) ==> within(cs, base, x),
    decreases cs.len() - pos,
{
    if 0 <= pos < cs.len() {
        let re = raw_end(cs, pos);
        lemma_nl_from(cs, pos);
        lemma_crlf_trim(cs, pos, re);
        lemma_line_step_ok(cs, base, max_depth, st, pos, crlf_trim(cs, pos, re));
        if let Ok(s2) = line_step(cs, base, max_depth, st, pos, crlf_trim(cs, pos, re)) {
            lemma_lines_from_ok(cs, base, max_depth, re, s2);
        }
    }
}

/// The entries left once every line is read satisfy what every open mapping did.
proof fn lemma_finish_ok(st: Seq<MapState>, lo: int, hi: int)
    requires
        stack_ok(st, lo, hi),
    ensures
        keys_unique(Tree::Mapping(finish(st))),
        ranges_within(Tree::Mapping(finish(st)), lo, hi),
{
    lemma_close_all_ok(st, lo, hi);
    let s = close_all(st);
    if s.len() > 0 {
        assert(frame_ok(s[0], lo, hi));
        lemma_flush_ok(s[0], lo, hi);
    }
}

/// Accepted front matter never repeats a key within one mapping, at any depth: a key
/// given twice is rejected.
pub proof fn lemma_front_matter_keys_unique(body: Seq<char>, base: int, max_depth: int)
    ensures
        front_matter(body, base, max_depth) matches Ok(es) ==> keys_unique(Tree::Mapping(es)),
{
    let hi = base + encode_utf8(body).len();
    assert(stack_ok(Seq::<MapState>::empty(), base, hi));
    lemma_lines_from_ok(body, base, max_depth, 0, Seq::empty());
    if let Ok(st) = lines_from(body, base, max_depth, 0, Seq::empty()) {
        lemma_finish_ok(st, base, hi);
    }
}

/// Every byte range the front matter parser reports is absolute and lies within the
/// body: the key ranges of accepted entries at any depth, and the range of a rejection.
pub proof fn lemma_front_matter_ranges(body: Seq<char>, base: int, max_depth: int)
    ensures
        front_matter(body, base, max_depth) matches Ok(es) ==> ranges_within(
            Tree::Mapping(es),
            base,
            base + encode_utf8(body).len(),
        ),
        front_matter(body, base, max_depth) matches Err(x) ==> base <= x.start <= x.end <= base
            + encode_utf8(body).len(),
{
    let hi = base + encode_utf8(body).len();
    assert(stack_ok(Seq::<MapState>::empty(), base, hi));
    lemma_lines_from_ok(body, base, max_depth, 0, Seq::empty());
    if let Ok(st) = lines_from(body, base, max_depth, 0, Seq::empty()) {
        lemma_finish_ok(st, base, hi);
    }
}

} // verus!
