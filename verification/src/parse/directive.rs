//! `%%{init: …}%%` directives: a JSON subset.
//!
//! Mermaid writes directive JSON loosely, so the parser also accepts single-quoted
//! strings, bare identifier keys and trailing commas. Nesting beyond the depth limit
//! and strings beyond the length limit are `E012 DirectiveTooLarge`.
//!
//! Like the front matter parser, this one reads characters and reports absolute byte
//! offsets: `base` plus the UTF-8 length of the characters before the position.

use vstd::prelude::*;
use vstd::arithmetic::power::pow;
use vstd::string::StringSliceAdditionalSpecFns;
use vstd::utf8::*;

use crate::parse::config::{
    keyed_seq, lemma_mapping_tree, ranges_within, tree_of, Entry, Keyed, Tree, Value,
};
use crate::parse::label::{dec_value, hex_value, is_hex_char};
use crate::text::{byte_at, decimal, is_unicode_ws, ws_lead};

verus! {

/// Why a directive is refused, with the offending byte range.
#[derive(Clone, Debug, PartialEq, Eq)]
pub enum JsonError {
    /// Nesting or string length over the limit (`E012`).
    TooLarge { start: usize, end: usize, message: String },
    /// Not JSON.
    Malformed { start: usize, end: usize, message: String },
}

/// The mathematical form of a [`JsonError`].
pub struct JsonFault {
    pub too_large: bool,
    pub start: int,
    pub end: int,
    pub message: Seq<char>,
}

impl View for JsonError {
    type V = JsonFault;

    open spec fn view(&self) -> JsonFault {
        match self {
            JsonError::TooLarge { start, end, message } => JsonFault {
                too_large: true,
                start: *start as int,
                end: *end as int,
                message: message@,
            },
            JsonError::Malformed { start, end, message } => JsonFault {
                too_large: false,
                start: *start as int,
                end: *end as int,
                message: message@,
            },
        }
    }
}

/// A parsed directive: `init: {…}` has kind `init` and a value; `wrap` has none.
#[derive(Debug, PartialEq)]
pub struct Directive {
    pub kind: String,
    pub value: Option<Value>,
}

// ---------------------------------------------------------------------------------------
// The grammar
// ---------------------------------------------------------------------------------------

/// Malformed input, reported at character `at` of a text at byte offset `base`.
pub open spec fn mal(cs: Seq<char>, base: int, at: int, m: Seq<char>) -> JsonFault {
    JsonFault {
        too_large: false,
        start: base + byte_at(cs, at),
        end: base + byte_at(cs, at),
        message: m,
    }
}

/// Input over a limit, from character `start` to character `at`.
pub open spec fn big(cs: Seq<char>, base: int, start: int, at: int, m: Seq<char>) -> JsonFault {
    JsonFault {
        too_large: true,
        start: base + byte_at(cs, start),
        end: base + byte_at(cs, at),
        message: m,
    }
}

/// The message for nesting deeper than `max_depth`.
pub open spec fn depth_message(max_depth: nat) -> Seq<char> {
    "directive JSON nests deeper than "@ + decimal(max_depth)
}

/// The message for a string longer than `max_string` bytes.
pub open spec fn length_message(max_string: nat) -> Seq<char> {
    "directive string longer than "@ + decimal(max_string) + " bytes"@
}

/// The character a one-letter escape stands for.
pub open spec fn json_escape(e: char) -> Option<char> {
    if e == '"' || e == '\'' || e == '\\' || e == '/' {
        Some(e)
    } else if e == 'b' {
        Some('\u{8}')
    } else if e == 'f' {
        Some('\u{c}')
    } else if e == 'n' {
        Some('\n')
    } else if e == 'r' {
        Some('\r')
    } else if e == 't' {
        Some('\t')
    } else {
        None
    }
}

/// How many of the (at most four) characters from `i` are hexadecimal digits in a row.
pub open spec fn hex_run(cs: Seq<char>, i: int, k: int) -> int
    decreases 4 - k,
{
    if k >= 4 || i + k < 0 || i + k >= cs.len() || !is_hex_char(cs[i + k]) {
        k
    } else {
        hex_run(cs, i, k + 1)
    }
}

/// The four hexadecimal digits of a `\u` escape at `i`: their value, or the index of
/// the first character that is not one.
pub open spec fn hex4(cs: Seq<char>, i: int) -> Result<nat, int> {
    if hex_run(cs, i, 0) == 4 {
        Ok(hex_value(cs.subrange(i, i + 4)))
    } else {
        Err(i + hex_run(cs, i, 0))
    }
}

/// The character of the `\u` escape whose four digits start at `i`, with a second
/// escape after a high surrogate: the character and the index past the escape.
pub open spec fn unicode_escape(cs: Seq<char>, base: int, i: int) -> Result<(char, int), JsonFault> {
    let unpaired = "unpaired surrogate in `\\u` escape"@;
    let bad = "invalid `\\u` escape"@;
    match hex4(cs, i) {
        Err(at) => Err(mal(cs, base, at, bad)),
        Ok(hi) => if 0xD800 <= hi < 0xDC00 {
            let j = i + 4;
            if !(j + 1 < cs.len() && cs[j] == '\\' && cs[j + 1] == 'u') {
                Err(mal(cs, base, j, unpaired))
            } else {
                match hex4(cs, j + 2) {
                    Err(at) => Err(mal(cs, base, at, bad)),
                    Ok(lo) => if !(0xDC00 <= lo < 0xE000) {
                        Err(mal(cs, base, j + 6, unpaired))
                    } else {
                        let code = 0x10000 + (hi - 0xD800) * 1024 + (lo - 0xDC00);
                        if code <= u32::MAX && is_scalar(code as u32) {
                            Ok(((code as u32) as char, j + 6))
                        } else {
                            Err(mal(cs, base, j + 6, unpaired))
                        }
                    },
                }
            }
        } else if hi <= u32::MAX && is_scalar(hi as u32) {
            Ok(((hi as u32) as char, i + 4))
        } else {
            Err(mal(cs, base, i + 4, unpaired))
        },
    }
}

/// Scans a string quoted with `q` that opened at `start`, from index `i` with `out`
/// decoded so far: the text and the index past the closing quote.
pub open spec fn jstr_from(
    cs: Seq<char>,
    base: int,
    max_string: int,
    start: int,
    q: char,
    i: int,
    out: Seq<char>,
) -> Result<(Seq<char>, int), JsonFault>
    decreases cs.len() - i,
{
    if encode_utf8(out).len() > max_string {
        Err(big(cs, base, start, i, length_message(max_string as nat)))
    } else if i < 0 || i >= cs.len() {
        Err(mal(cs, base, i, "unterminated string"@))
    } else {
        let c = cs[i];
        if c == q {
            Ok((out, i + 1))
        } else if c != '\\' {
            jstr_from(cs, base, max_string, start, q, i + 1, out.push(c))
        } else if i + 1 >= cs.len() {
            Err(mal(cs, base, i + 1, "unterminated string"@))
        } else {
            let e = cs[i + 1];
            match json_escape(e) {
                Some(x) => jstr_from(cs, base, max_string, start, q, i + 2, out.push(x)),
                None => if e == 'u' {
                    match unicode_escape(cs, base, i + 2) {
                        Err(x) => Err(x),
                        Ok((x, j)) => if i < j <= cs.len() {
                            jstr_from(cs, base, max_string, start, q, j, out.push(x))
                        } else {
                            Err(mal(cs, base, j, "invalid escape"@))
                        },
                    }
                } else {
                    Err(mal(cs, base, i + 2, "invalid escape"@))
                },
            }
        }
    }
}

/// The string whose opening quote is at `p`.
pub open spec fn jstr(cs: Seq<char>, base: int, max_string: int, p: int) -> Result<
    (Seq<char>, int),
    JsonFault,
> {
    jstr_from(cs, base, max_string, p, cs[p], p + 1, Seq::empty())
}

pub open spec fn is_digit(c: char) -> bool {
    '0' <= c && c <= '9'
}

/// The first index at or after `i` that is not an ASCII digit.
pub open spec fn digit_end(cs: Seq<char>, i: int) -> int
    decreases cs.len() - i,
{
    if 0 <= i < cs.len() && is_digit(cs[i]) {
        digit_end(cs, i + 1)
    } else {
        i
    }
}

/// The smallest magnitude that parses to an infinite double: `2^1024 - 2^970`, the
/// largest finite double plus half a unit in its last place (a tie there rounds to
/// even, which is infinity). Decimal text below it parses to a finite double.
pub open spec fn float_limit() -> int {
    dec_value(limit_digits()) as int
}

/// Whether `m * 10^e` is below [`float_limit`].
pub open spec fn below_limit(m: nat, e: int) -> bool {
    if e >= 0 {
        m * pow(10, e as nat) < float_limit()
    } else {
        m < float_limit() * pow(10, (-e) as nat)
    }
}

/// The value of a JSON number `-?D+(.D+)?([eE][+-]?D+)?` in `cs[p..d]`, whose integer
/// digits end at `b`, fraction digits end at `c`, is finite as a double.
pub open spec fn finite_number(cs: Seq<char>, p: int, b: int, c: int, d: int) -> bool {
    let a = if cs[p] == '-' {
        p + 1
    } else {
        p
    };
    let frac = if c > b {
        cs.subrange(b + 1, c)
    } else {
        Seq::empty()
    };
    let m = dec_value(cs.subrange(a, b) + frac);
    let ex: int = if d > c {
        let s = if cs[c + 1] == '+' || cs[c + 1] == '-' {
            c + 2
        } else {
            c + 1
        };
        if cs[c + 1] == '-' {
            -dec_value(cs.subrange(s, d))
        } else {
            dec_value(cs.subrange(s, d)) as int
        }
    } else {
        0
    };
    below_limit(m, ex - frac.len())
}

/// The number at `p`: its text and the index past it. The text is `-?D+(.D+)?`
/// with an optional exponent `[eE][+-]?D+`; a number that overflows a double is
/// refused.
pub open spec fn jnumber(cs: Seq<char>, base: int, p: int) -> Result<(Tree, int), JsonFault> {
    let bad = mal(cs, base, p, "invalid number"@);
    let a = if cs[p] == '-' {
        p + 1
    } else {
        p
    };
    let b = digit_end(cs, a);
    if b == a {
        Err(bad)
    } else {
        let c = if b < cs.len() && cs[b] == '.' {
            digit_end(cs, b + 1)
        } else {
            b
        };
        if c == b + 1 {
            Err(bad)
        } else {
            let s = if c + 1 < cs.len() && (cs[c + 1] == '+' || cs[c + 1] == '-') {
                c + 2
            } else {
                c + 1
            };
            let d = if c < cs.len() && (cs[c] == 'e' || cs[c] == 'E') {
                digit_end(cs, s)
            } else {
                c
            };
            if c < cs.len() && (cs[c] == 'e' || cs[c] == 'E') && d == s {
                Err(bad)
            } else if finite_number(cs, p, b, c, d) {
                Ok((Tree::Num(cs.subrange(p, d)), d))
            } else {
                Err(mal(cs, base, d, "invalid number"@))
            }
        }
    }
}

/// Skipping whitespace moves forward, and stays within the text when it starts there.
pub proof fn lemma_ws_lead(cs: Seq<char>, i: int)
    requires
        0 <= i,
    ensures
        i <= ws_lead(cs, i),
        i <= cs.len() ==> ws_lead(cs, i) <= cs.len(),
        forall|k: int| i <= k < ws_lead(cs, i) ==> is_unicode_ws(#[trigger] cs[k]),
    decreases cs.len() - i,
{
    if 0 <= i < cs.len() && is_unicode_ws(cs[i]) {
        lemma_ws_lead(cs, i + 1);
    }
}

/// Whether `cs[p..]` starts with `w`.
pub open spec fn starts_at(cs: Seq<char>, p: int, w: Seq<char>) -> bool {
    w.is_prefix_of(cs.subrange(p, cs.len() as int))
}

/// A character of a bare object key.
pub open spec fn key_char(c: char) -> bool {
    ('a' <= c && c <= 'z') || ('A' <= c && c <= 'Z') || ('0' <= c && c <= '9') || c == '_' || c
        == '$'
}

/// The first index at or after `i` that does not continue a bare key.
pub open spec fn key_end(cs: Seq<char>, i: int) -> int
    decreases cs.len() - i,
{
    if 0 <= i < cs.len() && key_char(cs[i]) {
        key_end(cs, i + 1)
    } else {
        i
    }
}

/// The value at index `i` (after whitespace) at nesting `depth`: the tree and the index
/// past it.
pub open spec fn jvalue(
    cs: Seq<char>,
    base: int,
    max_depth: int,
    max_string: int,
    i: int,
    depth: int,
) -> Result<(Tree, int), JsonFault>
    decreases cs.len() - i, 0int,
{
    let p = ws_lead(cs, i);
    if i < 0 || p >= cs.len() {
        Err(mal(cs, base, p, "expected a JSON value"@))
    } else {
        proof {
            lemma_ws_lead(cs, i);
        }
        let c = cs[p];
        if c == '{' || c == '[' {
            if depth >= max_depth {
                Err(big(cs, base, p, p, depth_message(max_depth as nat)))
            } else if c == '{' {
                jobject(cs, base, max_depth, max_string, p + 1, depth + 1, Seq::empty())
            } else {
                jarray(cs, base, max_depth, max_string, p + 1, depth + 1, Seq::empty())
            }
        } else if c == '"' || c == '\'' {
            match jstr(cs, base, max_string, p) {
                Ok((s, u)) => Ok((Tree::Str(s), u)),
                Err(x) => Err(x),
            }
        } else if c == '-' || is_digit(c) {
            jnumber(cs, base, p)
        } else if starts_at(cs, p, "true"@) {
            Ok((Tree::Bool(true), p + 4))
        } else if starts_at(cs, p, "false"@) {
            Ok((Tree::Bool(false), p + 5))
        } else if starts_at(cs, p, "null"@) {
            Ok((Tree::Null, p + 4))
        } else {
            Err(mal(cs, base, p, "expected a JSON value"@))
        }
    }
}

/// The key of an object entry at `p`: a quoted string or a bare identifier, and the
/// index past it.
pub open spec fn object_key(cs: Seq<char>, base: int, max_string: int, p: int) -> Result<
    (Seq<char>, int),
    JsonFault,
> {
    if 0 <= p < cs.len() && (cs[p] == '"' || cs[p] == '\'') {
        jstr(cs, base, max_string, p)
    } else if 0 <= p < cs.len() && (('a' <= cs[p] && cs[p] <= 'z') || ('A' <= cs[p] && cs[p]
        <= 'Z') || cs[p] == '_' || cs[p] == '$') {
        Ok((cs.subrange(p, key_end(cs, p)), key_end(cs, p)))
    } else {
        Err(mal(cs, base, p, "expected an object key"@))
    }
}

/// The object whose entries continue at `i`, after `entries`.
pub open spec fn jobject(
    cs: Seq<char>,
    base: int,
    max_depth: int,
    max_string: int,
    i: int,
    depth: int,
    entries: Seq<Keyed>,
) -> Result<(Tree, int), JsonFault>
    decreases cs.len() - i, 1int,
{
    let p = ws_lead(cs, i);
    if i < 0 {
        Err(mal(cs, base, i, "expected an object key"@))
    } else if p < cs.len() && cs[p] == '}' {
        Ok((Tree::Mapping(entries), p + 1))
    } else {
        proof {
            lemma_ws_lead(cs, i);
        }
        match object_key(cs, base, max_string, p) {
            Err(x) => Err(x),
            Ok((k, ke)) => {
                let q = ws_lead(cs, ke);
                if !(q < cs.len() && cs[q] == ':') {
                    Err(mal(cs, base, q, "expected `:` after the key"@))
                } else if q < i {
                    Err(mal(cs, base, q, "expected an object key"@))
                } else {
                    match jvalue(cs, base, max_depth, max_string, q + 1, depth) {
                        Err(x) => Err(x),
                        Ok((v, u)) => {
                            let r = ws_lead(cs, u);
                            let es = entries.push(
                                Keyed {
                                    key: k,
                                    start: base + byte_at(cs, p),
                                    end: base + byte_at(cs, ke),
                                    value: v,
                                },
                            );
                            if r < cs.len() && cs[r] == ',' && r >= i {
                                jobject(cs, base, max_depth, max_string, r + 1, depth, es)
                            } else if r < cs.len() && cs[r] == '}' {
                                Ok((Tree::Mapping(es), r + 1))
                            } else {
                                Err(mal(cs, base, r, "expected `,` or `}`"@))
                            }
                        },
                    }
                }
            },
        }
    }
}

/// The array whose items continue at `i`, after `items`.
pub open spec fn jarray(
    cs: Seq<char>,
    base: int,
    max_depth: int,
    max_string: int,
    i: int,
    depth: int,
    items: Seq<Tree>,
) -> Result<(Tree, int), JsonFault>
    decreases cs.len() - i, 1int,
{
    let p = ws_lead(cs, i);
    if i < 0 {
        Err(mal(cs, base, i, "expected a JSON value"@))
    } else if p < cs.len() && cs[p] == ']' {
        Ok((Tree::List(items), p + 1))
    } else {
        proof {
            lemma_ws_lead(cs, i);
        }
        match jvalue(cs, base, max_depth, max_string, p, depth) {
            Err(x) => Err(x),
            Ok((v, u)) => {
                let r = ws_lead(cs, u);
                if r < cs.len() && cs[r] == ',' && r >= i {
                    jarray(cs, base, max_depth, max_string, r + 1, depth, items.push(v))
                } else if r < cs.len() && cs[r] == ']' {
                    Ok((Tree::List(items.push(v)), r + 1))
                } else {
                    Err(mal(cs, base, r, "expected `,` or `]`"@))
                }
            },
        }
    }
}

/// A character of a directive name.
pub open spec fn kind_char(c: char) -> bool {
    ('a' <= c && c <= 'z') || ('A' <= c && c <= 'Z') || ('0' <= c && c <= '9') || c == '_' || c
        == '-'
}

/// The first index at or after `i` that does not continue a directive name.
pub open spec fn kind_end(cs: Seq<char>, i: int) -> int
    decreases cs.len() - i,
{
    if 0 <= i < cs.len() && kind_char(cs[i]) {
        kind_end(cs, i + 1)
    } else {
        i
    }
}

/// The directive `cs` (the text between `%%{` and `}%%`) at byte offset `base`: its
/// kind and value, or why it is refused.
pub open spec fn directive(cs: Seq<char>, base: int, max_depth: int, max_string: int) -> Result<
    (Seq<char>, Option<Tree>),
    JsonFault,
> {
    let p = ws_lead(cs, 0);
    let k = kind_end(cs, p);
    if k == p {
        Err(mal(cs, base, p, "expected a directive name such as `init`"@))
    } else {
        let q = ws_lead(cs, k);
        let v: Result<(Option<Tree>, int), JsonFault> = if q < cs.len() && cs[q] == ':' {
            match jvalue(cs, base, max_depth, max_string, q + 1, 0) {
                Ok((t, u)) => Ok((Some(t), u)),
                Err(x) => Err(x),
            }
        } else {
            Ok((None, q))
        };
        match v {
            Err(x) => Err(x),
            Ok((t, u)) => {
                let r = ws_lead(cs, u);
                if r < cs.len() {
                    Err(mal(cs, base, r, "unexpected text after the directive"@))
                } else {
                    Ok((cs.subrange(p, k), t))
                }
            },
        }
    }
}

// ---------------------------------------------------------------------------------------
// The parser
// ---------------------------------------------------------------------------------------

/// The trees of a list of values.
pub open spec fn trees(vs: Seq<Value>) -> Seq<Tree> {
    vs.map_values(|v: Value| tree_of(v))
}

/// The directive text as characters, with the byte offset of every boundary, and the
/// limits.
struct Json {
    cs: Vec<char>,
    offs: Vec<usize>,
    base: usize,
    max_depth: usize,
    max_string: usize,
}

impl Json {
    spec fn wf(&self) -> bool {
        &&& self.offs@.len() == self.cs@.len() + 1
        &&& forall|k: int| 0 <= k <= self.cs@.len() ==> #[trigger] self.offs@[k] == byte_at(self.cs@, k)
        &&& self.base + byte_at(self.cs@, self.cs@.len() as int) <= usize::MAX
    }

    /// The absolute byte offset of character index `k`.
    fn at(&self, k: usize) -> (r: usize)
        requires
            self.wf(),
            k <= self.cs@.len(),
        ensures
            r == self.base + byte_at(self.cs@, k as int),
    {
        proof {
            crate::text::lemma_byte_at_mono(self.cs@, k as int, self.cs@.len() as int);
            assert(self.cs@.take(self.cs@.len() as int) =~= self.cs@);
            assert(self.offs@[k as int] == byte_at(self.cs@, k as int));
            assert(self.offs@[self.cs@.len() as int] == byte_at(self.cs@, self.cs@.len() as int));
        }
        self.base + self.offs[k]
    }

    fn mal(&self, at: usize, m: &str) -> (r: JsonError)
        requires
            self.wf(),
            at <= self.cs@.len(),
        ensures
            r@ == mal(self.cs@, self.base as int, at as int, m@),
    {
        let x = self.at(at);
        JsonError::Malformed { start: x, end: x, message: String::from_str(m) }
    }

    fn skip_ws(&self, i: usize) -> (r: usize)
        requires
            i <= self.cs@.len(),
        ensures
            r == ws_lead(self.cs@, i as int),
            i <= r <= self.cs@.len(),
    {
        proof {
            lemma_ws_lead(self.cs@, i as int);
        }
        let mut k = i;
        while k < self.cs.len() && crate::text::is_whitespace(self.cs[k])
            invariant
                i <= k <= self.cs@.len(),
                ws_lead(self.cs@, k as int) == ws_lead(self.cs@, i as int),
            decreases self.cs@.len() - k,
        {
            k += 1;
        }
        k
    }

    /// The four hexadecimal digits at `i`.
    fn hex4(&self, i: usize) -> (r: Result<u32, usize>)
        requires
            i <= self.cs@.len(),
        ensures
            match hex4(self.cs@, i as int) {
                Ok(v) => r == Ok::<u32, usize>(v as u32) && v < 0x10000,
                Err(at) => r == Err::<u32, usize>(at as usize) && i <= at <= self.cs@.len(),
            },
    {
        let n = self.cs.len();
        let mut k: usize = 0;
        while k < 4 && i + k < n && is_hex(self.cs[i + k])
            invariant
                k <= 4,
                i + k <= n,
                n == self.cs@.len(),
                hex_run(self.cs@, i as int, k as int) == hex_run(self.cs@, i as int, 0),
                forall|j: int| i <= j < i + k ==> is_hex_char(self.cs@[j]),
            decreases 4 - k,
        {
            k += 1;
        }
        if k < 4 {
            return Err(i + k);
        }
        let v = crate::parse::label::digits_value(&self.cs, i, i + 4, true);
        proof {
            lemma_hex_bound(self.cs@.subrange(i as int, i + 4));
        }
        Ok(v)
    }
}

/// Whether `c` is a hexadecimal digit.
fn is_hex(c: char) -> (r: bool)
    ensures
        r == is_hex_char(c),
{
    ('0' <= c && c <= '9') || ('a' <= c && c <= 'f') || ('A' <= c && c <= 'F')
}

/// Four hexadecimal digits stay below `0x10000`.
proof fn lemma_hex_bound(ds: Seq<char>)
    requires
        ds.len() <= 4,
        forall|k: int| 0 <= k < ds.len() ==> is_hex_char(#[trigger] ds[k]),
    ensures
        hex_value(ds) < crate::parse::label::pow16(ds.len() as int),
    decreases ds.len(),
{
    if ds.len() > 0 {
        assert forall|k: int| 0 <= k < ds.drop_last().len() implies is_hex_char(
            #[trigger] ds.drop_last()[k],
        ) by {
            assert(ds.drop_last()[k] == ds[k]);
        }
        lemma_hex_bound(ds.drop_last());
        assert(is_hex_char(ds[ds.len() - 1]));
    }
}

impl Json {
    /// The `\u` escape whose digits start at `i`.
    fn unicode_escape(&self, i: usize) -> (r: Result<(char, usize), JsonError>)
        requires
            self.wf(),
            i <= self.cs@.len(),
        ensures
            match r {
                Ok((c, j)) => unicode_escape(self.cs@, self.base as int, i as int) == Ok::<
                    (char, int),
                    JsonFault,
                >((c, j as int)) && i + 4 <= j <= self.cs@.len(),
                Err(e) => unicode_escape(self.cs@, self.base as int, i as int) == Err::<
                    (char, int),
                    JsonFault,
                >(e@),
            },
    {
        let n = self.cs.len();
        let hi = match self.hex4(i) {
            Ok(v) => v,
            Err(at) => {
                return Err(self.mal(at, "invalid `\\u` escape"));
            },
        };
        proof {
            assert(hex_run(self.cs@, i as int, 0) == 4);
            lemma_hex_run_bound(self.cs@, i as int, 0);
        }
        if 0xD800 <= hi && hi < 0xDC00 {
            let j = i + 4;
            if !(n - j >= 2 && self.cs[j] == '\\' && self.cs[j + 1] == 'u') {
                return Err(self.mal(j, "unpaired surrogate in `\\u` escape"));
            }
            let lo = match self.hex4(j + 2) {
                Ok(v) => v,
                Err(at) => {
                    return Err(self.mal(at, "invalid `\\u` escape"));
                },
            };
            proof {
                lemma_hex_run_bound(self.cs@, j + 2, 0);
            }
            if !(0xDC00 <= lo && lo < 0xE000) {
                return Err(self.mal(j + 6, "unpaired surrogate in `\\u` escape"));
            }
            let code: u32 = 0x10000 + (hi - 0xD800) * 1024 + (lo - 0xDC00);
            match crate::text::char_from_u32(code) {
                Some(c) => {
                    proof {
                        vstd::utf8::char_u32_cast(c, code);
                    }
                    Ok((c, j + 6))
                },
                None => Err(self.mal(j + 6, "unpaired surrogate in `\\u` escape")),
            }
        } else {
            match crate::text::char_from_u32(hi) {
                Some(c) => {
                    proof {
                        vstd::utf8::char_u32_cast(c, hi);
                    }
                    Ok((c, i + 4))
                },
                None => Err(self.mal(i + 4, "unpaired surrogate in `\\u` escape")),
            }
        }
    }

    /// The string whose opening quote is at `p`.
    fn string(&self, p: usize) -> (r: Result<(String, usize), JsonError>)
        requires
            self.wf(),
            p < self.cs@.len(),
        ensures
            match r {
                Ok((s, u)) => jstr(self.cs@, self.base as int, self.max_string as int, p as int)
                    == Ok::<(Seq<char>, int), JsonFault>((s@, u as int)) && p < u <= self.cs@.len(),
                Err(e) => jstr(self.cs@, self.base as int, self.max_string as int, p as int)
                    == Err::<(Seq<char>, int), JsonFault>(e@),
            },
    {
        let ghost cs = self.cs@;
        let ghost base = self.base as int;
        let ghost ms = self.max_string as int;
        let n = self.cs.len();
        let q = self.cs[p];
        let mut out = String::new();
        let mut i = p + 1;
        loop
            invariant
                self.wf(),
                cs == self.cs@,
                base == self.base,
                ms == self.max_string,
                n == cs.len(),
                p < i <= n,
                q == cs[p as int],
                jstr_from(cs, base, ms, p as int, q, i as int, out@) == jstr(cs, base, ms, p as int),
            decreases n - i,
        {
            let len = out.as_str().as_bytes().len();
            assert(len == encode_utf8(out@).len());
            if len > self.max_string {
                let mut m = String::from_str("directive string longer than ");
                crate::text::push_decimal(&mut m, self.max_string);
                crate::text::push_str(&mut m, " bytes");
                return Err(JsonError::TooLarge { start: self.at(p), end: self.at(i), message: m });
            }
            if i >= n {
                return Err(self.mal(i, "unterminated string"));
            }
            let c = self.cs[i];
            if c == q {
                return Ok((out, i + 1));
            }
            if c != '\\' {
                crate::text::push_char(&mut out, c);
                i += 1;
                continue;
            }
            if i + 1 >= n {
                return Err(self.mal(i + 1, "unterminated string"));
            }
            let e = self.cs[i + 1];
            let simple: Option<char> = if e == '"' || e == '\'' || e == '\\' || e == '/' {
                Some(e)
            } else if e == 'b' {
                Some('\u{8}')
            } else if e == 'f' {
                Some('\u{c}')
            } else if e == 'n' {
                Some('\n')
            } else if e == 'r' {
                Some('\r')
            } else if e == 't' {
                Some('\t')
            } else {
                None
            };
            assert(simple == json_escape(e));
            if let Some(x) = simple {
                crate::text::push_char(&mut out, x);
                i += 2;
                continue;
            }
            if e == 'u' {
                match self.unicode_escape(i + 2) {
                    Ok((x, j)) => {
                        crate::text::push_char(&mut out, x);
                        i = j;
                        continue;
                    },
                    Err(err) => {
                        return Err(err);
                    },
                }
            }
            return Err(self.mal(i + 2, "invalid escape"));
        }
    }
}

proof fn lemma_hex_run_bound(cs: Seq<char>, i: int, k: int)
    requires
        0 <= k <= 4,
        0 <= i,
        i + k <= cs.len(),
    ensures
        k <= hex_run(cs, i, k) <= 4,
        i + hex_run(cs, i, k) <= cs.len(),
    decreases 4 - k,
{
    if !(k >= 4 || i + k < 0 || i + k >= cs.len() || !is_hex_char(cs[i + k])) {
        lemma_hex_run_bound(cs, i, k + 1);
    }
}

// ---------------------------------------------------------------------------------------
// The double limit
// ---------------------------------------------------------------------------------------

/// The decimal digits of [`float_limit`].
pub open spec fn limit_digits() -> Seq<char> {
    seq!['1', '7', '9', '7', '6', '9', '3', '1', '3', '4', '8', '6', '2', '3', '1', '5', '8', '0', '7', '9', '3', '7', '2', '8', '9', '7', '1', '4', '0', '5', '3', '0', '3', '4', '1', '5', '0', '7', '9', '9', '3', '4', '1', '3', '2', '7', '1', '0', '0', '3', '7', '8', '2', '6', '9', '3', '6', '1', '7', '3', '7', '7', '8', '9', '8', '0', '4', '4', '4', '9', '6', '8', '2', '9', '2', '7', '6', '4', '7', '5', '0', '9', '4', '6', '6', '4', '9', '0', '1', '7', '9', '7', '7', '5', '8', '7', '2', '0', '7', '0', '9', '6', '3', '3', '0', '2', '8', '6', '4', '1', '6', '6', '9', '2', '8', '8', '7', '9', '1', '0', '9', '4', '6', '5', '5', '5', '5', '4', '7', '8', '5', '1', '9', '4', '0', '4', '0', '2', '6', '3', '0', '6', '5', '7', '4', '8', '8', '6', '7', '1', '5', '0', '5', '8', '2', '0', '6', '8', '1', '9', '0', '8', '9', '0', '2', '0', '0', '0', '7', '0', '8', '3', '8', '3', '6', '7', '6', '2', '7', '3', '8', '5', '4', '8', '4', '5', '8', '1', '7', '7', '1', '1', '5', '3', '1', '7', '6', '4', '4', '7', '5', '7', '3', '0', '2', '7', '0', '0', '6', '9', '8', '5', '5', '5', '7', '1', '3', '6', '6', '9', '5', '9', '6', '2', '2', '8', '4', '2', '9', '1', '4', '8', '1', '9', '8', '6', '0', '8', '3', '4', '9', '3', '6', '4', '7', '5', '2', '9', '2', '7', '1', '9', '0', '7', '4', '1', '6', '8', '4', '4', '4', '3', '6', '5', '5', '1', '0', '7', '0', '4', '3', '4', '2', '7', '1', '1', '5', '5', '9', '6', '9', '9', '5', '0', '8', '0', '9', '3', '0', '4', '2', '8', '8', '0', '1', '7', '7', '9', '0', '4', '1', '7', '4', '4', '9', '7', '7', '9', '2']
}

proof fn lemma_limit_digits()
    ensures
        limit_digits().len() == 309,
        limit_digits()[0] == '1',
        forall|i: int| 0 <= i < 309 ==> is_digit(#[trigger] limit_digits()[i]),
{
    assert(limit_digits().len() == 309);
    assert(limit_digits()[0] == '1');
    assert(forall|i: int| 0 <= i < 309 ==> is_digit(#[trigger] limit_digits()[i]));
}

/// Every character of `s` is an ASCII digit.
pub open spec fn all_digits(s: Seq<char>) -> bool {
    forall|i: int| 0 <= i < s.len() ==> is_digit(#[trigger] s[i])
}

/// `s` compares below `t` digit by digit, from the front.
pub open spec fn lex_less(s: Seq<char>, t: Seq<char>) -> bool
    decreases s.len(),
{
    if s.len() == 0 || t.len() == 0 {
        false
    } else if s[0] < t[0] {
        true
    } else if t[0] < s[0] {
        false
    } else {
        lex_less(s.drop_first(), t.drop_first())
    }
}

/// `k` zero digits.
pub open spec fn zeros(k: nat) -> Seq<char> {
    Seq::new(k, |i: int| '0')
}

/// The first 309 digits of `sig`, padded with zeros.
pub open spec fn pad309(sig: Seq<char>) -> Seq<char> {
    if sig.len() >= 309 {
        sig.take(309)
    } else {
        sig + zeros((309 - sig.len()) as nat)
    }
}

proof fn lemma_dec_concat(x: Seq<char>, y: Seq<char>)
    ensures
        dec_value(x + y) == dec_value(x) * pow(10, y.len()) + dec_value(y),
    decreases y.len(),
{
    vstd::arithmetic::power::lemma_pow0(10);
    if y.len() == 0 {
        assert(x + y =~= x);
    } else {
        let y1 = y.drop_last();
        lemma_dec_concat(x, y1);
        assert((x + y).drop_last() =~= x + y1);
        assert((x + y).last() == y.last());
        vstd::arithmetic::power::lemma_pow_adds(10, y1.len(), 1);
        vstd::arithmetic::power::lemma_pow1(10);
        let pp = pow(10, y1.len());
        let a = dec_value(x);
        let b = dec_value(y1);
        assert((a * pp + b) * 10 == a * (pp * 10) + b * 10) by (nonlinear_arith);
    }
}

proof fn lemma_dec_bound(x: Seq<char>)
    requires
        all_digits(x),
    ensures
        dec_value(x) < pow(10, x.len()),
    decreases x.len(),
{
    vstd::arithmetic::power::lemma_pow0(10);
    if x.len() > 0 {
        let x1 = x.drop_last();
        assert(all_digits(x1)) by {
            assert forall|i: int| 0 <= i < x1.len() implies is_digit(#[trigger] x1[i]) by {
                assert(x1[i] == x[i]);
            }
        }
        lemma_dec_bound(x1);
        assert(is_digit(x[x.len() - 1]));
        vstd::arithmetic::power::lemma_pow_adds(10, x1.len(), 1);
        vstd::arithmetic::power::lemma_pow1(10);
        let pp = pow(10, x1.len());
        let a = dec_value(x1);
        let d = (x.last() as u32 - '0' as u32) as nat;
        assert(a * 10 + d < pp * 10) by (nonlinear_arith)
            requires
                a < pp,
                d <= 9,
        ;
    }
}

proof fn lemma_dec_zeros(k: nat)
    ensures
        dec_value(zeros(k)) == 0,
        all_digits(zeros(k)),
    decreases k,
{
    if k > 0 {
        lemma_dec_zeros((k - 1) as nat);
        assert(zeros(k).drop_last() =~= zeros((k - 1) as nat));
    }
}

proof fn lemma_dec_lower(x: Seq<char>)
    requires
        all_digits(x),
        x.len() >= 1,
        x[0] != '0',
    ensures
        dec_value(x) >= pow(10, (x.len() - 1) as nat),
{
    let rest = x.drop_first();
    assert(seq![x[0]] + rest =~= x);
    lemma_dec_concat(seq![x[0]], rest);
    assert(seq![x[0]].drop_last() =~= Seq::<char>::empty());
    assert(is_digit(x[0]));
    let v = dec_value(seq![x[0]]);
    assert(v >= 1);
    vstd::arithmetic::power::lemma_pow_positive(10, rest.len());
    let pp = pow(10, rest.len());
    assert(v * pp >= pp) by (nonlinear_arith)
        requires
            v >= 1,
            pp > 0,
    ;
}

/// Digit by digit comparison from the front agrees with numeric comparison.
proof fn lemma_lex(x: Seq<char>, y: Seq<char>)
    requires
        all_digits(x),
        all_digits(y),
        x.len() == y.len(),
    ensures
        lex_less(x, y) <==> dec_value(x) < dec_value(y),
    decreases x.len(),
{
    if x.len() > 0 {
        let x1 = x.drop_first();
        let y1 = y.drop_first();
        assert(all_digits(x1)) by {
            assert forall|i: int| 0 <= i < x1.len() implies is_digit(#[trigger] x1[i]) by {
                assert(x1[i] == x[i + 1]);
            }
        }
        assert(all_digits(y1)) by {
            assert forall|i: int| 0 <= i < y1.len() implies is_digit(#[trigger] y1[i]) by {
                assert(y1[i] == y[i + 1]);
            }
        }
        lemma_lex(x1, y1);
        assert(seq![x[0]] + x1 =~= x);
        assert(seq![y[0]] + y1 =~= y);
        lemma_dec_concat(seq![x[0]], x1);
        lemma_dec_concat(seq![y[0]], y1);
        assert(seq![x[0]].drop_last() =~= Seq::<char>::empty());
        assert(seq![y[0]].drop_last() =~= Seq::<char>::empty());
        lemma_dec_bound(x1);
        lemma_dec_bound(y1);
        assert(is_digit(x[0]));
        assert(is_digit(y[0]));
        let vx = dec_value(seq![x[0]]);
        let vy = dec_value(seq![y[0]]);
        let pp = pow(10, x1.len());
        let a = dec_value(x1);
        let b = dec_value(y1);
        if x[0] < y[0] {
            assert(vx + 1 <= vy);
            assert(vx * pp + a < vy * pp + b) by (nonlinear_arith)
                requires
                    vx + 1 <= vy,
                    a < pp,
                    b >= 0,
            ;
        } else if y[0] < x[0] {
            assert(vy + 1 <= vx);
            assert(vy * pp + b < vx * pp + a) by (nonlinear_arith)
                requires
                    vy + 1 <= vx,
                    b < pp,
                    a >= 0,
            ;
        } else {
            assert(vx == vy);
        }
    }
}

/// The digits of the limit: 309 of them, the first a `1`.
proof fn lemma_limit_bounds()
    ensures
        limit_digits().len() == 309,
        all_digits(limit_digits()),
        pow(10, 308) <= float_limit() < pow(10, 309),
{
    lemma_limit_digits();
    lemma_dec_lower(limit_digits());
    lemma_dec_bound(limit_digits());
}

/// With `sig` the digits of `m` without leading zeros and `k = sig.len() + e` the
/// number of digits before the point of `m * 10^e`: below [`float_limit`] when `k` is
/// at most 308, not when it is at least 310, and by its first 309 digits otherwise.
proof fn lemma_below_limit(m: nat, sig: Seq<char>, e: int)
    requires
        all_digits(sig),
        dec_value(sig) == m,
        sig.len() > 0 ==> sig[0] != '0',
    ensures
        sig.len() == 0 ==> below_limit(m, e),
        sig.len() > 0 && sig.len() + e <= 308 ==> below_limit(m, e),
        sig.len() > 0 && sig.len() + e >= 310 ==> !below_limit(m, e),
        sig.len() > 0 && sig.len() + e == 309 ==> (below_limit(m, e) <==> lex_less(
            pad309(sig),
            limit_digits(),
        )),
{
    lemma_limit_bounds();
    let lim = float_limit();
    let dd = sig.len();
    vstd::arithmetic::power::lemma_pow_positive(10, 308);
    if e < 0 {
        vstd::arithmetic::power::lemma_pow_positive(10, (-e) as nat);
    } else {
        vstd::arithmetic::power::lemma_pow_positive(10, e as nat);
    }
    if dd == 0 {
        assert(m == 0);
        if e >= 0 {
            assert(m * pow(10, e as nat) == 0);
        } else {
            let q = pow(10, (-e) as nat);
            assert(lim * q > 0) by (nonlinear_arith)
                requires
                    lim > 0,
                    q > 0,
            ;
        }
    } else {
        lemma_dec_bound(sig);
        lemma_dec_lower(sig);
        let lo = pow(10, (dd - 1) as nat);
        let hi = pow(10, dd);
        if dd + e <= 308 {
            if e >= 0 {
                let q = pow(10, e as nat);
                vstd::arithmetic::power::lemma_pow_adds(10, dd, e as nat);
                vstd::arithmetic::power::lemma_pow_increases(10, (dd + e) as nat, 308);
                assert(m * q < hi * q) by (nonlinear_arith)
                    requires
                        m < hi,
                        q > 0,
                ;
            } else {
                let q = pow(10, (-e) as nat);
                vstd::arithmetic::power::lemma_pow_adds(10, 308, (-e) as nat);
                vstd::arithmetic::power::lemma_pow_increases(10, dd, (308 - e) as nat);
                let top = pow(10, 308);
                assert(top * q <= lim * q) by (nonlinear_arith)
                    requires
                        top <= lim,
                        q > 0,
                ;
            }
        } else if dd + e >= 310 {
            if e >= 0 {
                let q = pow(10, e as nat);
                vstd::arithmetic::power::lemma_pow_adds(10, (dd - 1) as nat, e as nat);
                vstd::arithmetic::power::lemma_pow_increases(10, 309, (dd - 1 + e) as nat);
                assert(m * q >= lo * q) by (nonlinear_arith)
                    requires
                        m >= lo,
                        q > 0,
                ;
            } else {
                let q = pow(10, (-e) as nat);
                vstd::arithmetic::power::lemma_pow_adds(10, 309, (-e) as nat);
                vstd::arithmetic::power::lemma_pow_increases(10, (309 - e) as nat, (dd - 1) as nat);
                let top = pow(10, 309);
                assert(lim * q < top * q) by (nonlinear_arith)
                    requires
                        lim < top,
                        q > 0,
                ;
            }
        } else {
            let pad = pad309(sig);
            lemma_limit_digits();
            if dd <= 309 {
                let z = (309 - dd) as nat;
                lemma_dec_zeros(z);
                lemma_dec_concat(sig, zeros(z));
                assert(pad =~= sig + zeros(z));
                assert(e == z);
                assert(all_digits(pad)) by {
                    assert forall|i: int| 0 <= i < pad.len() implies is_digit(#[trigger] pad[i]) by {
                        if i < dd {
                            assert(pad[i] == sig[i]);
                        } else {
                            assert(pad[i] == zeros(z)[i - dd]);
                        }
                    }
                }
                lemma_lex(pad, limit_digits());
            } else {
                let r = (dd - 309) as nat;
                let head = sig.take(309);
                let rest = sig.skip(309);
                assert(head + rest =~= sig);
                lemma_dec_concat(head, rest);
                assert(all_digits(head)) by {
                    assert forall|i: int| 0 <= i < head.len() implies is_digit(#[trigger] head[i]) by {
                        assert(head[i] == sig[i]);
                    }
                }
                assert(all_digits(rest)) by {
                    assert forall|i: int| 0 <= i < rest.len() implies is_digit(#[trigger] rest[i]) by {
                        assert(rest[i] == sig[i + 309]);
                    }
                }
                lemma_dec_bound(rest);
                lemma_lex(head, limit_digits());
                let q = pow(10, r);
                let h = dec_value(head);
                let t = dec_value(rest);
                assert(-e == r);
                if h < lim {
                    assert(h * q + t < lim * q) by (nonlinear_arith)
                        requires
                            h + 1 <= lim,
                            t < q,
                    ;
                } else {
                    assert(h * q + t >= lim * q) by (nonlinear_arith)
                        requires
                            h >= lim,
                            t >= 0,
                            q > 0,
                    ;
                }
            }
        }
    }
}

/// The index of the first character of `s` that is not `0`, or its length.
pub open spec fn lead_zeros(s: Seq<char>, i: int) -> int
    decreases s.len() - i,
{
    if 0 <= i < s.len() && s[i] == '0' {
        lead_zeros(s, i + 1)
    } else {
        i
    }
}

proof fn lemma_lead_zeros(s: Seq<char>, i: int)
    requires
        0 <= i <= s.len(),
    ensures
        i <= lead_zeros(s, i) <= s.len(),
        forall|k: int| i <= k < lead_zeros(s, i) ==> s[k] == '0',
        lead_zeros(s, i) < s.len() ==> s[lead_zeros(s, i)] != '0',
    decreases s.len() - i,
{
    if i < s.len() && s[i] == '0' {
        lemma_lead_zeros(s, i + 1);
    }
}

/// Leading zeros do not change a number.
proof fn lemma_strip_zeros(s: Seq<char>)
    requires
        all_digits(s),
    ensures
        dec_value(s.skip(lead_zeros(s, 0))) == dec_value(s),
        all_digits(s.skip(lead_zeros(s, 0))),
        s.skip(lead_zeros(s, 0)).len() > 0 ==> s.skip(lead_zeros(s, 0))[0] != '0',
{
    lemma_lead_zeros(s, 0);
    let z = lead_zeros(s, 0);
    let t = s.skip(z);
    assert(s.take(z) =~= zeros(z as nat));
    assert(zeros(z as nat) + t =~= s);
    lemma_dec_zeros(z as nat);
    lemma_dec_concat(zeros(z as nat), t);
    assert forall|i: int| 0 <= i < t.len() implies is_digit(#[trigger] t[i]) by {
        assert(t[i] == s[i + z]);
    }
}

/// The digits of the limit, in the order of [`limit_digits`].
fn limit() -> (v: Vec<char>)
    ensures
        v@ == limit_digits(),
{
    vec![
        '1', '7', '9', '7', '6', '9', '3', '1', '3', '4', '8', '6', '2', '3', '1', '5',
        '8', '0', '7', '9', '3', '7', '2', '8', '9', '7', '1', '4', '0', '5', '3', '0',
        '3', '4', '1', '5', '0', '7', '9', '9', '3', '4', '1', '3', '2', '7', '1', '0',
        '0', '3', '7', '8', '2', '6', '9', '3', '6', '1', '7', '3', '7', '7', '8', '9',
        '8', '0', '4', '4', '4', '9', '6', '8', '2', '9', '2', '7', '6', '4', '7', '5',
        '0', '9', '4', '6', '6', '4', '9', '0', '1', '7', '9', '7', '7', '5', '8', '7',
        '2', '0', '7', '0', '9', '6', '3', '3', '0', '2', '8', '6', '4', '1', '6', '6',
        '9', '2', '8', '8', '7', '9', '1', '0', '9', '4', '6', '5', '5', '5', '5', '4',
        '7', '8', '5', '1', '9', '4', '0', '4', '0', '2', '6', '3', '0', '6', '5', '7',
        '4', '8', '8', '6', '7', '1', '5', '0', '5', '8', '2', '0', '6', '8', '1', '9',
        '0', '8', '9', '0', '2', '0', '0', '0', '7', '0', '8', '3', '8', '3', '6', '7',
        '6', '2', '7', '3', '8', '5', '4', '8', '4', '5', '8', '1', '7', '7', '1', '1',
        '5', '3', '1', '7', '6', '4', '4', '7', '5', '7', '3', '0', '2', '7', '0', '0',
        '6', '9', '8', '5', '5', '5', '7', '1', '3', '6', '6', '9', '5', '9', '6', '2',
        '2', '8', '4', '2', '9', '1', '4', '8', '1', '9', '8', '6', '0', '8', '3', '4',
        '9', '3', '6', '4', '7', '5', '2', '9', '2', '7', '1', '9', '0', '7', '4', '1',
        '6', '8', '4', '4', '4', '3', '6', '5', '5', '1', '0', '7', '0', '4', '3', '4',
        '2', '7', '1', '1', '5', '5', '9', '6', '9', '9', '5', '0', '8', '0', '9', '3',
        '0', '4', '2', '8', '8', '0', '1', '7', '7', '9', '0', '4', '1', '7', '4', '4',
        '9', '7', '7', '9', '2',
    ]
}

/// The exponent's cap: any larger exponent decides the same way.
pub open spec fn exp_cap() -> nat {
    0x40_0000_0000_0000_0000
}

/// `v`, at most [`exp_cap`].
pub open spec fn capped(v: nat) -> nat {
    if v >= exp_cap() {
        exp_cap()
    } else {
        v
    }
}

proof fn lemma_digit_end(cs: Seq<char>, i: int)
    requires
        0 <= i <= cs.len(),
    ensures
        i <= digit_end(cs, i) <= cs.len(),
        forall|k: int| i <= k < digit_end(cs, i) ==> is_digit(#[trigger] cs[k]),
        digit_end(cs, i) < cs.len() ==> !is_digit(cs[digit_end(cs, i)]),
    decreases cs.len() - i,
{
    if i < cs.len() && is_digit(cs[i]) {
        lemma_digit_end(cs, i + 1);
    }
}

impl Json {
    fn digit_end(&self, i: usize) -> (r: usize)
        requires
            i <= self.cs@.len(),
        ensures
            r == digit_end(self.cs@, i as int),
            i <= r <= self.cs@.len(),
    {
        proof {
            lemma_digit_end(self.cs@, i as int);
        }
        let mut k = i;
        while k < self.cs.len() && '0' <= self.cs[k] && self.cs[k] <= '9'
            invariant
                i <= k <= self.cs@.len(),
                digit_end(self.cs@, k as int) == digit_end(self.cs@, i as int),
            decreases self.cs@.len() - k,
        {
            k += 1;
        }
        k
    }

    /// The digits of `cs[a..b]`, then of `cs[b + 1..c]` when `c > b`, without leading
    /// zeros.
    fn significant(&self, a: usize, b: usize, c: usize) -> (sig: Vec<char>)
        requires
            a <= b <= c <= self.cs@.len(),
            c > b ==> c > b + 1,
        ensures
            sig@ == ({
                let s = self.cs@.subrange(a as int, b as int) + if c > b {
                    self.cs@.subrange(b + 1, c as int)
                } else {
                    Seq::empty()
                };
                s.skip(lead_zeros(s, 0))
            }),
    {
        let ghost s = self.cs@.subrange(a as int, b as int) + if c > b {
            self.cs@.subrange(b + 1, c as int)
        } else {
            Seq::<char>::empty()
        };
        let ghost full = s;
        let mut all: Vec<char> = Vec::new();
        let mut i = a;
        while i < b
            invariant
                a <= i <= b <= self.cs@.len(),
                all@ == self.cs@.subrange(a as int, i as int),
            decreases b - i,
        {
            all.push(self.cs[i]);
            i += 1;
            assert(all@ =~= self.cs@.subrange(a as int, i as int));
        }
        if c > b {
            let mut j = b + 1;
            while j < c
                invariant
                    b + 1 <= j <= c <= self.cs@.len(),
                    all@ == self.cs@.subrange(a as int, b as int) + self.cs@.subrange(
                        b + 1,
                        j as int,
                    ),
                decreases c - j,
            {
                all.push(self.cs[j]);
                j += 1;
                assert(all@ =~= self.cs@.subrange(a as int, b as int) + self.cs@.subrange(
                    b + 1,
                    j as int,
                ));
            }
        } else {
            assert(all@ =~= s);
        }
        assert(all@ == full);
        proof {
            lemma_lead_zeros(full, 0);
        }
        let mut z: usize = 0;
        while z < all.len() && all[z] == '0'
            invariant
                z <= all@.len(),
                all@ == full,
                lead_zeros(full, z as int) == lead_zeros(full, 0),
            decreases all@.len() - z,
        {
            z += 1;
        }
        let mut sig: Vec<char> = Vec::new();
        let mut k = z;
        while k < all.len()
            invariant
                z <= k <= all@.len(),
                all@ == full,
                sig@ == full.subrange(z as int, k as int),
            decreases all@.len() - k,
        {
            sig.push(all[k]);
            k += 1;
            assert(sig@ =~= full.subrange(z as int, k as int));
        }
        assert(sig@ =~= full.skip(z as int));
        sig
    }

    /// The digits `cs[s..d]` as a number, capped at [`exp_cap`].
    fn exponent(&self, s: usize, d: usize) -> (r: u128)
        requires
            s <= d <= self.cs@.len(),
            forall|k: int| s <= k < d ==> is_digit(#[trigger] self.cs@[k]),
        ensures
            r == capped(dec_value(self.cs@.subrange(s as int, d as int))),
    {
        let cap: u128 = 0x40_0000_0000_0000_0000;
        let mut v: u128 = 0;
        let mut i = s;
        assert(self.cs@.subrange(s as int, s as int) =~= Seq::<char>::empty());
        while i < d
            invariant
                s <= i <= d <= self.cs@.len(),
                forall|k: int| s <= k < d ==> is_digit(#[trigger] self.cs@[k]),
                cap == exp_cap(),
                v == capped(dec_value(self.cs@.subrange(s as int, i as int))),
            decreases d - i,
        {
            let ghost before = dec_value(self.cs@.subrange(s as int, i as int));
            let c = self.cs[i];
            assert(is_digit(self.cs@[i as int]));
            let dg = (c as u32 - '0' as u32) as u128;
            proof {
                assert(self.cs@.subrange(s as int, i + 1).drop_last() =~= self.cs@.subrange(
                    s as int,
                    i as int,
                ));
                assert(self.cs@.subrange(s as int, i + 1).last() == c);
            }
            if v < cap {
                v = v * 10 + dg;
                if v > cap {
                    v = cap;
                }
            } else {
                assert(before >= exp_cap());
                assert(before * 10 + dg >= exp_cap()) by (nonlinear_arith)
                    requires
                        before >= exp_cap(),
                        dg >= 0,
                ;
            }
            i += 1;
        }
        v
    }
}

impl Json {
    /// Whether the number `cs[p..d]`, whose integer digits end at `b` and fraction digits
    /// at `c`, is finite as a double.
    #[verifier::spinoff_prover]
    #[verifier::rlimit(60)]
    fn finite(&self, p: usize, b: usize, c: usize, d: usize) -> (r: bool)
        requires
            p < b <= c <= d <= self.cs@.len(),
            ({
                let a = if self.cs@[p as int] == '-' {
                    p + 1
                } else {
                    p as int
                };
                &&& a < b
                &&& forall|k: int| a <= k < b ==> is_digit(#[trigger] self.cs@[k])
            }),
            c > b ==> c > b + 1 && forall|k: int| b + 1 <= k < c ==> is_digit(
                #[trigger] self.cs@[k],
            ),
            d > c ==> ({
                let s = if self.cs@[c + 1] == '+' || self.cs@[c + 1] == '-' {
                    c + 2
                } else {
                    c + 1
                };
                &&& c + 1 < d
                &&& s < d
                &&& forall|k: int| s <= k < d ==> is_digit(#[trigger] self.cs@[k])
            }),
        ensures
            r == finite_number(self.cs@, p as int, b as int, c as int, d as int),
    {
        let ghost cs = self.cs@;
        let a = if self.cs[p] == '-' {
            p + 1
        } else {
            p
        };
        let ghost frac = if c > b {
            cs.subrange(b + 1, c as int)
        } else {
            Seq::<char>::empty()
        };
        let ghost digits = cs.subrange(a as int, b as int) + frac;
        let ghost m = dec_value(digits);
        proof {
            assert forall|i: int| 0 <= i < digits.len() implies is_digit(#[trigger] digits[i]) by {
                if i < b - a {
                    assert(digits[i] == cs[a + i]);
                } else {
                    assert(digits[i] == cs[b + 1 + (i - (b - a))]);
                }
            }
            lemma_strip_zeros(digits);
        }
        let sig = self.significant(a, b, c);
        let dd = sig.len();
        let f: usize = if c > b {
            c - b - 1
        } else {
            0
        };
        let ghost ex: int = if d > c {
            let s = if cs[c + 1] == '+' || cs[c + 1] == '-' {
                c + 2
            } else {
                c + 1
            };
            if cs[c + 1] == '-' {
                -dec_value(cs.subrange(s, d as int))
            } else {
                dec_value(cs.subrange(s, d as int)) as int
            }
        } else {
            0
        };
        let ghost e = ex - f;
        proof {
            assert(frac.len() == f);
            lemma_below_limit(m, sig@, e);
        }
        if dd == 0 {
            return true;
        }
        let (neg, v): (bool, u128) = if d > c {
            let s = if self.cs[c + 1] == '+' || self.cs[c + 1] == '-' {
                c + 2
            } else {
                c + 1
            };
            (self.cs[c + 1] == '-', self.exponent(s, d))
        } else {
            (false, 0)
        };
        let signed: i128 = if neg {
            -(v as i128)
        } else {
            v as i128
        };
        let k: i128 = dd as i128 + signed - f as i128;
        proof {
            if v < exp_cap() {
                assert(k == dd + e);
            } else if neg {
                assert(k <= 308);
                assert(dd + e <= 308);
            } else {
                assert(k >= 310);
                assert(dd + e >= 310);
            }
        }
        if k <= 308 {
            return true;
        }
        if k >= 310 {
            return false;
        }
        assert(dd + e == 309);
        let lim = limit();
        let ghost pad = pad309(sig@);
        let mut i: usize = 0;
        proof {
            assert(pad.skip(0) =~= pad);
            assert(lim@.skip(0) =~= lim@);
        }
        while i < 309
            invariant
                i <= 309,
                lex_less(pad, lim@) == finite_number(
                    self.cs@,
                    p as int,
                    b as int,
                    c as int,
                    d as int,
                ),
                lim@ == limit_digits(),
                limit_digits().len() == 309,
                dd == sig@.len(),
                pad == pad309(sig@),
                pad.len() == 309,
                lex_less(pad.skip(i as int), lim@.skip(i as int)) == lex_less(pad, lim@),
            decreases 309 - i,
        {
            let x = if i < dd {
                sig[i]
            } else {
                '0'
            };
            let y = lim[i];
            proof {
                assert(pad[i as int] == x);
                assert(pad.skip(i as int)[0] == pad[i as int]);
                assert(lim@.skip(i as int)[0] == lim@[i as int]);
                assert(pad.skip(i as int).drop_first() =~= pad.skip(i + 1));
                assert(lim@.skip(i as int).drop_first() =~= lim@.skip(i + 1));
            }
            if x < y {
                return true;
            }
            if y < x {
                return false;
            }
            i += 1;
        }
        proof {
            assert(pad.skip(309).len() == 0);
        }
        false
    }

    /// The number at `p`.
    fn number(&self, p: usize) -> (r: Result<(Value, usize), JsonError>)
        requires
            self.wf(),
            p < self.cs@.len(),
        ensures
            match r {
                Ok((v, u)) => jnumber(self.cs@, self.base as int, p as int) == Ok::<
                    (Tree, int),
                    JsonFault,
                >((tree_of(v), u as int)) && p < u <= self.cs@.len(),
                Err(e) => jnumber(self.cs@, self.base as int, p as int) == Err::<
                    (Tree, int),
                    JsonFault,
                >(e@),
            },
    {
        let ghost cs = self.cs@;
        let n = self.cs.len();
        let a = if self.cs[p] == '-' {
            p + 1
        } else {
            p
        };
        let b = self.digit_end(a);
        proof {
            lemma_digit_end(cs, a as int);
        }
        if b == a {
            return Err(self.mal(p, "invalid number"));
        }
        let c = if b < n && self.cs[b] == '.' {
            self.digit_end(b + 1)
        } else {
            b
        };
        proof {
            if b < n && cs[b as int] == '.' {
                lemma_digit_end(cs, b + 1);
            }
        }
        if c - b == 1 {
            return Err(self.mal(p, "invalid number"));
        }
        let has_exp = c < n && (self.cs[c] == 'e' || self.cs[c] == 'E');
        let d = if has_exp {
            let s = if n - c >= 2 && (self.cs[c + 1] == '+' || self.cs[c + 1] == '-') {
                c + 2
            } else {
                c + 1
            };
            proof {
                lemma_digit_end(cs, s as int);
            }
            let d = self.digit_end(s);
            if d == s {
                return Err(self.mal(p, "invalid number"));
            }
            d
        } else {
            c
        };
        if self.finite(p, b, c, d) {
            Ok((Value::Num(crate::text::string_from_chars(&self.cs, p, d)), d))
        } else {
            Err(self.mal(d, "invalid number"))
        }
    }
}

/// A character that starts a bare object key.
fn is_key_start(c: char) -> (r: bool)
    ensures
        r == (('a' <= c && c <= 'z') || ('A' <= c && c <= 'Z') || c == '_' || c == '$'),
{
    ('a' <= c && c <= 'z') || ('A' <= c && c <= 'Z') || c == '_' || c == '$'
}

/// A character that continues a bare object key.
fn is_key_char(c: char) -> (r: bool)
    ensures
        r == key_char(c),
{
    is_key_start(c) || ('0' <= c && c <= '9')
}

proof fn lemma_key_end(cs: Seq<char>, i: int)
    requires
        0 <= i <= cs.len(),
    ensures
        i <= key_end(cs, i) <= cs.len(),
    decreases cs.len() - i,
{
    if i < cs.len() && key_char(cs[i]) {
        lemma_key_end(cs, i + 1);
    }
}

impl Json {
    fn key_end(&self, i: usize) -> (r: usize)
        requires
            i <= self.cs@.len(),
        ensures
            r == key_end(self.cs@, i as int),
            i <= r <= self.cs@.len(),
    {
        proof {
            lemma_key_end(self.cs@, i as int);
        }
        let mut k = i;
        while k < self.cs.len() && is_key_char(self.cs[k])
            invariant
                i <= k <= self.cs@.len(),
                key_end(self.cs@, k as int) == key_end(self.cs@, i as int),
            decreases self.cs@.len() - k,
        {
            k += 1;
        }
        k
    }
}

impl Json {
    /// Whether `cs[p..]` starts with `w`.
    fn starts(&self, p: usize, w: &str) -> (r: bool)
        requires
            p <= self.cs@.len(),
        ensures
            r == starts_at(self.cs@, p as int, w@),
    {
        crate::text::starts_with_at(&self.cs, p, self.cs.len(), w)
    }

    /// The value at `i` (after whitespace), at nesting `depth`.
    fn value(&self, i: usize, depth: usize) -> (r: Result<(Value, usize), JsonError>)
        requires
            self.wf(),
            i <= self.cs@.len(),
            depth <= self.max_depth,
        ensures
            match r {
                Ok((v, u)) => jvalue(
                    self.cs@,
                    self.base as int,
                    self.max_depth as int,
                    self.max_string as int,
                    i as int,
                    depth as int,
                ) == Ok::<(Tree, int), JsonFault>((tree_of(v), u as int)) && i < u <= self.cs@.len(),
                Err(e) => jvalue(
                    self.cs@,
                    self.base as int,
                    self.max_depth as int,
                    self.max_string as int,
                    i as int,
                    depth as int,
                ) == Err::<(Tree, int), JsonFault>(e@),
            },
        decreases self.cs@.len() - i, 0int,
    {
        let n = self.cs.len();
        let p = self.skip_ws(i);
        if p >= n {
            return Err(self.mal(p, "expected a JSON value"));
        }
        let c = self.cs[p];
        if c == '{' || c == '[' {
            if depth >= self.max_depth {
                let mut m = String::from_str("directive JSON nests deeper than ");
                crate::text::push_decimal(&mut m, self.max_depth);
                let x = self.at(p);
                return Err(JsonError::TooLarge { start: x, end: x, message: m });
            }
            if c == '{' {
                return self.object(p + 1, depth + 1);
            } else {
                return self.array(p + 1, depth + 1);
            }
        }
        if c == '"' || c == '\'' {
            return match self.string(p) {
                Ok((s, u)) => Ok((Value::Str(s), u)),
                Err(e) => Err(e),
            };
        }
        if c == '-' || ('0' <= c && c <= '9') {
            return self.number(p);
        }
        proof {
            reveal_strlit("true");
            reveal_strlit("false");
            reveal_strlit("null");
        }
        if self.starts(p, "true") {
            return Ok((Value::Bool(true), p + 4));
        }
        if self.starts(p, "false") {
            return Ok((Value::Bool(false), p + 5));
        }
        if self.starts(p, "null") {
            return Ok((Value::Null, p + 4));
        }
        Err(self.mal(p, "expected a JSON value"))
    }

    /// The object whose entries start at `i0`, after its `{`.
    fn object(&self, i0: usize, depth: usize) -> (r: Result<(Value, usize), JsonError>)
        requires
            self.wf(),
            i0 <= self.cs@.len(),
            depth <= self.max_depth,
        ensures
            match r {
                Ok((v, u)) => jobject(
                    self.cs@,
                    self.base as int,
                    self.max_depth as int,
                    self.max_string as int,
                    i0 as int,
                    depth as int,
                    Seq::empty(),
                ) == Ok::<(Tree, int), JsonFault>((tree_of(v), u as int)) && i0 < u
                    <= self.cs@.len(),
                Err(e) => jobject(
                    self.cs@,
                    self.base as int,
                    self.max_depth as int,
                    self.max_string as int,
                    i0 as int,
                    depth as int,
                    Seq::empty(),
                ) == Err::<(Tree, int), JsonFault>(e@),
            },
        decreases self.cs@.len() - i0, 1int,
    {
        let ghost cs = self.cs@;
        let ghost base = self.base as int;
        let ghost md = self.max_depth as int;
        let ghost ms = self.max_string as int;
        let n = self.cs.len();
        let mut entries: Vec<Entry> = Vec::new();
        let mut i = i0;
        proof {
            assert(keyed_seq(entries@) =~= Seq::<Keyed>::empty());
        }
        loop
            invariant
                self.wf(),
                cs == self.cs@,
                base == self.base,
                md == self.max_depth,
                ms == self.max_string,
                n == cs.len(),
                i0 <= i <= n,
                depth <= self.max_depth,
                jobject(cs, base, md, ms, i as int, depth as int, keyed_seq(entries@)) == jobject(
                    cs,
                    base,
                    md,
                    ms,
                    i0 as int,
                    depth as int,
                    Seq::empty(),
                ),
            decreases n - i,
        {
            let p = self.skip_ws(i);
            if p < n && self.cs[p] == '}' {
                proof {
                    lemma_mapping_tree(entries);
                }
                return Ok((Value::Mapping(entries), p + 1));
            }
            let (key, ke) = if p < n && (self.cs[p] == '"' || self.cs[p] == '\'') {
                match self.string(p) {
                    Ok(x) => x,
                    Err(e) => {
                        return Err(e);
                    },
                }
            } else if p < n && is_key_start(self.cs[p]) {
                let ke = self.key_end(p);
                (crate::text::string_from_chars(&self.cs, p, ke), ke)
            } else {
                return Err(self.mal(p, "expected an object key"));
            };
            let q = self.skip_ws(ke);
            if !(q < n && self.cs[q] == ':') {
                return Err(self.mal(q, "expected `:` after the key"));
            }
            let (v, u) = match self.value(q + 1, depth) {
                Ok(x) => x,
                Err(e) => {
                    return Err(e);
                },
            };
            let r = self.skip_ws(u);
            let ghost before = keyed_seq(entries@);
            let start = self.at(p);
            let end = self.at(ke);
            let ghost kv = Keyed { key: key@, start: start as int, end: end as int, value: tree_of(v) };
            entries.push(Entry { key, start, end, value: v });
            proof {
                assert(keyed_seq(entries@) =~= before.push(kv));
            }
            if r < n && self.cs[r] == ',' {
                i = r + 1;
                continue;
            }
            if r < n && self.cs[r] == '}' {
                proof {
                    lemma_mapping_tree(entries);
                }
                return Ok((Value::Mapping(entries), r + 1));
            }
            return Err(self.mal(r, "expected `,` or `}`"));
        }
    }

    /// The array whose items start at `i0`, after its `[`.
    fn array(&self, i0: usize, depth: usize) -> (r: Result<(Value, usize), JsonError>)
        requires
            self.wf(),
            i0 <= self.cs@.len(),
            depth <= self.max_depth,
        ensures
            match r {
                Ok((v, u)) => jarray(
                    self.cs@,
                    self.base as int,
                    self.max_depth as int,
                    self.max_string as int,
                    i0 as int,
                    depth as int,
                    Seq::empty(),
                ) == Ok::<(Tree, int), JsonFault>((tree_of(v), u as int)) && i0 < u
                    <= self.cs@.len(),
                Err(e) => jarray(
                    self.cs@,
                    self.base as int,
                    self.max_depth as int,
                    self.max_string as int,
                    i0 as int,
                    depth as int,
                    Seq::empty(),
                ) == Err::<(Tree, int), JsonFault>(e@),
            },
        decreases self.cs@.len() - i0, 1int,
    {
        let ghost cs = self.cs@;
        let ghost base = self.base as int;
        let ghost md = self.max_depth as int;
        let ghost ms = self.max_string as int;
        let n = self.cs.len();
        let mut items: Vec<Value> = Vec::new();
        let mut i = i0;
        proof {
            assert(trees(items@) =~= Seq::<Tree>::empty());
        }
        loop
            invariant
                self.wf(),
                cs == self.cs@,
                base == self.base,
                md == self.max_depth,
                ms == self.max_string,
                n == cs.len(),
                i0 <= i <= n,
                depth <= self.max_depth,
                jarray(cs, base, md, ms, i as int, depth as int, trees(items@)) == jarray(
                    cs,
                    base,
                    md,
                    ms,
                    i0 as int,
                    depth as int,
                    Seq::empty(),
                ),
            decreases n - i,
        {
            let p = self.skip_ws(i);
            if p < n && self.cs[p] == ']' {
                proof {
                    crate::parse::config::lemma_list_tree(items);
                }
                return Ok((Value::List(items), p + 1));
            }
            let (v, u) = match self.value(p, depth) {
                Ok(x) => x,
                Err(e) => {
                    return Err(e);
                },
            };
            let r = self.skip_ws(u);
            let ghost before = trees(items@);
            let ghost t = tree_of(v);
            items.push(v);
            proof {
                assert(trees(items@) =~= before.push(t));
            }
            if r < n && self.cs[r] == ',' {
                i = r + 1;
                continue;
            }
            if r < n && self.cs[r] == ']' {
                proof {
                    crate::parse::config::lemma_list_tree(items);
                }
                return Ok((Value::List(items), r + 1));
            }
            return Err(self.mal(r, "expected `,` or `]`"));
        }
    }
}

/// The tree of an optional value.
pub open spec fn opt_tree(v: Option<Value>) -> Option<Tree> {
    match v {
        Some(x) => Some(tree_of(x)),
        None => None,
    }
}

/// Parses the text between `%%{` and `}%%`; `base` is its byte offset in the source.
pub fn parse_directive(inner: &str, base: usize, max_depth: usize, max_string: usize) -> (r: Result<
    Directive,
    JsonError,
>)
    requires
        base + inner.spec_bytes().len() <= usize::MAX,
    ensures
        match r {
            Ok(d) => directive(inner@, base as int, max_depth as int, max_string as int) == Ok::<
                (Seq<char>, Option<Tree>),
                JsonFault,
            >((d.kind@, opt_tree(d.value))),
            Err(e) => directive(inner@, base as int, max_depth as int, max_string as int) == Err::<
                (Seq<char>, Option<Tree>),
                JsonFault,
            >(e@),
        },
{
    let (cs, offs) = crate::text::char_offsets(inner);
    let p = Json { cs, offs, base, max_depth, max_string };
    let n = p.cs.len();
    let s = p.skip_ws(0);
    proof {
        lemma_kind_end(p.cs@, s as int);
    }
    let mut k = s;
    while k < n && is_kind_char(p.cs[k])
        invariant
            s <= k <= n,
            n == p.cs@.len(),
            kind_end(p.cs@, k as int) == kind_end(p.cs@, s as int),
        decreases n - k,
    {
        k += 1;
    }
    if k == s {
        return Err(p.mal(s, "expected a directive name such as `init`"));
    }
    let kind = crate::text::string_from_chars(&p.cs, s, k);
    let q = p.skip_ws(k);
    let (value, u) = if q < n && p.cs[q] == ':' {
        match p.value(q + 1, 0) {
            Ok((v, u)) => (Some(v), u),
            Err(e) => {
                return Err(e);
            },
        }
    } else {
        (None, q)
    };
    let r = p.skip_ws(u);
    if r < n {
        return Err(p.mal(r, "unexpected text after the directive"));
    }
    Ok(Directive { kind, value })
}

/// A character of a directive name.
fn is_kind_char(c: char) -> (r: bool)
    ensures
        r == kind_char(c),
{
    ('a' <= c && c <= 'z') || ('A' <= c && c <= 'Z') || ('0' <= c && c <= '9') || c == '_' || c
        == '-'
}

proof fn lemma_kind_end(cs: Seq<char>, i: int)
    requires
        0 <= i <= cs.len(),
    ensures
        i <= kind_end(cs, i) <= cs.len(),
    decreases cs.len() - i,
{
    if i < cs.len() && kind_char(cs[i]) {
        lemma_kind_end(cs, i + 1);
    }
}

// ---------------------------------------------------------------------------------------
// Limits and ranges
// ---------------------------------------------------------------------------------------

/// `t`, a value found inside `depth` containers, opens containers only while fewer than
/// `max_depth` enclose them, and holds no string value longer than `max_string` bytes.
pub open spec fn fits(t: Tree, depth: int, max_depth: int, max_string: int) -> bool
    decreases t,
{
    match t {
        Tree::Str(s) => encode_utf8(s).len() <= max_string,
        Tree::List(items) => depth < max_depth && forall|i: int|
            0 <= i < items.len() ==> fits(#[trigger] items[i], depth + 1, max_depth, max_string),
        Tree::Mapping(es) => depth < max_depth && forall|i: int|
            0 <= i < es.len() ==> fits(#[trigger] es[i].value, depth + 1, max_depth, max_string),
        _ => true,
    }
}

/// The byte range of `x` is ordered and lies within the text.
pub open spec fn fault_within(cs: Seq<char>, base: int, x: JsonFault) -> bool {
    base <= x.start <= x.end <= base + encode_utf8(cs).len()
}

proof fn lemma_mal_within(cs: Seq<char>, base: int, at: int, m: Seq<char>)
    requires
        0 <= at <= cs.len(),
    ensures
        fault_within(cs, base, mal(cs, base, at, m)),
{
    crate::text::lemma_byte_at_mono(cs, at, cs.len() as int);
    crate::text::lemma_byte_at_mono(cs, 0, at);
}

proof fn lemma_big_within(cs: Seq<char>, base: int, start: int, at: int, m: Seq<char>)
    requires
        0 <= start <= at <= cs.len(),
    ensures
        fault_within(cs, base, big(cs, base, start, at, m)),
{
    crate::text::lemma_byte_at_mono(cs, start, at);
    crate::text::lemma_byte_at_mono(cs, at, cs.len() as int);
}

proof fn lemma_unicode_ok(cs: Seq<char>, base: int, i: int)
    requires
        0 <= i <= cs.len(),
    ensures
        unicode_escape(cs, base, i) matches Ok((_, j)) ==> i + 4 <= j <= cs.len(),
        unicode_escape(cs, base, i) matches Err(x) ==> fault_within(cs, base, x),
{
    let unpaired = "unpaired surrogate in `\\u` escape"@;
    let bad = "invalid `\\u` escape"@;
    lemma_hex_run_bound(cs, i, 0);
    lemma_mal_within(cs, base, i + hex_run(cs, i, 0), bad);
    if hex_run(cs, i, 0) == 4 {
        lemma_mal_within(cs, base, i + 4, unpaired);
        let j = i + 4;
        if j + 1 < cs.len() {
            lemma_hex_run_bound(cs, j + 2, 0);
            lemma_mal_within(cs, base, j + 2 + hex_run(cs, j + 2, 0), bad);
            if hex_run(cs, j + 2, 0) == 4 {
                lemma_mal_within(cs, base, j + 6, unpaired);
            }
        }
    }
}

proof fn lemma_jstr_ok(
    cs: Seq<char>,
    base: int,
    max_string: int,
    start: int,
    q: char,
    i: int,
    out: Seq<char>,
)
    requires
        0 <= start < i <= cs.len(),
    ensures
        jstr_from(cs, base, max_string, start, q, i, out) matches Ok((s, u)) ==> encode_utf8(
            s,
        ).len() <= max_string && i < u <= cs.len(),
        jstr_from(cs, base, max_string, start, q, i, out) matches Err(x) ==> fault_within(
            cs,
            base,
            x,
        ),
    decreases cs.len() - i,
{
    lemma_big_within(cs, base, start, i, length_message(max_string as nat));
    lemma_mal_within(cs, base, i, "unterminated string"@);
    if i < cs.len() && encode_utf8(out).len() <= max_string {
        let c = cs[i];
        if c != q {
            if c != '\\' {
                lemma_jstr_ok(cs, base, max_string, start, q, i + 1, out.push(c));
            } else if i + 1 < cs.len() {
                let e = cs[i + 1];
                lemma_mal_within(cs, base, i + 2, "invalid escape"@);
                match json_escape(e) {
                    Some(x) => lemma_jstr_ok(cs, base, max_string, start, q, i + 2, out.push(x)),
                    None => if e == 'u' {
                        lemma_unicode_ok(cs, base, i + 2);
                        if let Ok((x, j)) = unicode_escape(cs, base, i + 2) {
                            lemma_jstr_ok(cs, base, max_string, start, q, j, out.push(x));
                        }
                    },
                }
            } else {
                lemma_mal_within(cs, base, i + 1, "unterminated string"@);
            }
        }
    }
}

proof fn lemma_jnumber_ok(cs: Seq<char>, base: int, p: int)
    requires
        0 <= p < cs.len(),
    ensures
        jnumber(cs, base, p) matches Ok((t, u)) ==> t is Num && p < u <= cs.len(),
        jnumber(cs, base, p) matches Err(x) ==> fault_within(cs, base, x),
{
    lemma_mal_within(cs, base, p, "invalid number"@);
    let a = if cs[p] == '-' {
        p + 1
    } else {
        p
    };
    lemma_digit_end(cs, a);
    let b = digit_end(cs, a);
    if b < cs.len() && cs[b] == '.' {
        lemma_digit_end(cs, b + 1);
    }
    let c = if b < cs.len() && cs[b] == '.' {
        digit_end(cs, b + 1)
    } else {
        b
    };
    let s = if c + 1 < cs.len() && (cs[c + 1] == '+' || cs[c + 1] == '-') {
        c + 2
    } else {
        c + 1
    };
    if c < cs.len() && (cs[c] == 'e' || cs[c] == 'E') {
        lemma_digit_end(cs, s);
    }
    let d = if c < cs.len() && (cs[c] == 'e' || cs[c] == 'E') {
        digit_end(cs, s)
    } else {
        c
    };
    if 0 <= d <= cs.len() {
        lemma_mal_within(cs, base, d, "invalid number"@);
    }
}

/// Every value the grammar accepts fits the limits and keeps its key ranges inside the
/// text; every refusal is reported inside the text.
proof fn lemma_jvalue_ok(
    cs: Seq<char>,
    base: int,
    max_depth: int,
    max_string: int,
    i: int,
    depth: int,
)
    requires
        0 <= i <= cs.len(),
    ensures
        jvalue(cs, base, max_depth, max_string, i, depth) matches Ok((t, u)) ==> fits(
            t,
            depth,
            max_depth,
            max_string,
        ) && ranges_within(t, base, base + encode_utf8(cs).len()) && i < u <= cs.len(),
        jvalue(cs, base, max_depth, max_string, i, depth) matches Err(x) ==> fault_within(
            cs,
            base,
            x,
        ),
    decreases cs.len() - i, 0int,
{
    lemma_ws_lead(cs, i);
    let p = ws_lead(cs, i);
    lemma_mal_within(cs, base, p, "expected a JSON value"@);
    if p < cs.len() {
        let c = cs[p];
        lemma_big_within(cs, base, p, p, depth_message(max_depth as nat));
        if c == '{' || c == '[' {
            if depth < max_depth {
                if c == '{' {
                    lemma_jobject_ok(
                        cs,
                        base,
                        max_depth,
                        max_string,
                        p + 1,
                        depth + 1,
                        Seq::empty(),
                    );
                } else {
                    lemma_jarray_ok(cs, base, max_depth, max_string, p + 1, depth + 1, Seq::empty());
                }
            }
        } else if c == '"' || c == '\'' {
            lemma_jstr_ok(cs, base, max_string, p, cs[p], p + 1, Seq::empty());
        } else if c == '-' || is_digit(c) {
            lemma_jnumber_ok(cs, base, p);
        } else {
            reveal_strlit("true");
            reveal_strlit("false");
            reveal_strlit("null");
        }
    }
}

proof fn lemma_object_key_ok(cs: Seq<char>, base: int, max_string: int, p: int)
    requires
        0 <= p <= cs.len(),
    ensures
        object_key(cs, base, max_string, p) matches Ok((k, ke)) ==> p < ke <= cs.len(),
        object_key(cs, base, max_string, p) matches Err(x) ==> fault_within(cs, base, x),
{
    lemma_mal_within(cs, base, p, "expected an object key"@);
    if p < cs.len() {
        if cs[p] == '"' || cs[p] == '\'' {
            lemma_jstr_ok(cs, base, max_string, p, cs[p], p + 1, Seq::empty());
        } else {
            lemma_key_end(cs, p);
            if key_char(cs[p]) {
                lemma_key_end(cs, p + 1);
            }
        }
    }
}

#[verifier::spinoff_prover]
#[verifier::rlimit(40)]
proof fn lemma_jobject_ok(
    cs: Seq<char>,
    base: int,
    max_depth: int,
    max_string: int,
    i: int,
    depth: int,
    entries: Seq<Keyed>,
)
    requires
        0 <= i <= cs.len(),
        forall|k: int|
            0 <= k < entries.len() ==> fits((#[trigger] entries[k]).value, depth, max_depth, max_string)
                && base <= entries[k].start
                <= entries[k].end <= base + encode_utf8(cs).len() && ranges_within(
                entries[k].value,
                base,
                base + encode_utf8(cs).len(),
            ),
    ensures
        jobject(cs, base, max_depth, max_string, i, depth, entries) matches Ok((t, u)) ==> (t matches Tree::Mapping(es) && forall|k: int|
            0 <= k < es.len() ==> fits((#[trigger] es[k]).value, depth, max_depth, max_string)
                && base <= es[k].start <= es[k].end <= base + encode_utf8(cs).len() && ranges_within(
                es[k].value,
                base,
                base + encode_utf8(cs).len(),
            )) && i < u <= cs.len(),
        jobject(cs, base, max_depth, max_string, i, depth, entries) matches Err(x) ==> fault_within(
            cs,
            base,
            x,
        ),
    decreases cs.len() - i, 1int,
{
    let hi = base + encode_utf8(cs).len();
    lemma_ws_lead(cs, i);
    let p = ws_lead(cs, i);
    lemma_mal_within(cs, base, p, "expected an object key"@);
    if !(p < cs.len() && cs[p] == '}') {
        lemma_object_key_ok(cs, base, max_string, p);
        if let Ok((k, ke)) = object_key(cs, base, max_string, p) {
            lemma_ws_lead(cs, ke);
            let q = ws_lead(cs, ke);
            lemma_mal_within(cs, base, q, "expected `:` after the key"@);
            lemma_mal_within(cs, base, q, "expected an object key"@);
            if q < cs.len() && cs[q] == ':' && q >= i {
                lemma_jvalue_ok(cs, base, max_depth, max_string, q + 1, depth);
                if let Ok((v, u)) = jvalue(cs, base, max_depth, max_string, q + 1, depth) {
                    lemma_ws_lead(cs, u);
                    let r = ws_lead(cs, u);
                    lemma_mal_within(cs, base, r, "expected `,` or `}`"@);
                    crate::text::lemma_byte_at_mono(cs, p, ke);
                    crate::text::lemma_byte_at_mono(cs, ke, cs.len() as int);
                    crate::text::lemma_byte_at_mono(cs, 0, p);
                    let kv = Keyed {
                        key: k,
                        start: base + byte_at(cs, p),
                        end: base + byte_at(cs, ke),
                        value: v,
                    };
                    let es = entries.push(kv);
                    assert forall|j: int| 0 <= j < es.len() implies fits(
                        (#[trigger] es[j]).value,
                        depth,
                        max_depth,
                        max_string,
                    ) && base <= es[j].start <= es[j].end <= hi && ranges_within(es[j].value, base, hi) by {
                        if j < entries.len() {
                            assert(es[j] == entries[j]);
                        }
                    }
                    if r < cs.len() && cs[r] == ',' && r >= i {
                        lemma_jobject_ok(cs, base, max_depth, max_string, r + 1, depth, es);
                    }
                }
            }
        }
    }
}

proof fn lemma_jarray_ok(
    cs: Seq<char>,
    base: int,
    max_depth: int,
    max_string: int,
    i: int,
    depth: int,
    items: Seq<Tree>,
)
    requires
        0 <= i <= cs.len(),
        forall|k: int|
            0 <= k < items.len() ==> fits(#[trigger] items[k], depth, max_depth, max_string)
                && ranges_within(items[k], base, base + encode_utf8(cs).len()),
    ensures
        jarray(cs, base, max_depth, max_string, i, depth, items) matches Ok((t, u)) ==> (t matches Tree::List(vs) && forall|k: int|
            0 <= k < vs.len() ==> fits(#[trigger] vs[k], depth, max_depth, max_string)
                && ranges_within(vs[k], base, base + encode_utf8(cs).len())) && i < u <= cs.len(),
        jarray(cs, base, max_depth, max_string, i, depth, items) matches Err(x) ==> fault_within(
            cs,
            base,
            x,
        ),
    decreases cs.len() - i, 1int,
{
    lemma_ws_lead(cs, i);
    let p = ws_lead(cs, i);
    if !(p < cs.len() && cs[p] == ']') {
        lemma_jvalue_ok(cs, base, max_depth, max_string, p, depth);
        if let Ok((v, u)) = jvalue(cs, base, max_depth, max_string, p, depth) {
            lemma_ws_lead(cs, u);
            let r = ws_lead(cs, u);
            lemma_mal_within(cs, base, r, "expected `,` or `]`"@);
            let more = items.push(v);
            assert forall|k: int| 0 <= k < more.len() implies fits(
                #[trigger] more[k],
                depth,
                max_depth,
                max_string,
            ) && ranges_within(more[k], base, base + encode_utf8(cs).len()) by {
                if k < items.len() {
                    assert(more[k] == items[k]);
                }
            }
            if r < cs.len() && cs[r] == ',' && r >= i {
                lemma_jarray_ok(cs, base, max_depth, max_string, r + 1, depth, more);
            }
        }
    }
}

/// An accepted directive stays within its limits: its containers nest at most
/// `max_depth` deep, and none of its string values is longer than `max_string` bytes.
pub proof fn lemma_directive_within_limits(cs: Seq<char>, base: int, max_depth: int, max_string: int)
    ensures
        directive(cs, base, max_depth, max_string) matches Ok((_, Some(t))) ==> fits(
            t,
            0,
            max_depth,
            max_string,
        ),
{
    lemma_directive_ok(cs, base, max_depth, max_string);
}

/// Every byte range the directive parser reports is absolute and lies within the text:
/// the key ranges of an accepted value at any depth, and the range of a refusal.
pub proof fn lemma_directive_ranges(cs: Seq<char>, base: int, max_depth: int, max_string: int)
    ensures
        directive(cs, base, max_depth, max_string) matches Ok((_, Some(t))) ==> ranges_within(
            t,
            base,
            base + encode_utf8(cs).len(),
        ),
        directive(cs, base, max_depth, max_string) matches Err(x) ==> base <= x.start <= x.end
            <= base + encode_utf8(cs).len(),
{
    lemma_directive_ok(cs, base, max_depth, max_string);
}

proof fn lemma_directive_ok(cs: Seq<char>, base: int, max_depth: int, max_string: int)
    ensures
        directive(cs, base, max_depth, max_string) matches Ok((_, Some(t))) ==> fits(
            t,
            0,
            max_depth,
            max_string,
        ) && ranges_within(t, base, base + encode_utf8(cs).len()),
        directive(cs, base, max_depth, max_string) matches Err(x) ==> fault_within(cs, base, x),
{
    lemma_ws_lead(cs, 0);
    let p = ws_lead(cs, 0);
    lemma_kind_end(cs, p);
    let k = kind_end(cs, p);
    lemma_mal_within(cs, base, p, "expected a directive name such as `init`"@);
    lemma_ws_lead(cs, k);
    let q = ws_lead(cs, k);
    if q < cs.len() && cs[q] == ':' {
        lemma_jvalue_ok(cs, base, max_depth, max_string, q + 1, 0);
        if let Ok((t, u)) = jvalue(cs, base, max_depth, max_string, q + 1, 0) {
            lemma_ws_lead(cs, u);
            lemma_mal_within(cs, base, ws_lead(cs, u), "unexpected text after the directive"@);
        }
    } else {
        lemma_ws_lead(cs, q);
        lemma_mal_within(cs, base, ws_lead(cs, q), "unexpected text after the directive"@);
    }
}

} // verus!
