//! Label text: quoted strings, Mermaid entity codes, line breaks and truncation.

use vstd::prelude::*;
use vstd::utf8::*;
use vstd::string::StringSliceAdditionalSpecFns;

use crate::parse::cursor::{clamp_spec, rest_chars, Cursor};
use crate::parse::link::{index_from, lemma_index_from};
use crate::svg::escape::is_control;
use crate::text::{
    char_from_u32, chars_of, lemma_encode_concat, is_unicode_ws, lemma_valid, lower_char, push_char, push_str,
    range_eq, string_truncate, trim_bounds, trim_ws, utf8_len,
};

verus! {

broadcast use vstd::utf8::group_utf8_lib;

/// A quoted string found in the source. Offsets are absolute byte positions.
#[derive(Clone, Debug, PartialEq, Eq)]
pub struct Quoted {
    pub content_start: usize,
    pub content_end: usize,
    /// Just past the closing quote.
    pub end: usize,
    /// Byte ranges of typographic delimiters (`R003`), opener first.
    pub typographic: Vec<(usize, usize)>,
}

#[derive(Clone, Debug, PartialEq, Eq)]
pub enum QuoteScan {
    NotQuote,
    /// An opening quote without a closing one; `typographic` is true for `“ ” ‘`.
    Unterminated { typographic: bool },
    Found(Quoted),
}

// ---------------------------------------------------------------------------------------
// UTF-8 lengths of character sequences
// ---------------------------------------------------------------------------------------

proof fn lemma_encode_push(a: Seq<char>, c: char)
    ensures
        encode_utf8(a.push(c)).len() == encode_utf8(a).len() + encode_scalar(c as u32).len(),
{
    lemma_encode_concat(a, seq![c]);
    assert(a.push(c) =~= a + seq![c]);
    assert(seq![c].drop_first() =~= Seq::<char>::empty());
    assert(encode_utf8(seq![c]) == encode_scalar(seq![c][0] as u32) + encode_utf8(
        seq![c].drop_first(),
    ));
    assert(encode_utf8(Seq::<char>::empty()) =~= Seq::<u8>::empty());
    assert(encode_utf8(seq![c]) =~= encode_scalar(c as u32));
}

// ---------------------------------------------------------------------------------------
// Quoted strings
// ---------------------------------------------------------------------------------------

/// Characters that open a quoted string: `"` and the typographic `“ ” ‘`.
pub open spec fn quote_start(c: char) -> bool {
    c == '"' || c == '\u{201c}' || c == '\u{201d}' || c == '\u{2018}'
}

/// Whether `c` closes a string opened by `open`.
pub open spec fn closes(open: char, c: char) -> bool {
    if open == '"' {
        c == '"'
    } else if open == '\u{201c}' {
        c == '\u{201d}' || c == '\u{201c}' || c == '"'
    } else if open == '\u{201d}' {
        c == '\u{201d}' || c == '"'
    } else if open == '\u{2018}' {
        c == '\u{2019}' || c == '\u{2018}'
    } else {
        false
    }
}

/// Index of the first character at or after `i` that closes `open`, or the length.
pub open spec fn first_closer(cs: Seq<char>, open: char, i: int) -> int
    decreases cs.len() - i,
{
    if i >= cs.len() {
        cs.len() as int
    } else if closes(open, cs[i]) {
        i
    } else {
        first_closer(cs, open, i + 1)
    }
}

/// The delimiters of a found string that are typographic quotes.
pub open spec fn typographic_ranges(
    pos: int,
    open: char,
    close: char,
    content_start: int,
    content_end: int,
    end: int,
) -> Seq<(usize, usize)> {
    (if open != '"' {
        seq![(pos as usize, content_start as usize)]
    } else {
        Seq::<(usize, usize)>::empty()
    }) + (if close != '"' {
        seq![(content_end as usize, end as usize)]
    } else {
        Seq::<(usize, usize)>::empty()
    })
}

/// What `scan_quoted` finds at `pos` in `b`.
pub open spec fn quote_scan_ok(b: Seq<u8>, pos: int, r: QuoteScan) -> bool {
    let cs = rest_chars(b, pos);
    if cs.len() == 0 || !quote_start(cs[0]) {
        r is NotQuote
    } else {
        let open = cs[0];
        let body = cs.drop_first();
        let k = first_closer(body, open, 0);
        if k >= body.len() {
            r == QuoteScan::Unterminated { typographic: open != '"' }
        } else {
            match r {
                QuoteScan::Found(q) => {
                    &&& q.content_start == pos + encode_scalar(open as u32).len()
                    &&& q.content_end == q.content_start + encode_utf8(body.take(k)).len()
                    &&& q.end == q.content_end + encode_scalar(body[k] as u32).len()
                    &&& q.typographic@ == typographic_ranges(
                        pos,
                        open,
                        body[k],
                        q.content_start as int,
                        q.content_end as int,
                        q.end as int,
                    )
                },
                _ => false,
            }
        }
    }
}

/// Characters that open a quoted string. `“ ” ‘` are typographic quotes used as
/// delimiters, which `R003` replaces with ASCII quotes.
pub fn is_quote_start(c: char) -> (r: bool)
    ensures
        r == quote_start(c),
{
    c == '"' || c == '\u{201c}' || c == '\u{201d}' || c == '\u{2018}'
}

fn is_closer(open: char, c: char) -> (r: bool)
    ensures
        r == closes(open, c),
{
    if open == '"' {
        c == '"'
    } else if open == '\u{201c}' {
        c == '\u{201d}' || c == '\u{201c}' || c == '"'
    } else if open == '\u{201d}' {
        c == '\u{201d}' || c == '"'
    } else if open == '\u{2018}' {
        c == '\u{2019}' || c == '\u{2018}'
    } else {
        false
    }
}

/// Scans a quoted string starting at `pos`. Quoted strings may span lines.
pub fn scan_quoted(src: &str, pos: usize) -> (r: QuoteScan)
    ensures
        quote_scan_ok(src.spec_bytes(), pos as int, r),
{
    let cur = Cursor::new(src, pos);
    let open = match cur.peek() {
        Some(c) => c,
        None => return QuoteScan::NotQuote,
    };
    if !is_quote_start(open) {
        return QuoteScan::NotQuote;
    }
    let rest = cur.rest();
    let cs = chars_of(rest);
    let len = src.as_bytes().len();
    let ghost b = src.spec_bytes();
    let ghost body = cs@.drop_first();
    proof {
        lemma_valid(src);
        crate::parse::cursor::lemma_rest_chars(b, pos as int);
        // encode(cs) is the rest of the source, so it ends at `len`.
        assert(encode_utf8(cs@).len() + pos == len) by {
            assert(0 <= pos <= b.len());
        }
        lemma_encode_concat(seq![open], body);
        assert(seq![open] + body =~= cs@);
        assert(seq![open].drop_first() =~= Seq::<char>::empty());
    }
    let content_start = pos + utf8_len(open);
    let mut i: usize = 1;
    let mut off = content_start;
    while i < cs.len()
        invariant
            1 <= i <= cs@.len(),
            cs@ == rest_chars(src.spec_bytes(), pos as int),
            cs@.len() > 0,
            cs@[0] == open,
            body == cs@.drop_first(),
            content_start == pos + encode_scalar(open as u32).len(),
            off == content_start + encode_utf8(body.take(i - 1)).len(),
            encode_utf8(body).len() + content_start == len,
            first_closer(body, open, i - 1) == first_closer(body, open, 0),
        decreases cs@.len() - i,
    {
        let c = cs[i];
        proof {
            assert(body[i - 1] == c);
            lemma_encode_push(body.take(i - 1), c);
            assert(body.take(i - 1).push(c) =~= body.take(i as int));
            lemma_encode_concat(body.take(i as int), body.skip(i as int));
            assert(body.take(i as int) + body.skip(i as int) =~= body);
        }
        if is_closer(open, c) {
            let content_end = off;
            let end = off + utf8_len(c);
            let mut typographic: Vec<(usize, usize)> = Vec::new();
            if open != '"' {
                typographic.push((pos, content_start));
            }
            if c != '"' {
                typographic.push((content_end, end));
            }
            proof {
                assert(typographic@ =~= typographic_ranges(
                    pos as int,
                    open,
                    c,
                    content_start as int,
                    content_end as int,
                    end as int,
                ));
            }
            return QuoteScan::Found(Quoted { content_start, content_end, end, typographic });
        }
        off = off + utf8_len(c);
        i += 1;
    }
    QuoteScan::Unterminated { typographic: open != '"' }
}

// ---------------------------------------------------------------------------------------
// Quoting labels
// ---------------------------------------------------------------------------------------

/// A character Mermaid rejects inside an unquoted node label.
pub open spec fn needs_quote_char(c: char) -> bool {
    c == '(' || c == ')' || c == '[' || c == ']' || c == '{' || c == '}' || c == ':'
}

/// Whether an unquoted label needs `R001`: Mermaid rejects `()`, `[]`, `{}` and `:`
/// inside an unquoted node label.
pub fn needs_quoting(raw: &str) -> (r: bool)
    ensures
        r == exists|i: int| 0 <= i < raw@.len() && needs_quote_char(raw@[i]),
{
    let cs = chars_of(raw);
    let mut i: usize = 0;
    while i < cs.len()
        invariant
            cs@ == raw@,
            i <= cs@.len(),
            forall|k: int| 0 <= k < i ==> !needs_quote_char(cs@[k]),
        decreases cs@.len() - i,
    {
        let c = cs[i];
        if c == '(' || c == ')' || c == '[' || c == ']' || c == '{' || c == '}' || c == ':' {
            return true;
        }
        i += 1;
    }
    false
}

/// The body of a quoted label: every `"` written as `#quot;`.
pub open spec fn quote_body(cs: Seq<char>) -> Seq<char>
    decreases cs.len(),
{
    if cs.len() == 0 {
        Seq::<char>::empty()
    } else {
        quote_body(cs.drop_last()) + if cs.last() == '"' {
            "#quot;"@
        } else {
            seq![cs.last()]
        }
    }
}

/// The `R001` replacement for an unquoted label: the trimmed text in double quotes,
/// with any `"` written as the entity code `#quot;`.
pub fn quote_label(raw: &str) -> (r: String)
    ensures
        r@ == seq!['"'] + quote_body(trim_ws(raw@)) + seq!['"'],
{
    let cs = chars_of(raw);
    let (a, b) = trim_bounds(&cs, 0, cs.len());
    let ghost t = cs@.subrange(a as int, b as int);
    proof {
        assert(cs@.subrange(0, cs@.len() as int) =~= cs@);
    }
    let mut s = String::new();
    push_char(&mut s, '"');
    let mut i = a;
    while i < b
        invariant
            a <= i <= b <= cs@.len(),
            t == cs@.subrange(a as int, b as int),
            s@ == seq!['"'] + quote_body(t.take(i - a)),
        decreases b - i,
    {
        let c = cs[i];
        if c == '"' {
            push_str(&mut s, "#quot;");
        } else {
            push_char(&mut s, c);
        }
        proof {
            assert(t.take(i + 1 - a).drop_last() =~= t.take(i - a));
            assert(t.take(i + 1 - a).last() == c);
            assert(s@ =~= seq!['"'] + quote_body(t.take(i + 1 - a)));
        }
        i += 1;
    }
    push_char(&mut s, '"');
    proof {
        assert(t.take(b - a) =~= t);
    }
    s
}

// ---------------------------------------------------------------------------------------
// Line breaks
// ---------------------------------------------------------------------------------------

/// End of the run of spaces starting at `j`.
pub open spec fn space_end(cs: Seq<char>, j: int) -> int
    decreases cs.len() - j,
{
    if 0 <= j < cs.len() && cs[j] == ' ' {
        space_end(cs, j + 1)
    } else {
        j
    }
}

/// End of a `<br>`, `<br/>` or `<br />` (any case) starting at `i`, if one does.
pub open spec fn br_end(cs: Seq<char>, i: int) -> int {
    if 0 <= i && i + 2 < cs.len() && cs[i] == '<' && lower_char(cs[i + 1]) == 'b' && lower_char(
        cs[i + 2],
    ) == 'r' {
        let j = space_end(cs, i + 3);
        let j2 = if j < cs.len() && cs[j] == '/' {
            j + 1
        } else {
            j
        };
        if j2 < cs.len() && cs[j2] == '>' {
            j2 + 1
        } else {
            -1
        }
    } else {
        -1
    }
}

proof fn lemma_space_end(cs: Seq<char>, j: int)
    requires
        0 <= j <= cs.len(),
    ensures
        j <= space_end(cs, j) <= cs.len(),
    decreases cs.len() - j,
{
    if j < cs.len() && cs[j] == ' ' {
        lemma_space_end(cs, j + 1);
    }
}

/// `cs` from `i` on with every `<br>` variant replaced by a line feed.
pub open spec fn norm_br(cs: Seq<char>, i: int) -> Seq<char>
    decreases cs.len() - i,
{
    if i < 0 || i >= cs.len() {
        Seq::<char>::empty()
    } else if br_end(cs, i) > i {
        seq!['\n'] + norm_br(cs, br_end(cs, i))
    } else {
        seq![cs[i]] + norm_br(cs, i + 1)
    }
}

/// Rewrites every `<br>` variant (`<br/>`, `<br />`, `<BR>`) in `v[lo..hi]` to a `\n`.
fn normalise_br(v: &Vec<char>, lo: usize, hi: usize) -> (r: Vec<char>)
    requires
        lo <= hi <= v@.len(),
    ensures
        r@ == norm_br(v@.subrange(lo as int, hi as int), 0),
{
    let mut w: Vec<char> = Vec::new();
    let mut k = lo;
    while k < hi
        invariant
            lo <= k <= hi <= v@.len(),
            w@ == v@.subrange(lo as int, k as int),
        decreases hi - k,
    {
        w.push(v[k]);
        k += 1;
        assert(w@ =~= v@.subrange(lo as int, k as int));
    }
    let n = w.len();
    let mut out: Vec<char> = Vec::new();
    let mut i: usize = 0;
    while i < n
        invariant
            n == w@.len(),
            i <= n,
            norm_br(w@, 0) == out@ + norm_br(w@, i as int),
        decreases n - i,
    {
        let mut matched = false;
        if n - i > 2 && w[i] == '<' && (w[i + 1] == 'b' || w[i + 1] == 'B') && (w[i + 2] == 'r'
            || w[i + 2] == 'R') {
            let mut j = i + 3;
            while j < n && w[j] == ' '
                invariant
                    i + 3 <= j <= n,
                    n == w@.len(),
                    space_end(w@, j as int) == space_end(w@, i + 3),
                decreases n - j,
            {
                j += 1;
            }
            if j < n && w[j] == '/' {
                j += 1;
            }
            if j < n && w[j] == '>' {
                out.push('\n');
                proof {
                    assert(br_end(w@, i as int) == j + 1);
                    assert(out@ + norm_br(w@, j + 1) =~= out@.drop_last() + norm_br(w@, i as int));
                }
                i = j + 1;
                matched = true;
            } else {
                proof {
                    assert(br_end(w@, i as int) == -1);
                }
            }
        } else {
            proof {
                assert(br_end(w@, i as int) == -1);
            }
        }
        if !matched {
            proof {
                assert(norm_br(w@, i as int) == seq![w@[i as int]] + norm_br(w@, i + 1));
            }
            out.push(w[i]);
            proof {
                assert(out@ + norm_br(w@, i + 1) =~= out@.drop_last() + norm_br(w@, i as int));
            }
            i += 1;
        }
    }
    out
}

// ---------------------------------------------------------------------------------------
// Entity codes
// ---------------------------------------------------------------------------------------

/// Named entity codes Mermaid labels commonly use (`#name;`), sorted by name.
pub open spec fn named_table() -> Seq<(&'static str, char)> {
    seq![
        ("amp", '&'),
        ("apos", '\''),
        ("bull", '\u{2022}'),
        ("cent", '\u{a2}'),
        ("copy", '\u{a9}'),
        ("darr", '\u{2193}'),
        ("deg", '\u{b0}'),
        ("divide", '\u{f7}'),
        ("euro", '\u{20ac}'),
        ("ge", '\u{2265}'),
        ("gt", '>'),
        ("harr", '\u{2194}'),
        ("hearts", '\u{2665}'),
        ("hellip", '\u{2026}'),
        ("infin", '\u{221e}'),
        ("laquo", '\u{ab}'),
        ("larr", '\u{2190}'),
        ("le", '\u{2264}'),
        ("lt", '<'),
        ("mdash", '\u{2014}'),
        ("middot", '\u{b7}'),
        ("nbsp", '\u{a0}'),
        ("ndash", '\u{2013}'),
        ("ne", '\u{2260}'),
        ("para", '\u{b6}'),
        ("plusmn", '\u{b1}'),
        ("pound", '\u{a3}'),
        ("quot", '"'),
        ("raquo", '\u{bb}'),
        ("rarr", '\u{2192}'),
        ("reg", '\u{ae}'),
        ("sect", '\u{a7}'),
        ("times", '\u{d7}'),
        ("trade", '\u{2122}'),
        ("uarr", '\u{2191}'),
        ("yen", '\u{a5}')
    ]
}

/// No entry of the named table is a control character.
proof fn lemma_named_table_not_control()
    ensures
        forall|k: int|
            0 <= k < named_table().len() ==> !is_control(#[trigger] named_table()[k].1),
{
    let t = named_table();
    assert(t.len() == 36);
    assert forall|k: int| 0 <= k < t.len() implies !is_control(#[trigger] t[k].1) by {
        if k < 12 {
            if k == 0 {} else if k == 1 {} else if k == 2 {} else if k == 3 {} else if k == 4 {}
            else if k == 5 {} else if k == 6 {} else if k == 7 {} else if k == 8 {} else if k == 9 {}
            else if k == 10 {} else {}
        } else if k < 24 {
            if k == 12 {} else if k == 13 {} else if k == 14 {} else if k == 15 {} else if k == 16 {}
            else if k == 17 {} else if k == 18 {} else if k == 19 {} else if k == 20 {}
            else if k == 21 {} else if k == 22 {} else {}
        } else {
            if k == 24 {} else if k == 25 {} else if k == 26 {} else if k == 27 {} else if k == 28 {}
            else if k == 29 {} else if k == 30 {} else if k == 31 {} else if k == 32 {}
            else if k == 33 {} else if k == 34 {} else {}
        }
    }
}

/// A table lookup gives back a character of the table.
proof fn lemma_lookup_in_table(t: Seq<(&'static str, char)>, body: Seq<char>, i: int)
    ensures
        lookup(t, body, i) matches Some(c) ==> exists|k: int| 0 <= k < t.len() && #[trigger] t[k].1 == c,
    decreases t.len() - i,
{
    if 0 <= i < t.len() && t[i].0@ != body {
        lemma_lookup_in_table(t, body, i + 1);
    }
}

/// No entity code decodes to a control character.
pub proof fn lemma_entity_is_not_control(body: Seq<char>)
    ensures
        entity(body) matches Some(c) ==> !is_control(c),
{
    lemma_named_table_not_control();
    lemma_lookup_in_table(named_table(), body, 0);
}

/// Decoding entity codes never writes a line break, so a line of a label stays one
/// line: the separator the text stage splits on cannot be forged by a code.
pub proof fn lemma_decoding_keeps_lines(cs: Seq<char>, i: int)
    requires
        forall|k: int| 0 <= k < cs.len() ==> cs[k] != '\n',
    ensures
        forall|k: int| 0 <= k < decoded_from(cs, i).len() ==> decoded_from(cs, i)[k] != '\n',
    decreases cs.len() - i,
{
    if 0 <= i < cs.len() {
        let h = index_from(cs, '#', i);
        lemma_index_from(cs, '#', i);
        if h < cs.len() {
            let j = index_from(cs, ';', h + 1);
            lemma_index_from(cs, ';', h + 1);
            let d = decoded_from(cs, i);
            if j < cs.len() && j - (h + 1) <= 10 && entity(cs.subrange(h + 1, j)) is Some {
                lemma_decoding_keeps_lines(cs, j + 1);
                lemma_entity_is_not_control(cs.subrange(h + 1, j));
                let a = cs.subrange(i, h);
                let e = entity(cs.subrange(h + 1, j))->0;
                let r = decoded_from(cs, j + 1);
                assert(d == a + seq![e] + r);
                assert forall|k: int| 0 <= k < d.len() implies d[k] != '\n' by {
                    if k < a.len() {
                        assert(d[k] == cs[i + k]);
                    } else if k == a.len() {
                        assert(d[k] == e);
                    } else {
                        assert(d[k] == r[k - a.len() - 1]);
                    }
                }
            } else {
                lemma_decoding_keeps_lines(cs, h + 1);
                let a = cs.subrange(i, h);
                let r = decoded_from(cs, h + 1);
                assert(d == a + seq!['#'] + r);
                assert forall|k: int| 0 <= k < d.len() implies d[k] != '\n' by {
                    if k < a.len() {
                        assert(d[k] == cs[i + k]);
                    } else if k == a.len() {
                    } else {
                        assert(d[k] == r[k - a.len() - 1]);
                    }
                }
            }
        }
    }
}

/// The named entity codes, sorted by name.
pub fn named_entities() -> (v: Vec<(&'static str, char)>)
    ensures
        v@ == named_table(),
{
    let mut v: Vec<(&'static str, char)> = Vec::new();
    v.push(("amp", '&'));
    v.push(("apos", '\''));
    v.push(("bull", '\u{2022}'));
    v.push(("cent", '\u{a2}'));
    v.push(("copy", '\u{a9}'));
    v.push(("darr", '\u{2193}'));
    v.push(("deg", '\u{b0}'));
    v.push(("divide", '\u{f7}'));
    v.push(("euro", '\u{20ac}'));
    v.push(("ge", '\u{2265}'));
    v.push(("gt", '>'));
    v.push(("harr", '\u{2194}'));
    v.push(("hearts", '\u{2665}'));
    v.push(("hellip", '\u{2026}'));
    v.push(("infin", '\u{221e}'));
    v.push(("laquo", '\u{ab}'));
    v.push(("larr", '\u{2190}'));
    v.push(("le", '\u{2264}'));
    v.push(("lt", '<'));
    v.push(("mdash", '\u{2014}'));
    v.push(("middot", '\u{b7}'));
    v.push(("nbsp", '\u{a0}'));
    v.push(("ndash", '\u{2013}'));
    v.push(("ne", '\u{2260}'));
    v.push(("para", '\u{b6}'));
    v.push(("plusmn", '\u{b1}'));
    v.push(("pound", '\u{a3}'));
    v.push(("quot", '"'));
    v.push(("raquo", '\u{bb}'));
    v.push(("rarr", '\u{2192}'));
    v.push(("reg", '\u{ae}'));
    v.push(("sect", '\u{a7}'));
    v.push(("times", '\u{d7}'));
    v.push(("trade", '\u{2122}'));
    v.push(("uarr", '\u{2191}'));
    v.push(("yen", '\u{a5}'));
    v
}

/// The first entry of `t` from `i` on named `t[k]`'s name is `t[k]` when no entry
/// between shares its name.
proof fn lemma_lookup_first(t: Seq<(&'static str, char)>, k: int, i: int)
    requires
        0 <= i <= k < t.len(),
        forall|j: int| i <= j < k ==> t[j].0@ != t[k].0@,
    ensures
        lookup(t, t[k].0@, i) == Some(t[k].1),
    decreases k - i,
{
    if i < k {
        lemma_lookup_first(t, k, i + 1);
    }
}

/// Every named entity decodes to its HTML character, and no two names decode to the same
/// character.
pub proof fn lemma_named_entities_decode()
    ensures
        lookup(named_table(), "amp"@, 0) == Some('&'),
        lookup(named_table(), "apos"@, 0) == Some('\''),
        lookup(named_table(), "bull"@, 0) == Some('\u{2022}'),
        lookup(named_table(), "cent"@, 0) == Some('\u{a2}'),
        lookup(named_table(), "copy"@, 0) == Some('\u{a9}'),
        lookup(named_table(), "darr"@, 0) == Some('\u{2193}'),
        lookup(named_table(), "deg"@, 0) == Some('\u{b0}'),
        lookup(named_table(), "divide"@, 0) == Some('\u{f7}'),
        lookup(named_table(), "euro"@, 0) == Some('\u{20ac}'),
        lookup(named_table(), "ge"@, 0) == Some('\u{2265}'),
        lookup(named_table(), "gt"@, 0) == Some('>'),
        lookup(named_table(), "harr"@, 0) == Some('\u{2194}'),
        lookup(named_table(), "hearts"@, 0) == Some('\u{2665}'),
        lookup(named_table(), "hellip"@, 0) == Some('\u{2026}'),
        lookup(named_table(), "infin"@, 0) == Some('\u{221e}'),
        lookup(named_table(), "laquo"@, 0) == Some('\u{ab}'),
        lookup(named_table(), "larr"@, 0) == Some('\u{2190}'),
        lookup(named_table(), "le"@, 0) == Some('\u{2264}'),
        lookup(named_table(), "lt"@, 0) == Some('<'),
        lookup(named_table(), "mdash"@, 0) == Some('\u{2014}'),
        lookup(named_table(), "middot"@, 0) == Some('\u{b7}'),
        lookup(named_table(), "nbsp"@, 0) == Some('\u{a0}'),
        lookup(named_table(), "ndash"@, 0) == Some('\u{2013}'),
        lookup(named_table(), "ne"@, 0) == Some('\u{2260}'),
        lookup(named_table(), "para"@, 0) == Some('\u{b6}'),
        lookup(named_table(), "plusmn"@, 0) == Some('\u{b1}'),
        lookup(named_table(), "pound"@, 0) == Some('\u{a3}'),
        lookup(named_table(), "quot"@, 0) == Some('"'),
        lookup(named_table(), "raquo"@, 0) == Some('\u{bb}'),
        lookup(named_table(), "rarr"@, 0) == Some('\u{2192}'),
        lookup(named_table(), "reg"@, 0) == Some('\u{ae}'),
        lookup(named_table(), "sect"@, 0) == Some('\u{a7}'),
        lookup(named_table(), "times"@, 0) == Some('\u{d7}'),
        lookup(named_table(), "trade"@, 0) == Some('\u{2122}'),
        lookup(named_table(), "uarr"@, 0) == Some('\u{2191}'),
        lookup(named_table(), "yen"@, 0) == Some('\u{a5}'),
        forall|i: int, j: int|
            0 <= i < j < named_table().len() ==> named_table()[i].1 != named_table()[j].1,
{
    reveal_strlit("amp");
    reveal_strlit("apos");
    reveal_strlit("bull");
    reveal_strlit("cent");
    reveal_strlit("copy");
    reveal_strlit("darr");
    reveal_strlit("deg");
    reveal_strlit("divide");
    reveal_strlit("euro");
    reveal_strlit("ge");
    reveal_strlit("gt");
    reveal_strlit("harr");
    reveal_strlit("hearts");
    reveal_strlit("hellip");
    reveal_strlit("infin");
    reveal_strlit("laquo");
    reveal_strlit("larr");
    reveal_strlit("le");
    reveal_strlit("lt");
    reveal_strlit("mdash");
    reveal_strlit("middot");
    reveal_strlit("nbsp");
    reveal_strlit("ndash");
    reveal_strlit("ne");
    reveal_strlit("para");
    reveal_strlit("plusmn");
    reveal_strlit("pound");
    reveal_strlit("quot");
    reveal_strlit("raquo");
    reveal_strlit("rarr");
    reveal_strlit("reg");
    reveal_strlit("sect");
    reveal_strlit("times");
    reveal_strlit("trade");
    reveal_strlit("uarr");
    reveal_strlit("yen");
    let t = named_table();
    assert forall|i: int, j: int| 0 <= i < j < t.len() implies t[i].0@ != t[j].0@ by {
        if t[i].0@ == t[j].0@ {
            assert(t[i].0@.len() == t[j].0@.len());
            assert(t[i].0@[0] == t[j].0@[0]);
            assert(t[i].0@[1] == t[j].0@[1]);
            assert(t[i].0@[t[i].0@.len() - 1] == t[j].0@[t[j].0@.len() - 1]);
        }
    }
    assert forall|k: int| 0 <= k < t.len() implies lookup(t, t[k].0@, 0) == Some(t[k].1) by {
        lemma_lookup_first(t, k, 0);
    }
    assert(t[0].0@ == "amp"@);
    assert(t[1].0@ == "apos"@);
    assert(t[2].0@ == "bull"@);
    assert(t[3].0@ == "cent"@);
    assert(t[4].0@ == "copy"@);
    assert(t[5].0@ == "darr"@);
    assert(t[6].0@ == "deg"@);
    assert(t[7].0@ == "divide"@);
    assert(t[8].0@ == "euro"@);
    assert(t[9].0@ == "ge"@);
    assert(t[10].0@ == "gt"@);
    assert(t[11].0@ == "harr"@);
    assert(t[12].0@ == "hearts"@);
    assert(t[13].0@ == "hellip"@);
    assert(t[14].0@ == "infin"@);
    assert(t[15].0@ == "laquo"@);
    assert(t[16].0@ == "larr"@);
    assert(t[17].0@ == "le"@);
    assert(t[18].0@ == "lt"@);
    assert(t[19].0@ == "mdash"@);
    assert(t[20].0@ == "middot"@);
    assert(t[21].0@ == "nbsp"@);
    assert(t[22].0@ == "ndash"@);
    assert(t[23].0@ == "ne"@);
    assert(t[24].0@ == "para"@);
    assert(t[25].0@ == "plusmn"@);
    assert(t[26].0@ == "pound"@);
    assert(t[27].0@ == "quot"@);
    assert(t[28].0@ == "raquo"@);
    assert(t[29].0@ == "rarr"@);
    assert(t[30].0@ == "reg"@);
    assert(t[31].0@ == "sect"@);
    assert(t[32].0@ == "times"@);
    assert(t[33].0@ == "trade"@);
    assert(t[34].0@ == "uarr"@);
    assert(t[35].0@ == "yen"@);
}

/// The character of the first table entry named `body`.
pub open spec fn lookup(t: Seq<(&'static str, char)>, body: Seq<char>, i: int) -> Option<char>
    decreases t.len() - i,
{
    if i < 0 || i >= t.len() {
        None
    } else if t[i].0@ == body {
        Some(t[i].1)
    } else {
        lookup(t, body, i + 1)
    }
}

pub open spec fn is_hex_char(c: char) -> bool {
    ('0' <= c && c <= '9') || ('a' <= c && c <= 'f') || ('A' <= c && c <= 'F')
}

pub open spec fn is_dec_char(c: char) -> bool {
    '0' <= c && c <= '9'
}

pub open spec fn hex_digit_value(c: char) -> nat {
    if '0' <= c && c <= '9' {
        (c as u32 - '0' as u32) as nat
    } else if 'a' <= c && c <= 'f' {
        (c as u32 - 'a' as u32 + 10) as nat
    } else {
        (c as u32 - 'A' as u32 + 10) as nat
    }
}

/// The value of a string of hexadecimal digits.
pub open spec fn hex_value(cs: Seq<char>) -> nat
    decreases cs.len(),
{
    if cs.len() == 0 {
        0
    } else {
        hex_value(cs.drop_last()) * 16 + hex_digit_value(cs.last())
    }
}

/// The value of a string of decimal digits.
pub open spec fn dec_value(cs: Seq<char>) -> nat
    decreases cs.len(),
{
    if cs.len() == 0 {
        0
    } else {
        dec_value(cs.drop_last()) * 10 + (cs.last() as u32 - '0' as u32) as nat
    }
}

/// The character with code point `v`, unless it is not a scalar value or is a control.
pub open spec fn code_char(v: nat) -> Option<char> {
    if v <= u32::MAX && is_scalar(v as u32) && !is_control((v as u32) as char) {
        Some((v as u32) as char)
    } else {
        None
    }
}

/// Decodes one entity body (between `#` and `;`), or `None` to keep it literal.
pub open spec fn entity(body: Seq<char>) -> Option<char> {
    if body.len() > 0 && (body[0] == 'x' || body[0] == 'X') {
        let hex = body.drop_first();
        if hex.len() == 0 || hex.len() > 6 || !(forall|k: int|
            0 <= k < hex.len() ==> is_hex_char(#[trigger] hex[k])) {
            None
        } else {
            code_char(hex_value(hex))
        }
    } else if body.len() > 0 && (forall|k: int| 0 <= k < body.len() ==> is_dec_char(#[trigger] body[k])) {
        if body.len() > 7 {
            None
        } else {
            code_char(dec_value(body))
        }
    } else {
        lookup(named_table(), body, 0)
    }
}

/// `cs` from `i` on with its entity codes decoded.
pub open spec fn decoded_from(cs: Seq<char>, i: int) -> Seq<char>
    decreases cs.len() - i,
{
    if i < 0 || i >= cs.len() {
        Seq::<char>::empty()
    } else {
        let h = index_from(cs, '#', i);
        proof {
            lemma_index_from(cs, '#', i);
        }
        if h >= cs.len() {
            cs.subrange(i, cs.len() as int)
        } else {
            let j = index_from(cs, ';', h + 1);
            proof {
                lemma_index_from(cs, ';', h + 1);
            }
            if j < cs.len() && j - (h + 1) <= 10 && entity(cs.subrange(h + 1, j)) is Some {
                cs.subrange(i, h) + seq![entity(cs.subrange(h + 1, j))->0] + decoded_from(
                    cs,
                    j + 1,
                )
            } else {
                cs.subrange(i, h) + seq!['#'] + decoded_from(cs, h + 1)
            }
        }
    }
}

/// The value of the digits `v[lo..hi]` in base `radix`.
pub(crate) fn digits_value(v: &Vec<char>, lo: usize, hi: usize, hex: bool) -> (r: u32)
    requires
        lo <= hi <= v@.len(),
        hex ==> hi - lo <= 6,
        !hex ==> hi - lo <= 7,
        forall|k: int|
            lo <= k < hi ==> if hex {
                is_hex_char(v@[k])
            } else {
                is_dec_char(v@[k])
            },
    ensures
        hex ==> r == hex_value(v@.subrange(lo as int, hi as int)),
        !hex ==> r == dec_value(v@.subrange(lo as int, hi as int)),
{
    let mut acc: u32 = 0;
    let mut i = lo;
    while i < hi
        invariant
            lo <= i <= hi <= v@.len(),
            hex ==> hi - lo <= 6,
            !hex ==> hi - lo <= 7,
            forall|k: int|
                lo <= k < hi ==> if hex {
                    is_hex_char(v@[k])
                } else {
                    is_dec_char(v@[k])
                },
            hex ==> acc == hex_value(v@.subrange(lo as int, i as int)),
            !hex ==> acc == dec_value(v@.subrange(lo as int, i as int)),
            hex ==> acc < pow16(i - lo),
            !hex ==> acc < pow10(i - lo),
        decreases hi - i,
    {
        let c = v[i];
        let u = c as u32;
        let d: u32 = if '0' <= c && c <= '9' {
            u - 48
        } else if 'a' <= c && c <= 'f' {
            u - 87
        } else {
            u - 55
        };
        proof {
            assert(v@.subrange(lo as int, i + 1).drop_last() =~= v@.subrange(lo as int, i as int));
            assert(v@.subrange(lo as int, i + 1).last() == c);
        }
        if hex {
            acc = acc * 16 + d;
        } else {
            acc = acc * 10 + d;
        }
        i += 1;
    }
    acc
}

pub open spec fn pow16(n: int) -> int {
    if n <= 0 {
        1
    } else if n == 1 {
        16
    } else if n == 2 {
        256
    } else if n == 3 {
        4096
    } else if n == 4 {
        65536
    } else if n == 5 {
        1048576
    } else {
        16777216
    }
}

pub open spec fn pow10(n: int) -> int {
    if n <= 0 {
        1
    } else if n == 1 {
        10
    } else if n == 2 {
        100
    } else if n == 3 {
        1000
    } else if n == 4 {
        10000
    } else if n == 5 {
        100000
    } else if n == 6 {
        1000000
    } else {
        10000000
    }
}

/// The named entity `v[lo..hi]`, if there is one.
fn named_entity(v: &Vec<char>, lo: usize, hi: usize) -> (r: Option<char>)
    requires
        lo <= hi <= v@.len(),
    ensures
        r == lookup(named_table(), v@.subrange(lo as int, hi as int), 0),
{
    let t = named_entities();
    let mut i: usize = 0;
    while i < t.len()
        invariant
            t@ == named_table(),
            lo <= hi <= v@.len(),
            i <= t@.len(),
            lookup(t@, v@.subrange(lo as int, hi as int), i as int) == lookup(
                t@,
                v@.subrange(lo as int, hi as int),
                0,
            ),
        decreases t@.len() - i,
    {
        let (name, c) = t[i];
        if range_eq(v, lo, hi, name) {
            return Some(c);
        }
        i += 1;
    }
    None
}

/// The character of the code point `code`, unless it is a control character.
fn char_of_code(code: u32) -> (r: Option<char>)
    ensures
        r == code_char(code as nat),
{
    match char_from_u32(code) {
        Some(c) => {
            let u = c as u32;
            proof {
                vstd::utf8::char_u32_cast(c, code);
            }
            if u <= 0x1f || (0x7f <= u && u <= 0x9f) {
                None
            } else {
                Some(c)
            }
        },
        None => None,
    }
}

/// Decodes the entity body `v[lo..hi]` (between `#` and `;`), or `None` to keep it
/// literal. Control characters, surrogates and out-of-range code points stay literal.
fn decode_entity(v: &Vec<char>, lo: usize, hi: usize) -> (r: Option<char>)
    requires
        lo <= hi <= v@.len(),
    ensures
        r == entity(v@.subrange(lo as int, hi as int)),
{
    let ghost body = v@.subrange(lo as int, hi as int);
    if hi > lo && (v[lo] == 'x' || v[lo] == 'X') {
        let ghost hex = body.drop_first();
        assert(hex =~= v@.subrange(lo + 1, hi as int));
        assert(body[0] == v@[lo as int]);
        let n = hi - lo - 1;
        if n == 0 || n > 6 {
            return None;
        }
        let mut i = lo + 1;
        while i < hi
            invariant
                lo + 1 <= i <= hi <= v@.len(),
                hex == v@.subrange(lo + 1, hi as int),
                body == v@.subrange(lo as int, hi as int),
                hex == body.drop_first(),
                body[0] == 'x' || body[0] == 'X',
                1 <= hex.len() <= 6,
                forall|k: int| lo + 1 <= k < i ==> is_hex_char(v@[k]),
            decreases hi - i,
        {
            let c = v[i];
            if !(('0' <= c && c <= '9') || ('a' <= c && c <= 'f') || ('A' <= c && c <= 'F')) {
                assert(!is_hex_char(hex[i - lo - 1]));
                return None;
            }
            i += 1;
        }
        assert forall|k: int| 0 <= k < hex.len() implies is_hex_char(#[trigger] hex[k]) by {
            assert(hex[k] == v@[lo + 1 + k]);
        }
        let code = digits_value(v, lo + 1, hi, true);
        return char_of_code(code);
    }
    let mut all_digits = hi > lo;
    let mut i = lo;
    while i < hi
        invariant
            lo <= i <= hi <= v@.len(),
            all_digits == (hi > lo && forall|k: int| lo <= k < i ==> is_dec_char(v@[k])),
        decreases hi - i,
    {
        let c = v[i];
        if !('0' <= c && c <= '9') {
            all_digits = false;
        }
        i += 1;
    }
    proof {
        if all_digits {
            assert forall|k: int| 0 <= k < body.len() implies is_dec_char(#[trigger] body[k]) by {
                assert(body[k] == v@[lo + k]);
            }
        } else if hi > lo {
            let k = choose|k: int| lo <= k < hi && !is_dec_char(v@[k]);
            assert(body[k - lo] == v@[k]);
        }
    }
    if all_digits {
        if hi - lo > 7 {
            return None;
        }
        let code = digits_value(v, lo, hi, false);
        return char_of_code(code);
    }
    named_entity(v, lo, hi)
}

/// Appends `v[lo..hi]` to `out`.
fn push_range(out: &mut String, v: &Vec<char>, lo: usize, hi: usize)
    requires
        lo <= hi <= v@.len(),
    ensures
        final(out)@ == old(out)@ + v@.subrange(lo as int, hi as int),
{
    let ghost start = out@;
    let mut k = lo;
    while k < hi
        invariant
            lo <= k <= hi <= v@.len(),
            out@ == start + v@.subrange(lo as int, k as int),
        decreases hi - k,
    {
        push_char(out, v[k]);
        k += 1;
        assert(out@ =~= start + v@.subrange(lo as int, k as int));
    }
}

/// The entity codes of `v` decoded.
fn decode_chars(v: &Vec<char>) -> (r: String)
    ensures
        r@ == decoded_from(v@, 0),
{
    let n = v.len();
    let mut out = String::new();
    let mut i: usize = 0;
    while i < n
        invariant
            n == v@.len(),
            i <= n,
            decoded_from(v@, 0) == out@ + decoded_from(v@, i as int),
        decreases n - i,
    {
        let mut h = i;
        while h < n && v[h] != '#'
            invariant
                i <= h <= n,
                n == v@.len(),
                index_from(v@, '#', h as int) == index_from(v@, '#', i as int),
            decreases n - h,
        {
            h += 1;
        }
        let ghost prev = out@;
        let ghost rest = decoded_from(v@, i as int);
        proof {
            lemma_index_from(v@, '#', i as int);
        }
        if h >= n {
            push_range(&mut out, v, i, n);
            proof {
                assert(rest == v@.subrange(i as int, n as int));
                assert(decoded_from(v@, n as int) =~= Seq::<char>::empty());
                assert(out@ + decoded_from(v@, n as int) =~= prev + rest);
            }
            i = n;
        } else {
            let limit = if n - (h + 1) < 11 {
                n
            } else {
                h + 12
            };
            let mut j = h + 1;
            while j < limit && v[j] != ';'
                invariant
                    h + 1 <= j <= limit <= n,
                    n == v@.len(),
                    index_from(v@, ';', j as int) == index_from(v@, ';', h + 1),
                decreases limit - j,
            {
                j += 1;
            }
            proof {
                lemma_index_from(v@, ';', h + 1);
                lemma_index_from(v@, ';', j as int);
            }
            let found = if j < limit {
                decode_entity(v, h + 1, j)
            } else {
                None
            };
            push_range(&mut out, v, i, h);
            match found {
                Some(c) => {
                    push_char(&mut out, c);
                    proof {
                        assert(rest == v@.subrange(i as int, h as int) + seq![c] + decoded_from(
                            v@,
                            j + 1,
                        ));
                        assert(out@ + decoded_from(v@, j + 1) =~= prev + rest);
                    }
                    i = j + 1;
                },
                None => {
                    push_char(&mut out, '#');
                    proof {
                        if j < limit {
                            assert(index_from(v@, ';', h + 1) == j);
                        } else {
                            assert(index_from(v@, ';', h + 1) >= n || index_from(v@, ';', h + 1)
                                - (h + 1) > 10);
                        }
                        assert(rest == v@.subrange(i as int, h as int) + seq!['#'] + decoded_from(
                            v@,
                            h + 1,
                        ));
                        assert(out@ + decoded_from(v@, h + 1) =~= prev + rest);
                    }
                    i = h + 1;
                },
            }
        }
    }
    proof {
        assert(decoded_from(v@, i as int) =~= Seq::<char>::empty());
        assert(out@ + decoded_from(v@, i as int) =~= out@);
    }
    out
}

/// Decodes the Mermaid entity codes (`#quot;`, `#35;`, `#x2665;`) in `s`. A code that
/// does not decode stays literal.
pub fn decode_entities(s: &str) -> (r: String)
    ensures
        r@ == decoded_from(s@, 0),
{
    let cs = chars_of(s);
    decode_chars(&cs)
}

// ---------------------------------------------------------------------------------------
// Cleaning
// ---------------------------------------------------------------------------------------

/// The lines of `cs` from `i` on, each trimmed and decoded, joined by line feeds.
pub open spec fn clean_lines(cs: Seq<char>, i: int) -> Seq<char>
    decreases cs.len() - i,
{
    let e = index_from(cs, '\n', i);
    proof {
        if 0 <= i <= cs.len() {
            lemma_index_from(cs, '\n', i);
        }
    }
    if i < 0 || i > cs.len() || e >= cs.len() {
        decoded_from(trim_ws(cs.subrange(i, cs.len() as int)), 0)
    } else {
        decoded_from(trim_ws(cs.subrange(i, e)), 0) + seq!['\n'] + clean_lines(cs, e + 1)
    }
}

/// The label text before line handling: trimmed, and a Markdown string's backticks
/// removed.
pub open spec fn unwrapped(raw: Seq<char>) -> Seq<char> {
    let t = trim_ws(raw);
    if t.len() >= 2 && t[0] == '`' && t.last() == '`' {
        trim_ws(t.subrange(1, t.len() - 1))
    } else {
        t
    }
}

/// Normalises label text for the model:
/// - a Markdown string (`` "`…`" ``) loses its backticks;
/// - `<br>`, `<br/>`, `<br />` in any case, and a newline inside a quoted label,
///   become a `\n`, with each line trimmed;
/// - Mermaid entity codes (`#quot;`, `#35;`, `#x2665;`) are decoded in each line.
///
/// The lines are split before the codes are decoded, so `#lt;br#gt;` stays text
/// instead of becoming a break. A code never decodes to a `\n`, because
/// `decode_entity` refuses control characters.
pub fn clean_label(raw: &str) -> (r: String)
    ensures
        r@ == clean_lines(norm_br(unwrapped(raw@), 0), 0),
{
    let cs = chars_of(raw);
    proof {
        assert(cs@.subrange(0, cs@.len() as int) =~= cs@);
    }
    let (mut a, mut b) = trim_bounds(&cs, 0, cs.len());
    let ghost t = cs@.subrange(a as int, b as int);
    if b - a >= 2 && cs[a] == '`' && cs[b - 1] == '`' {
        assert(cs@.subrange(a + 1, b - 1) =~= t.subrange(1, t.len() - 1));
        assert(t[0] == cs@[a as int] && t.last() == cs@[b - 1]);
        let (a2, b2) = trim_bounds(&cs, a + 1, b - 1);
        a = a2;
        b = b2;
    } else {
        proof {
            if t.len() >= 2 {
                assert(t[0] == cs@[a as int] && t.last() == cs@[b - 1]);
            }
        }
    }
    assert(cs@.subrange(a as int, b as int) == unwrapped(raw@));
    let w = normalise_br(&cs, a, b);
    let n = w.len();
    let mut out = String::new();
    let mut i: usize = 0;
    loop
        invariant
            n == w@.len(),
            w@ == norm_br(unwrapped(raw@), 0),
            i <= n,
            clean_lines(w@, 0) == out@ + clean_lines(w@, i as int),
        decreases n - i,
    {
        let mut e = i;
        while e < n && w[e] != '\n'
            invariant
                i <= e <= n,
                n == w@.len(),
                index_from(w@, '\n', e as int) == index_from(w@, '\n', i as int),
            decreases n - e,
        {
            e += 1;
        }
        proof {
            lemma_index_from(w@, '\n', i as int);
        }
        let (x, y) = trim_bounds(&w, i, e);
        let mut line: Vec<char> = Vec::new();
        let mut k = x;
        while k < y
            invariant
                x <= k <= y <= w@.len(),
                line@ == w@.subrange(x as int, k as int),
            decreases y - k,
        {
            line.push(w[k]);
            k += 1;
            assert(line@ =~= w@.subrange(x as int, k as int));
        }
        let d = decode_chars(&line);
        let ghost prev = out@;
        push_str(&mut out, d.as_str());
        if e >= n {
            proof {
                assert(clean_lines(w@, i as int) == d@);
            }
            return out;
        }
        push_char(&mut out, '\n');
        proof {
            assert(clean_lines(w@, i as int) == d@ + seq!['\n'] + clean_lines(w@, e + 1));
            assert(out@ + clean_lines(w@, e + 1) =~= prev + clean_lines(w@, i as int));
        }
        i = e + 1;
    }
}

// ---------------------------------------------------------------------------------------
// Truncation
// ---------------------------------------------------------------------------------------

/// Truncates `s` to at most `max` bytes at a character boundary; returns whether it cut.
pub fn truncate(s: &mut String, max: usize) -> (r: bool)
    ensures
        r == (encode_utf8(old(s)@).len() > max),
        !r ==> final(s)@ == old(s)@,
        r ==> encode_utf8(final(s)@) == encode_utf8(old(s)@).subrange(
            0,
            clamp_spec(encode_utf8(old(s)@), max as nat) as int,
        ),
{
    let len = s.as_str().as_bytes().len();
    if len <= max {
        return false;
    }
    let ghost b = encode_utf8(s@);
    let mut cut = max;
    while cut > 0 && !s.as_str().is_char_boundary(cut)
        invariant
            cut <= max < b.len(),
            b == encode_utf8(s@),
            clamp_spec(b, cut as nat) == clamp_spec(b, max as nat),
        decreases cut,
    {
        cut -= 1;
    }
    proof {
        is_char_boundary_start_end_of_seq(b);
    }
    string_truncate(s, cut);
    true
}

} // verus!
