//! Flowchart links: `-->`, `---`, `==>`, `-.->`, `~~~`, with start markers (`<`, `o`,
//! `x`), end markers (`>`, `o`, `x`), extra length, an inline label (`-- text -->`,
//! `-- "text" -->`) and a pipe label (`-->|text|`).
//!
//! A link's label comes back as the byte range of its raw text, with the ranges of any
//! typographic quote delimiters around it; the caller cleans the text and applies the
//! label length limit.

use vstd::prelude::*;
use vstd::string::StringSliceAdditionalSpecFns;
use vstd::utf8::*;

use crate::model::Stroke;
use crate::parse::cursor::rest_chars;
use crate::parse::label::{
    closes, first_closer, quote_scan_ok, quote_start, scan_quoted, typographic_ranges, QuoteScan,
};
use crate::svg::outline::Arrow;

verus! {

/// A link label: the byte range of its raw text, and the ranges of typographic quote
/// delimiters around it (`R003`).
pub struct LinkLabel {
    pub start: usize,
    pub end: usize,
    pub typographic: Vec<(usize, usize)>,
}

/// A link: its line, its end markers, its length (the ranks it spans, at least one) and
/// its label.
pub struct LinkTok {
    pub stroke: Stroke,
    pub start: Arrow,
    pub end: Arrow,
    pub min_len: u32,
    pub label: Option<LinkLabel>,
}

/// Why a link could not be read.
#[derive(Clone, Copy, Debug, PartialEq, Eq)]
pub enum LinkFail {
    /// An inline label with no end token on its line; reported from `at` to
    /// `text_start`.
    Unclosed { at: usize, text_start: usize, stroke: Stroke },
    /// A `|` label that is not closed on its line.
    Pipe { open: usize },
}

/// A label as plain values.
pub type LabelView = (int, int, Seq<(usize, usize)>);

/// A link as plain values: line, start, end, length, label.
pub type TokView = (Stroke, Arrow, Arrow, u32, Option<LabelView>);

pub open spec fn label_view(l: LinkLabel) -> LabelView {
    (l.start as int, l.end as int, l.typographic@)
}

pub open spec fn tok_view(t: LinkTok) -> TokView {
    (
        t.stroke,
        t.start,
        t.end,
        t.min_len,
        match t.label {
            Some(l) => Some(label_view(l)),
            None => None,
        },
    )
}

pub open spec fn link_view(r: Result<Option<(LinkTok, usize)>, LinkFail>) -> Result<
    Option<(TokView, int)>,
    LinkFail,
> {
    match r {
        Ok(Some((t, p))) => Ok(Some((tok_view(t), p as int))),
        Ok(None) => Ok(None),
        Err(e) => Err(e),
    }
}

// ---------------------------------------------------------------------------------------
// The grammar
// ---------------------------------------------------------------------------------------

/// Byte `i` of `b` is `c`.
pub open spec fn bt(b: Seq<u8>, i: int, c: u8) -> bool {
    0 <= i < b.len() && b[i] == c
}

/// How many bytes `c` follow from `i` on.
pub open spec fn run(b: Seq<u8>, i: int, c: u8) -> int
    decreases b.len() - i,
{
    if bt(b, i, c) {
        1 + run(b, i + 1, c)
    } else {
        0
    }
}

/// The end marker at `at`: `>`, `o` or `x`.
pub open spec fn head(b: Seq<u8>, at: int) -> Option<Arrow> {
    if bt(b, at, 0x3e) {
        Some(Arrow::Arrow)
    } else if bt(b, at, 0x6f) {
        Some(Arrow::Circle)
    } else if bt(b, at, 0x78) {
        Some(Arrow::Cross)
    } else {
        None
    }
}

pub open spec fn starts2(b: Seq<u8>, i: int, x: u8, y: u8) -> bool {
    bt(b, i, x) && bt(b, i + 1, y)
}

/// `--`, `==` or `-.` at `i`.
pub open spec fn line_start(b: Seq<u8>, i: int) -> bool {
    starts2(b, i, 0x2d, 0x2d) || starts2(b, i, 0x3d, 0x3d) || starts2(b, i, 0x2d, 0x2e)
}

/// A link starts at `at`: an optional `o` or `x` marker (only before a line), an
/// optional `<`, then `--`, `==`, `-.` or `~~~`.
pub open spec fn link_start_at(b: Seq<u8>, at: int) -> bool {
    let t = if (bt(b, at, 0x6f) || bt(b, at, 0x78)) && line_start(b, at + 1) {
        at + 1
    } else {
        at
    };
    let t2 = if bt(b, t, 0x3c) {
        t + 1
    } else {
        t
    };
    line_start(b, t2) || (starts2(b, t2, 0x7e, 0x7e) && bt(b, t2 + 2, 0x7e))
}

/// A length as stored: at least one, at most `u32::MAX`.
pub open spec fn min_len(k: int) -> u32 {
    if k > u32::MAX {
        u32::MAX
    } else if k < 1 {
        1
    } else {
        k as u32
    }
}

/// The end token of a labelled link of this line at `at`: where it ends, its end marker
/// and its length.
pub open spec fn end_at(b: Seq<u8>, stroke: Stroke, at: int) -> Option<(int, Arrow, int)> {
    if stroke is Dotted {
        let d = run(b, at, 0x2e);
        if d == 0 || !bt(b, at + d, 0x2d) {
            None
        } else {
            let h = head(b, at + d + 1);
            Some(
                (
                    at + d + 1 + if h is Some {
                        1int
                    } else {
                        0int
                    },
                    match h {
                        Some(a) => a,
                        None => Arrow::Plain,
                    },
                    d,
                ),
            )
        }
    } else {
        let ch: u8 = if stroke is Thick {
            0x3d
        } else {
            0x2d
        };
        let k = run(b, at, ch);
        if k < 2 {
            None
        } else {
            match head(b, at + k) {
                Some(h) => Some((at + k + 1, h, k - 1)),
                None => if k >= 3 {
                    Some((at + k, Arrow::Plain, k - 2))
                } else {
                    None
                },
            }
        }
    }
}

/// Past the spaces and tabs from `i`.
pub open spec fn skip_sp(b: Seq<u8>, i: int) -> int
    decreases b.len() - i,
{
    if bt(b, i, 0x20) || bt(b, i, 0x09) {
        skip_sp(b, i + 1)
    } else {
        i
    }
}

/// Past the spaces, tabs and carriage returns from `i`.
pub open spec fn skip_hws(b: Seq<u8>, i: int) -> int
    decreases b.len() - i,
{
    if bt(b, i, 0x20) || bt(b, i, 0x09) || bt(b, i, 0x0d) {
        skip_hws(b, i + 1)
    } else {
        i
    }
}

/// The quoted string at `pos`, when a closed one starts there: content start and end,
/// end, typographic delimiter ranges.
pub open spec fn quoted_found(b: Seq<u8>, pos: int) -> Option<(int, int, int, Seq<(usize, usize)>)> {
    let cs = rest_chars(b, pos);
    if cs.len() == 0 || !quote_start(cs[0]) {
        None
    } else {
        let open = cs[0];
        let body = cs.drop_first();
        let k = first_closer(body, open, 0);
        if k >= body.len() {
            None
        } else {
            let c0 = pos + encode_scalar(open as u32).len();
            let c1 = c0 + encode_utf8(body.take(k)).len();
            let e = c1 + encode_scalar(body[k] as u32).len();
            Some((c0, c1, e, typographic_ranges(pos, open, body[k], c0, c1, e)))
        }
    }
}

/// The first position from `j` on, before the end of the line, where an end token of
/// this line starts.
pub open spec fn first_end(b: Seq<u8>, stroke: Stroke, j: int) -> Option<int>
    decreases b.len() - j,
{
    if j < 0 || j >= b.len() || b[j] == 0x0a {
        None
    } else if end_at(b, stroke, j) is Some {
        Some(j)
    } else {
        first_end(b, stroke, j + 1)
    }
}

/// An inline-labelled link whose label text starts at `ts`: a quoted label directly
/// followed by an end token, else the text up to the first end token on the line.
pub open spec fn text_link(b: Seq<u8>, stroke: Stroke, start: Arrow, ts: int) -> Result<
    (TokView, int),
    LinkFail,
> {
    let q = skip_sp(b, ts);
    let quoted = match quoted_found(b, q) {
        Some((c0, c1, e, ty)) => match end_at(b, stroke, skip_sp(b, e)) {
            Some(en) => Some(((stroke, start, en.1, min_len(en.2), Some((c0, c1, ty))), en.0)),
            None => None,
        },
        None => None,
    };
    match quoted {
        Some(x) => Ok(x),
        None => match first_end(b, stroke, ts) {
            Some(j) => {
                let en = end_at(b, stroke, j)->0;
                Ok(((stroke, start, en.1, min_len(en.2), Some((ts, j, Seq::empty()))), en.0))
            },
            None => Err(
                LinkFail::Unclosed {
                    at: if ts >= 2 {
                        (ts - 2) as usize
                    } else {
                        0
                    },
                    text_start: ts as usize,
                    stroke,
                },
            ),
        },
    }
}

/// No line feed in `b[q..e]`.
pub open spec fn one_line(b: Seq<u8>, q: int, e: int) -> bool {
    forall|i: int| q <= i < e ==> !bt(b, i, 0x0a)
}

/// The first `|` or line feed from `j` on.
pub open spec fn bar_or_nl(b: Seq<u8>, j: int) -> Option<int>
    decreases b.len() - j,
{
    if j < 0 || j >= b.len() {
        None
    } else if b[j] == 0x7c || b[j] == 0x0a {
        Some(j)
    } else {
        bar_or_nl(b, j + 1)
    }
}

/// The `|…|` label opening at `open`: a quoted label directly followed by `|` on one
/// line, else the text up to the next `|` on the line.
pub open spec fn pipe_label(b: Seq<u8>, open: int) -> Result<(LabelView, int), LinkFail> {
    let cs = open + 1;
    let q = skip_sp(b, cs);
    let quoted = match quoted_found(b, q) {
        Some((c0, c1, e, ty)) => {
            let after = skip_sp(b, e);
            if bt(b, after, 0x7c) && one_line(b, q, e) {
                Some(((c0, c1, ty), after + 1))
            } else {
                None
            }
        },
        None => None,
    };
    match quoted {
        Some(x) => Ok(x),
        None => match bar_or_nl(b, cs) {
            Some(c) => if b[c] == 0x7c {
                Ok(((cs, c, Seq::empty()), c + 1))
            } else {
                Err(LinkFail::Pipe { open: open as usize })
            },
            None => Err(LinkFail::Pipe { open: open as usize }),
        },
    }
}

/// The start marker of a link at `s`, and where its line begins.
pub open spec fn link_head(b: Seq<u8>, s: int) -> (Arrow, int) {
    if bt(b, s, 0x3c) && (bt(b, s + 1, 0x2d) || bt(b, s + 1, 0x3d)) {
        (Arrow::Arrow, s + 1)
    } else if bt(b, s, 0x6f) && link_start_at(b, s) {
        (Arrow::Circle, s + 1)
    } else if bt(b, s, 0x78) && link_start_at(b, s) {
        (Arrow::Cross, s + 1)
    } else {
        (Arrow::Plain, s)
    }
}

pub open spec fn some_tok(r: Result<(TokView, int), LinkFail>) -> Result<Option<(TokView, int)>, LinkFail> {
    match r {
        Ok(x) => Ok(Some(x)),
        Err(e) => Err(e),
    }
}

/// The link at `s` before any pipe label.
pub open spec fn link_body(b: Seq<u8>, s: int) -> Result<Option<(TokView, int)>, LinkFail> {
    let (start, i) = link_head(b, s);
    if bt(b, i, 0x7e) {
        let k = run(b, i, 0x7e);
        if k < 3 || !(start is Plain) {
            Ok(None)
        } else {
            Ok(Some(((Stroke::Invisible, start, Arrow::Plain, min_len(k - 2), None), i + k)))
        }
    } else if bt(b, i, 0x3d) || (bt(b, i, 0x2d) && !bt(b, i + 1, 0x2e)) {
        let stroke = if bt(b, i, 0x3d) {
            Stroke::Thick
        } else {
            Stroke::Normal
        };
        let ch = b[i];
        let k = run(b, i, ch);
        if k < 2 {
            Ok(None)
        } else {
            match head(b, i + k) {
                Some(h) => Ok(Some(((stroke, start, h, min_len(k - 1), None), i + k + 1))),
                None => if k >= 3 {
                    Ok(Some(((stroke, start, Arrow::Plain, min_len(k - 2), None), i + k)))
                } else {
                    some_tok(text_link(b, stroke, start, i + 2))
                },
            }
        }
    } else if bt(b, i, 0x2d) {
        let d = run(b, i + 1, 0x2e);
        let j = i + 1 + d;
        if bt(b, j, 0x2d) {
            let h = head(b, j + 1);
            Ok(
                Some(
                    (
                        (
                            Stroke::Dotted,
                            start,
                            match h {
                                Some(a) => a,
                                None => Arrow::Plain,
                            },
                            min_len(d),
                            None,
                        ),
                        j + 1 + if h is Some {
                            1int
                        } else {
                            0int
                        },
                    ),
                ),
            )
        } else {
            some_tok(text_link(b, Stroke::Dotted, start, j))
        }
    } else {
        Ok(None)
    }
}

/// The link at `s`, with a `|…|` label after it (past spaces, tabs and carriage returns)
/// taking the place of any inline one; `Ok(None)` when no link starts there.
pub open spec fn link_spec(b: Seq<u8>, s: int) -> Result<Option<(TokView, int)>, LinkFail> {
    match link_body(b, s) {
        Ok(Some((tok, p))) => {
            let h = skip_hws(b, p);
            if bt(b, h, 0x7c) {
                match pipe_label(b, h) {
                    Ok((l, p2)) => Ok(Some(((tok.0, tok.1, tok.2, tok.3, Some(l)), p2))),
                    Err(e) => Err(e),
                }
            } else {
                Ok(Some((tok, p)))
            }
        },
        other => other,
    }
}

// ---------------------------------------------------------------------------------------
// Laws
// ---------------------------------------------------------------------------------------

proof fn lemma_run_bytes(b: Seq<u8>, i: int, c: u8)
    requires
        0 <= i,
    ensures
        0 <= run(b, i, c),
        i + run(b, i, c) <= b.len() || run(b, i, c) == 0,
        forall|j: int| i <= j < i + run(b, i, c) ==> b[j] == c,
        !bt(b, i + run(b, i, c), c),
    decreases b.len() - i,
{
    if bt(b, i, c) {
        lemma_run_bytes(b, i + 1, c);
    }
}

/// The end token that closes a labelled link is written in the link's own line: for a
/// thick link a run of `=`, for a solid one a run of `-` (at least two), for a dotted one
/// dots then a `-`; an end marker (`>`, `o`, `x`) may follow. The token found starts at
/// `at`, ends inside the text, and its length counts the line's characters.
pub proof fn lemma_end_token_is_the_line(b: Seq<u8>, stroke: Stroke, at: int)
    requires
        0 <= at,
    ensures
        end_at(b, stroke, at) matches Some((e, h, k)) ==> {
            let line_end = if h is Plain {
                e
            } else {
                e - 1
            };
            &&& at < e <= b.len()
            &&& k >= 1
            &&& (h is Arrow ==> b[e - 1] == 0x3e)
            &&& (h is Circle ==> b[e - 1] == 0x6f)
            &&& (h is Cross ==> b[e - 1] == 0x78)
            &&& (stroke is Thick ==> line_end - at >= 2 && forall|j: int| at <= j < line_end ==> b[j] == 0x3d)
            &&& ((stroke is Normal || stroke is Invisible) ==> line_end - at >= 2 && forall|j: int|
                at <= j < line_end ==> b[j] == 0x2d)
            &&& (stroke is Dotted ==> line_end == at + k + 1 && b[at + k] == 0x2d && forall|j: int|
                at <= j < at + k ==> b[j] == 0x2e)
        },
{
    lemma_run_bytes(b, at, 0x2e);
    lemma_run_bytes(b, at, 0x3d);
    lemma_run_bytes(b, at, 0x2d);
}

/// A thick labelled link closes at `==>` (and `==` with more `=`), a solid one at
/// `-->`, a dotted one at `.->`: two line characters and a head are an end token of
/// length one.
pub proof fn lemma_shortest_end_tokens(b: Seq<u8>, at: int)
    requires
        0 <= at,
    ensures
        bt(b, at, 0x3d) && bt(b, at + 1, 0x3d) && bt(b, at + 2, 0x3e) ==> end_at(b, Stroke::Thick, at)
            == Some((at + 3, Arrow::Arrow, 1int)),
        bt(b, at, 0x2d) && bt(b, at + 1, 0x2d) && bt(b, at + 2, 0x3e) ==> end_at(b, Stroke::Normal, at)
            == Some((at + 3, Arrow::Arrow, 1int)),
        bt(b, at, 0x2e) && bt(b, at + 1, 0x2d) && bt(b, at + 2, 0x3e) ==> end_at(b, Stroke::Dotted, at)
            == Some((at + 3, Arrow::Arrow, 1int)),
{
    if bt(b, at, 0x3d) && bt(b, at + 1, 0x3d) && bt(b, at + 2, 0x3e) {
        assert(run(b, at + 2, 0x3d) == 0);
        assert(run(b, at + 1, 0x3d) == 1);
        assert(run(b, at, 0x3d) == 2);
    }
    if bt(b, at, 0x2d) && bt(b, at + 1, 0x2d) && bt(b, at + 2, 0x3e) {
        assert(run(b, at + 2, 0x2d) == 0);
        assert(run(b, at + 1, 0x2d) == 1);
        assert(run(b, at, 0x2d) == 2);
    }
    if bt(b, at, 0x2e) && bt(b, at + 1, 0x2d) && bt(b, at + 2, 0x3e) {
        assert(run(b, at + 1, 0x2e) == 0);
        assert(run(b, at, 0x2e) == 1);
    }
}

/// A link is read from what is written: its start marker is the `<`, `o` or `x` at its
/// start (none when the line starts there), its line is `~` for an invisible link, `=`
/// for a thick one, `-` then `.` for a dotted one and `-` for a solid one, and reading
/// moves past it. An invisible link has no markers and no label.
pub proof fn lemma_link_reads_what_is_written(b: Seq<u8>, s: int)
    requires
        0 <= s,
    ensures
        link_body(b, s) matches Ok(Some((tok, p))) ==> {
            let i = link_head(b, s).1;
            &&& p > s
            &&& (tok.1 is Arrow ==> bt(b, s, 0x3c) && i == s + 1)
            &&& (tok.1 is Circle ==> bt(b, s, 0x6f) && i == s + 1)
            &&& (tok.1 is Cross ==> bt(b, s, 0x78) && i == s + 1)
            &&& (tok.1 is Plain ==> i == s)
            &&& (tok.0 is Invisible ==> bt(b, i, 0x7e) && bt(b, i + 1, 0x7e) && bt(b, i + 2, 0x7e)
                && tok.1 is Plain && tok.2 is Plain && tok.4 is None)
            &&& (tok.0 is Thick ==> bt(b, i, 0x3d))
            &&& (tok.0 is Dotted ==> bt(b, i, 0x2d) && bt(b, i + 1, 0x2e))
            &&& (tok.0 is Normal ==> bt(b, i, 0x2d) && !bt(b, i + 1, 0x2e))
            &&& tok.3 >= 1
        },
{
    let (start, i) = link_head(b, s);
    lemma_run_bytes(b, i, 0x7e);
    lemma_run_bytes(b, i, 0x3d);
    lemma_run_bytes(b, i, 0x2d);
    lemma_run_bytes(b, i + 1, 0x2e);
    if bt(b, i, 0x7e) {
        assert(run(b, i, 0x7e) >= 3 ==> bt(b, i + 1, 0x7e) && bt(b, i + 2, 0x7e));
    }
    let ts = if bt(b, i, 0x2d) && bt(b, i + 1, 0x2e) {
        i + 1 + run(b, i + 1, 0x2e)
    } else {
        i + 2
    };
    lemma_text_link_moves(b, Stroke::Thick, start, i + 2);
    lemma_text_link_moves(b, Stroke::Normal, start, i + 2);
    lemma_text_link_moves(b, Stroke::Dotted, start, ts);
}

proof fn lemma_first_end_after(b: Seq<u8>, stroke: Stroke, j: int)
    requires
        0 <= j,
    ensures
        first_end(b, stroke, j) matches Some(k) ==> j <= k && end_at(b, stroke, k) is Some,
    decreases b.len() - j,
{
    if !(j >= b.len() || b[j] == 0x0a) && end_at(b, stroke, j) is None {
        lemma_first_end_after(b, stroke, j + 1);
    }
}

/// Where an end token stands at `j` with no line feed from `j0` up to it, the search
/// from `j0` finds one.
proof fn lemma_first_end_found(b: Seq<u8>, stroke: Stroke, j0: int, j: int)
    requires
        0 <= j0 <= j,
        end_at(b, stroke, j) is Some,
        forall|x: int| j0 <= x <= j ==> !bt(b, x, 0x0a),
    ensures
        first_end(b, stroke, j0) is Some,
    decreases j - j0,
{
    lemma_end_token_is_the_line(b, stroke, j);
    assert(!bt(b, j0, 0x0a));
    if end_at(b, stroke, j0) is None {
        lemma_first_end_found(b, stroke, j0 + 1, j);
    }
}

/// A labelled link opened by `==` (or `--`) and a space is closed by a later `==>` (or
/// `-->`) on the same line: it reads as a thick (or solid) link with a label, and ends
/// past its opening.
pub proof fn lemma_labelled_link_closes(b: Seq<u8>, s: int, j: int)
    requires
        0 <= s,
        s + 2 <= j,
        forall|x: int| s <= x <= j ==> !bt(b, x, 0x0a),
        bt(b, s + 2, 0x20),
        bt(b, j + 2, 0x3e),
        (bt(b, s, 0x3d) && bt(b, s + 1, 0x3d) && bt(b, j, 0x3d) && bt(b, j + 1, 0x3d)) || (bt(
            b,
            s,
            0x2d,
        ) && bt(b, s + 1, 0x2d) && bt(b, j, 0x2d) && bt(b, j + 1, 0x2d)),
    ensures
        link_body(b, s) matches Ok(Some((tok, p))) && tok.4 is Some && p > s + 2 && (bt(b, s, 0x3d)
            ==> tok.0 is Thick) && (bt(b, s, 0x2d) ==> tok.0 is Normal),
{
    let stroke = if bt(b, s, 0x3d) {
        Stroke::Thick
    } else {
        Stroke::Normal
    };
    let ch: u8 = if bt(b, s, 0x3d) {
        0x3d
    } else {
        0x2d
    };
    assert(link_head(b, s) == (Arrow::Plain, s));
    assert(run(b, s + 2, ch) == 0);
    assert(run(b, s + 1, ch) == 1);
    assert(run(b, s, ch) == 2);
    assert(head(b, s + 2) is None);
    lemma_shortest_end_tokens(b, j);
    lemma_first_end_found(b, stroke, s + 2, j);
    lemma_text_link_moves(b, stroke, Arrow::Plain, s + 2);
    let q = skip_sp(b, s + 2);
    if let Some((c0, c1, e, ty)) = quoted_found(b, q) {
        if end_at(b, stroke, skip_sp(b, e)) is Some {
            return;
        }
    }
    lemma_first_end_after(b, stroke, s + 2);
}

/// An inline-labelled link ends past its label's start, and its length is at least one.
proof fn lemma_text_link_moves(b: Seq<u8>, stroke: Stroke, start: Arrow, ts: int)
    requires
        0 <= ts,
    ensures
        text_link(b, stroke, start, ts) matches Ok((tok, p)) ==> p > ts && tok.3 >= 1 && tok.0 == stroke
            && tok.1 == start,
{
    lemma_skip_sp_after(b, ts);
    let q = skip_sp(b, ts);
    if let Some((c0, c1, e, ty)) = quoted_found(b, q) {
        lemma_quoted_after(b, q);
        lemma_skip_sp_after(b, e);
        lemma_end_token_is_the_line(b, stroke, skip_sp(b, e));
    }
    lemma_first_end_after(b, stroke, ts);
    if let Some(j) = first_end(b, stroke, ts) {
        lemma_end_token_is_the_line(b, stroke, j);
    }
}

proof fn lemma_skip_sp_after(b: Seq<u8>, i: int)
    ensures
        skip_sp(b, i) >= i,
    decreases b.len() - i,
{
    if bt(b, i, 0x20) || bt(b, i, 0x09) {
        lemma_skip_sp_after(b, i + 1);
    }
}

proof fn lemma_quoted_after(b: Seq<u8>, pos: int)
    ensures
        quoted_found(b, pos) matches Some((c0, c1, e, ty)) ==> e > pos,
{
    let cs = rest_chars(b, pos);
    if cs.len() > 0 && quote_start(cs[0]) {
        let open = cs[0];
        let body = cs.drop_first();
        let k = first_closer(body, open, 0);
        if k < body.len() {
            assert(encode_scalar(open as u32).len() >= 1);
            assert(encode_scalar(body[k] as u32).len() >= 1);
        }
    }
}

proof fn lemma_skip_sp_bytes(b: Seq<u8>, i: int)
    requires
        0 <= i,
    ensures
        i <= skip_sp(b, i),
        forall|j: int| i <= j < skip_sp(b, i) ==> bt(b, j, 0x20) || bt(b, j, 0x09),
    decreases b.len() - i,
{
    if bt(b, i, 0x20) || bt(b, i, 0x09) {
        lemma_skip_sp_bytes(b, i + 1);
    }
}

proof fn lemma_bar_or_nl_first(b: Seq<u8>, j: int)
    requires
        0 <= j,
    ensures
        bar_or_nl(b, j) matches Some(c) ==> j <= c < b.len() && (b[c] == 0x7c || b[c] == 0x0a)
            && forall|m: int| j <= m < c ==> b[m] != 0x7c && b[m] != 0x0a,
    decreases b.len() - j,
{
    if 0 <= j < b.len() && !(b[j] == 0x7c || b[j] == 0x0a) {
        lemma_bar_or_nl_first(b, j + 1);
    }
}

proof fn lemma_quoted_bounds(b: Seq<u8>, pos: int)
    ensures
        quoted_found(b, pos) matches Some((c0, c1, e, ty)) ==> pos < c0 <= c1 < e,
{
    let cs = rest_chars(b, pos);
    if cs.len() > 0 && quote_start(cs[0]) {
        let open = cs[0];
        let body = cs.drop_first();
        let k = first_closer(body, open, 0);
        if k < body.len() {
            assert(encode_scalar(open as u32).len() >= 1);
            assert(encode_scalar(body[k] as u32).len() >= 1);
        }
    }
}

/// A `|…|` label closes with a `|` on the line it opened: reading ends just past that
/// `|`, no line feed lies between the two bars, and the label's text lies between them.
pub proof fn lemma_pipe_label_closes_on_its_line(b: Seq<u8>, open: int)
    requires
        0 <= open,
    ensures
        pipe_label(b, open) matches Ok(((c0, c1, ty), p)) ==> {
            &&& open < c0 <= c1 < p
            &&& bt(b, p - 1, 0x7c)
            &&& forall|j: int| open < j < p ==> !bt(b, j, 0x0a)
        },
{
    let cs = open + 1;
    lemma_skip_sp_bytes(b, cs);
    let q = skip_sp(b, cs);
    lemma_quoted_bounds(b, q);
    lemma_bar_or_nl_first(b, cs);
    if let Ok(((c0, c1, ty), p)) = pipe_label(b, open) {
        let mut quoted_hit = false;
        if let Some((d0, d1, e, ty2)) = quoted_found(b, q) {
            lemma_skip_sp_bytes(b, e);
            let after = skip_sp(b, e);
            if bt(b, after, 0x7c) && one_line(b, q, e) {
                quoted_hit = true;
                assert(p == after + 1);
                assert forall|j: int| open < j < p implies !bt(b, j, 0x0a) by {
                    if j < q {
                        assert(bt(b, j, 0x20) || bt(b, j, 0x09));
                    } else if j < e {
                        assert(!bt(b, j, 0x0a));
                    } else if j < after {
                        assert(bt(b, j, 0x20) || bt(b, j, 0x09));
                    } else {
                        assert(j == after);
                    }
                }
            }
        }
        if !quoted_hit {
            let c = bar_or_nl(b, cs)->0;
            assert(p == c + 1);
            assert forall|j: int| open < j < p implies !bt(b, j, 0x0a) by {
                if j < c {
                    assert(b[j] != 0x0a);
                }
            }
        }
    }
}

// ---------------------------------------------------------------------------------------
// The scanner
// ---------------------------------------------------------------------------------------

fn bt_exec(b: &[u8], i: usize, c: u8) -> (r: bool)
    ensures
        r == bt(b@, i as int, c),
{
    i < b.len() && b[i] == c
}

fn run_exec(b: &[u8], i: usize, c: u8) -> (r: usize)
    requires
        b@.len() < usize::MAX,
    ensures
        r == run(b@, i as int, c),
        r == 0 || i + r <= b@.len(),
{
    let mut k: usize = 0;
    while i + k < b.len() && b[i + k] == c
        invariant
            k == 0 || i + k <= b@.len(),
            b@.len() < usize::MAX,
            run(b@, i as int, c) == k + run(b@, (i + k) as int, c),
        decreases b@.len() - (i + k),
    {
        k += 1;
    }
    k
}

fn head_exec(b: &[u8], at: usize) -> (r: Option<Arrow>)
    ensures
        r == head(b@, at as int),
{
    if bt_exec(b, at, 0x3e) {
        Some(Arrow::Arrow)
    } else if bt_exec(b, at, 0x6f) {
        Some(Arrow::Circle)
    } else if bt_exec(b, at, 0x78) {
        Some(Arrow::Cross)
    } else {
        None
    }
}

fn line_start_exec(b: &[u8], i: usize) -> (r: bool)
    requires
        i < usize::MAX,
    ensures
        r == line_start(b@, i as int),
{
    (bt_exec(b, i, 0x2d) && bt_exec(b, i + 1, 0x2d)) || (bt_exec(b, i, 0x3d) && bt_exec(b, i + 1, 0x3d))
        || (bt_exec(b, i, 0x2d) && bt_exec(b, i + 1, 0x2e))
}

fn link_start_exec(b: &[u8], at: usize) -> (r: bool)
    requires
        at + 4 < usize::MAX,
    ensures
        r == link_start_at(b@, at as int),
{
    let t = if (bt_exec(b, at, 0x6f) || bt_exec(b, at, 0x78)) && line_start_exec(b, at + 1) {
        at + 1
    } else {
        at
    };
    let t2 = if bt_exec(b, t, 0x3c) {
        t + 1
    } else {
        t
    };
    line_start_exec(b, t2) || (bt_exec(b, t2, 0x7e) && bt_exec(b, t2 + 1, 0x7e) && bt_exec(b, t2 + 2, 0x7e))
}

fn min_len_exec(k: usize) -> (r: u32)
    ensures
        r == min_len(k as int),
{
    if k > 0xffff_ffff {
        0xffff_ffff
    } else if k < 1 {
        1
    } else {
        k as u32
    }
}

fn end_at_exec(b: &[u8], stroke: Stroke, at: usize) -> (r: Option<(usize, Arrow, usize)>)
    requires
        b@.len() + 4 < usize::MAX,
    ensures
        match r {
            Some((e, h, k)) => end_at(b@, stroke, at as int) == Some((e as int, h, k as int)),
            None => end_at(b@, stroke, at as int) is None,
        },
{
    if matches!(stroke, Stroke::Dotted) {
        let d = run_exec(b, at, 0x2e);
        if d == 0 || !bt_exec(b, at + d, 0x2d) {
            None
        } else {
            let h = head_exec(b, at + d + 1);
            match h {
                Some(a) => Some((at + d + 2, a, d)),
                None => Some((at + d + 1, Arrow::Plain, d)),
            }
        }
    } else {
        let ch: u8 = if matches!(stroke, Stroke::Thick) {
            0x3d
        } else {
            0x2d
        };
        let k = run_exec(b, at, ch);
        if k < 2 {
            None
        } else {
            match head_exec(b, at + k) {
                Some(h) => Some((at + k + 1, h, k - 1)),
                None => if k >= 3 {
                    Some((at + k, Arrow::Plain, k - 2))
                } else {
                    None
                },
            }
        }
    }
}

fn skip_sp_exec(b: &[u8], i: usize) -> (r: usize)
    ensures
        r == skip_sp(b@, i as int),
        i <= r,
        i <= b@.len() ==> r <= b@.len(),
{
    let mut j = i;
    while j < b.len() && (b[j] == 0x20 || b[j] == 0x09)
        invariant
            i <= j,
            i <= b@.len() ==> j <= b@.len(),
            skip_sp(b@, j as int) == skip_sp(b@, i as int),
        decreases b@.len() - j,
    {
        j += 1;
    }
    j
}

fn skip_hws_exec(b: &[u8], i: usize) -> (r: usize)
    ensures
        r == skip_hws(b@, i as int),
        i <= r,
{
    let mut j = i;
    while j < b.len() && (b[j] == 0x20 || b[j] == 0x09 || b[j] == 0x0d)
        invariant
            i <= j,
            skip_hws(b@, j as int) == skip_hws(b@, i as int),
        decreases b@.len() - j,
    {
        j += 1;
    }
    j
}

proof fn lemma_quoted(b: Seq<u8>, pos: int, r: QuoteScan)
    requires
        quote_scan_ok(b, pos, r),
    ensures
        match r {
            QuoteScan::Found(x) => quoted_found(b, pos) == Some(
                (x.content_start as int, x.content_end as int, x.end as int, x.typographic@),
            ),
            _ => quoted_found(b, pos) is None,
        },
{
}

/// The quoted string at `pos`, as plain values.
fn quoted_exec(src: &str, pos: usize) -> (r: Option<(usize, usize, usize, Vec<(usize, usize)>)>)
    ensures
        match r {
            Some((c0, c1, e, ty)) => quoted_found(src.spec_bytes(), pos as int) == Some(
                (c0 as int, c1 as int, e as int, ty@),
            ),
            None => quoted_found(src.spec_bytes(), pos as int) is None,
        },
{
    let q = scan_quoted(src, pos);
    proof {
        lemma_quoted(src.spec_bytes(), pos as int, q);
    }
    match q {
        QuoteScan::Found(x) => Some((x.content_start, x.content_end, x.end, x.typographic)),
        _ => None,
    }
}

fn first_end_exec(b: &[u8], stroke: Stroke, from: usize) -> (r: Option<(usize, (usize, Arrow, usize))>)
    requires
        from <= b@.len(),
        b@.len() + 4 < usize::MAX,
    ensures
        match r {
            Some((j, (e, h, k))) => first_end(b@, stroke, from as int) == Some(j as int) && end_at(
                b@,
                stroke,
                j as int,
            ) == Some((e as int, h, k as int)),
            None => first_end(b@, stroke, from as int) is None,
        },
{
    let mut j = from;
    while j < b.len()
        invariant
            from <= j <= b@.len(),
            b@.len() + 4 < usize::MAX,
            first_end(b@, stroke, j as int) == first_end(b@, stroke, from as int),
        decreases b@.len() - j,
    {
        if b[j] == 0x0a {
            return None;
        }
        match end_at_exec(b, stroke, j) {
            Some(en) => {
                return Some((j, en));
            },
            None => {},
        }
        j += 1;
    }
    None
}

fn bar_or_nl_exec(b: &[u8], from: usize) -> (r: Option<usize>)
    requires
        from <= b@.len(),
    ensures
        match r {
            Some(c) => bar_or_nl(b@, from as int) == Some(c as int) && c < b@.len(),
            None => bar_or_nl(b@, from as int) is None,
        },
{
    let mut j = from;
    while j < b.len()
        invariant
            from <= j <= b@.len(),
            bar_or_nl(b@, j as int) == bar_or_nl(b@, from as int),
        decreases b@.len() - j,
    {
        if b[j] == 0x7c || b[j] == 0x0a {
            return Some(j);
        }
        j += 1;
    }
    None
}

fn one_line_exec(b: &[u8], q: usize, e: usize) -> (r: bool)
    ensures
        r == one_line(b@, q as int, e as int),
{
    let mut i = q;
    while i < e
        invariant
            q <= i,
            forall|k: int| q <= k < i ==> !bt(b@, k, 0x0a),
        decreases e - i,
    {
        if bt_exec(b, i, 0x0a) {
            return false;
        }
        i += 1;
    }
    true
}

fn make_tok(stroke: Stroke, start: Arrow, end: Arrow, k: usize, label: Option<LinkLabel>) -> (r: LinkTok)
    ensures
        r.stroke == stroke,
        r.start == start,
        r.end == end,
        r.min_len == min_len(k as int),
        r.label == label,
{
    LinkTok { stroke, start, end, min_len: min_len_exec(k), label }
}

fn text_link_exec(src: &str, stroke: Stroke, start: Arrow, ts: usize) -> (r: Result<(LinkTok, usize), LinkFail>)
    requires
        ts <= src.spec_bytes().len(),
        src.spec_bytes().len() + 4 < usize::MAX,
    ensures
        match r {
            Ok((t, p)) => text_link(src.spec_bytes(), stroke, start, ts as int) == Ok::<(TokView, int), LinkFail>((tok_view(t), p as int)),
            Err(e) => text_link(src.spec_bytes(), stroke, start, ts as int) == Err::<(TokView, int), LinkFail>(e),
        },
{
    let b = src.as_bytes();
    let q = skip_sp_exec(b, ts);
    match quoted_exec(src, q) {
        Some((c0, c1, e, ty)) => {
            let after = skip_sp_exec(b, e);
            match end_at_exec(b, stroke, after) {
                Some((en, h, k)) => {
                    let t = make_tok(stroke, start, h, k, Some(LinkLabel { start: c0, end: c1, typographic: ty }));
                    return Ok((t, en));
                },
                None => {},
            }
        },
        None => {},
    }
    match first_end_exec(b, stroke, ts) {
        Some((j, (en, h, k))) => {
            let t = make_tok(stroke, start, h, k, Some(LinkLabel { start: ts, end: j, typographic: Vec::new() }));
            assert(t.label->0.typographic@ =~= Seq::<(usize, usize)>::empty());
            Ok((t, en))
        },
        None => Err(
            LinkFail::Unclosed {
                at: if ts >= 2 {
                    ts - 2
                } else {
                    0
                },
                text_start: ts,
                stroke,
            },
        ),
    }
}

fn pipe_label_exec(src: &str, open: usize) -> (r: Result<(LinkLabel, usize), LinkFail>)
    requires
        open < src.spec_bytes().len(),
        src.spec_bytes().len() + 4 < usize::MAX,
    ensures
        match r {
            Ok((l, p)) => pipe_label(src.spec_bytes(), open as int) == Ok::<(LabelView, int), LinkFail>((label_view(l), p as int)),
            Err(e) => pipe_label(src.spec_bytes(), open as int) == Err::<(LabelView, int), LinkFail>(e),
        },
{
    let b = src.as_bytes();
    let cs = open + 1;
    let q = skip_sp_exec(b, cs);
    match quoted_exec(src, q) {
        Some((c0, c1, e, ty)) => {
            let after = skip_sp_exec(b, e);
            if bt_exec(b, after, 0x7c) && one_line_exec(b, q, e) {
                return Ok((LinkLabel { start: c0, end: c1, typographic: ty }, after + 1));
            }
        },
        None => {},
    }
    match bar_or_nl_exec(b, cs) {
        Some(c) => if b[c] == 0x7c {
            let l = LinkLabel { start: cs, end: c, typographic: Vec::new() };
            assert(l.typographic@ =~= Seq::<(usize, usize)>::empty());
            Ok((l, c + 1))
        } else {
            Err(LinkFail::Pipe { open })
        },
        None => Err(LinkFail::Pipe { open }),
    }
}

fn link_head_exec(b: &[u8], s: usize) -> (r: (Arrow, usize))
    requires
        s <= b@.len(),
        b@.len() + 8 < usize::MAX,
    ensures
        (r.0, r.1 as int) == link_head(b@, s as int),
{
    if bt_exec(b, s, 0x3c) && (bt_exec(b, s + 1, 0x2d) || bt_exec(b, s + 1, 0x3d)) {
        (Arrow::Arrow, s + 1)
    } else if bt_exec(b, s, 0x6f) && link_start_exec(b, s) {
        (Arrow::Circle, s + 1)
    } else if bt_exec(b, s, 0x78) && link_start_exec(b, s) {
        (Arrow::Cross, s + 1)
    } else {
        (Arrow::Plain, s)
    }
}

fn some_tok_exec(r: Result<(LinkTok, usize), LinkFail>) -> (o: Result<Option<(LinkTok, usize)>, LinkFail>)
    ensures
        link_view(o) == some_tok(
            match r {
                Ok((t, p)) => Ok::<(TokView, int), LinkFail>((tok_view(t), p as int)),
                Err(e) => Err::<(TokView, int), LinkFail>(e),
            },
        ),
{
    match r {
        Ok(x) => Ok(Some(x)),
        Err(e) => Err(e),
    }
}

/// The solid or thick line at `i`.
fn solid_link(src: &str, start: Arrow, i: usize) -> (r: Result<Option<(LinkTok, usize)>, LinkFail>)
    requires
        i < src.spec_bytes().len(),
        src.spec_bytes().len() + 8 < usize::MAX,
        bt(src.spec_bytes(), i as int, 0x3d) || bt(src.spec_bytes(), i as int, 0x2d),
    ensures
        link_view(r) == ({
            let b = src.spec_bytes();
            let stroke = if bt(b, i as int, 0x3d) {
                Stroke::Thick
            } else {
                Stroke::Normal
            };
            let k = run(b, i as int, b[i as int]);
            if k < 2 {
                Ok(None)
            } else {
                match head(b, i + k) {
                    Some(h) => Ok(Some(((stroke, start, h, min_len(k - 1), None), i + k + 1))),
                    None => if k >= 3 {
                        Ok(Some(((stroke, start, Arrow::Plain, min_len(k - 2), None), i + k)))
                    } else {
                        some_tok(text_link(b, stroke, start, i + 2))
                    },
                }
            }
        }),
{
    let b = src.as_bytes();
        let stroke = if bt_exec(b, i, 0x3d) {
            Stroke::Thick
        } else {
            Stroke::Normal
        };
        let ch = b[i];
        let k = run_exec(b, i, ch);
        if k < 2 {
            Ok(None)
        } else {
            match head_exec(b, i + k) {
                Some(h) => Ok(Some((make_tok(stroke, start, h, k - 1, None), i + k + 1))),
                None => if k >= 3 {
                    Ok(Some((make_tok(stroke, start, Arrow::Plain, k - 2, None), i + k)))
                } else {
                    some_tok_exec(text_link_exec(src, stroke, start, i + 2))
                },
            }
        }
}

/// The dotted line at `i`.
fn dotted_link(src: &str, start: Arrow, i: usize) -> (r: Result<Option<(LinkTok, usize)>, LinkFail>)
    requires
        i < src.spec_bytes().len(),
        src.spec_bytes().len() + 8 < usize::MAX,
    ensures
        link_view(r) == ({
            let b = src.spec_bytes();
            let d = run(b, i + 1, 0x2e);
            let j = i + 1 + d;
            if bt(b, j, 0x2d) {
                let h = head(b, j + 1);
                Ok(
                    Some(
                        (
                            (
                                Stroke::Dotted,
                                start,
                                match h {
                                    Some(a) => a,
                                    None => Arrow::Plain,
                                },
                                min_len(d),
                                None,
                            ),
                            j + 1 + if h is Some {
                                1int
                            } else {
                                0int
                            },
                        ),
                    ),
                )
            } else {
                some_tok(text_link(b, Stroke::Dotted, start, j))
            }
        }),
{
    let b = src.as_bytes();
        let d = run_exec(b, i + 1, 0x2e);
        let j = i + 1 + d;
        if bt_exec(b, j, 0x2d) {
            match head_exec(b, j + 1) {
                Some(h) => Ok(Some((make_tok(Stroke::Dotted, start, h, d, None), j + 2))),
                None => Ok(Some((make_tok(Stroke::Dotted, start, Arrow::Plain, d, None), j + 1))),
            }
        } else {
            some_tok_exec(text_link_exec(src, Stroke::Dotted, start, j))
        }
}

fn link_body_exec(src: &str, s: usize) -> (r: Result<Option<(LinkTok, usize)>, LinkFail>)
    requires
        s <= src.spec_bytes().len(),
        src.spec_bytes().len() + 8 < usize::MAX,
    ensures
        link_view(r) == link_body(src.spec_bytes(), s as int),
{
    let b = src.as_bytes();
    let (start, i) = link_head_exec(b, s);
    if bt_exec(b, i, 0x7e) {
        let k = run_exec(b, i, 0x7e);
        if k < 3 || !matches!(start, Arrow::Plain) {
            Ok(None)
        } else {
            Ok(Some((make_tok(Stroke::Invisible, start, Arrow::Plain, k - 2, None), i + k)))
        }
    } else if bt_exec(b, i, 0x3d) || (bt_exec(b, i, 0x2d) && !bt_exec(b, i + 1, 0x2e)) {
        solid_link(src, start, i)
    } else if bt_exec(b, i, 0x2d) {
        dotted_link(src, start, i)
    } else {
        Ok(None)
    }
}

/// Reads the link at byte `pos` of `src`: `Ok(None)` when no link starts there,
/// otherwise the link and the position after it (and after its `|…|` label, which takes
/// the place of an inline one), or why a label could not be closed.
pub fn link(src: &str, pos: usize) -> (r: Result<Option<(LinkTok, usize)>, LinkFail>)
    requires
        pos <= src.spec_bytes().len(),
        src.spec_bytes().len() + 8 < usize::MAX,
    ensures
        link_view(r) == link_spec(src.spec_bytes(), pos as int),
{
    let b = src.as_bytes();
    match link_body_exec(src, pos) {
        Ok(Some((tok, p))) => {
            let h = skip_hws_exec(b, p);
            if bt_exec(b, h, 0x7c) {
                match pipe_label_exec(src, h) {
                    Ok((l, p2)) => {
                        let t = LinkTok {
                            stroke: tok.stroke,
                            start: tok.start,
                            end: tok.end,
                            min_len: tok.min_len,
                            label: Some(l),
                        };
                        Ok(Some((t, p2)))
                    },
                    Err(e) => Err(e),
                }
            } else {
                Ok(Some((tok, p)))
            }
        },
        other => other,
    }
}

} // verus!
