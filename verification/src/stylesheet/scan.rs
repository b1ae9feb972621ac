//! Block structure of a stylesheet: rules, at-rules and declarations, with comments and
//! strings skipped. Brace depth is an explicit counter; nothing recurses.

use vstd::prelude::*;
use vstd::string::StringSliceAdditionalSpecFns;
use vstd::utf8::*;

use crate::text::{
    byte_offset, char_slice, chars_of, is_ascii_ws, is_ascii_ws_byte, lemma_valid, push_char,
    trim_str, trim_ws,
};

verus! {

/// A `{…}` block or a `;`-terminated statement at one level.
pub struct Item {
    /// Byte range of the prelude (selector list or at-rule), trimmed.
    pub prelude: (usize, usize),
    /// Byte range of the block content, without the braces; `None` for a statement.
    pub body: Option<(usize, usize)>,
}

/// The input exceeds the block depth limit.
pub struct TooDeep;

// ---------------------------------------------------------------------------------------
// The scanner's model
// ---------------------------------------------------------------------------------------

/// The `*` of the `*/` closing a comment whose text starts at `i`, or the last position
/// at which none can start.
pub open spec fn comment_close(b: Seq<u8>, i: int, end: int) -> int
    decreases end - i,
{
    if i + 1 < end && !(b[i] == 0x2a && b[i + 1] == 0x2f) {
        comment_close(b, i + 1, end)
    } else {
        i
    }
}

/// Where a string whose text starts at `i` stops: its closing quote `q`, a line feed,
/// or the end. A backslash escapes the next byte.
pub open spec fn string_close(b: Seq<u8>, i: int, end: int, q: u8) -> int
    decreases end + 1 - i,
{
    if i < end && b[i] != q && b[i] != 10 {
        string_close(
            b,
            i + if b[i] == 0x5c {
                2int
            } else {
                1int
            },
            end,
            q,
        )
    } else {
        i
    }
}

/// A comment (`/*`) or a string (`"` or `'`) starts at `pos`.
pub open spec fn opaque_at(b: Seq<u8>, pos: int) -> bool {
    0 <= pos < b.len() && ((b[pos] == 0x2f && pos + 1 < b.len() && b[pos + 1] == 0x2a) || b[pos]
        == 0x22 || b[pos] == 0x27)
}

/// The position after the comment or string starting at `pos`.
pub open spec fn opaque_end(b: Seq<u8>, pos: int, end: int) -> int {
    if b[pos] == 0x2f {
        let i = comment_close(b, pos + 2, end);
        if i + 1 < end {
            i + 2
        } else {
            end
        }
    } else {
        let i = string_close(b, pos + 1, end, b[pos]);
        if i + 1 <= end {
            i + 1
        } else {
            end
        }
    }
}

pub proof fn lemma_comment_close(b: Seq<u8>, i: int, end: int)
    ensures
        comment_close(b, i, end) >= i,
        i + 1 < end ==> comment_close(b, i, end) + 1 <= end,
    decreases end - i,
{
    if i + 1 < end && !(b[i] == 0x2a && b[i + 1] == 0x2f) {
        lemma_comment_close(b, i + 1, end);
    }
}

pub proof fn lemma_string_close(b: Seq<u8>, i: int, end: int, q: u8)
    ensures
        string_close(b, i, end, q) >= i,
    decreases end + 1 - i,
{
    if i < end && b[i] != q && b[i] != 10 {
        lemma_string_close(
            b,
            i + if b[i] == 0x5c {
                2int
            } else {
                1int
            },
            end,
            q,
        );
    }
}

pub proof fn lemma_opaque_end(b: Seq<u8>, pos: int, end: int)
    requires
        opaque_at(b, pos),
        pos < end,
    ensures
        pos < opaque_end(b, pos, end) <= end,
{
    lemma_comment_close(b, pos + 2, end);
    lemma_string_close(b, pos + 1, end, b[pos]);
}

/// The scan of a block body from `pos` at brace depth `d` (the block itself opened at
/// `depth`): the closing brace, the position after it, and whether a nested block
/// occurs; `None` when a block opens beyond `max`.
pub open spec fn block_end_spec(
    b: Seq<u8>,
    pos: int,
    end: int,
    d: int,
    depth: int,
    max: int,
    nested: bool,
) -> Option<(int, int, bool)>
    decreases end - pos,
{
    if pos >= end {
        Some((end, pos, nested))
    } else if opaque_at(b, pos) {
        proof {
            lemma_opaque_end(b, pos, end);
        }
        block_end_spec(b, opaque_end(b, pos, end), end, d, depth, max, nested)
    } else if b[pos] == 0x7b {
        if d + 1 > max {
            None
        } else {
            block_end_spec(b, pos + 1, end, d + 1, depth, max, true)
        }
    } else if b[pos] == 0x7d {
        if d == depth {
            Some((pos, pos + 1, nested))
        } else {
            block_end_spec(b, pos + 1, end, d - 1, depth, max, nested)
        }
    } else {
        block_end_spec(b, pos + 1, end, d, depth, max, nested)
    }
}

/// The first position at or after `pos` past whitespace and comments.
pub open spec fn lead_skip(b: Seq<u8>, pos: int, end: int) -> int
    decreases end - pos,
{
    if 0 <= pos < end && pos < b.len() && is_ascii_ws(b[pos]) {
        lead_skip(b, pos + 1, end)
    } else if 0 <= pos < end && pos + 1 < b.len() && b[pos] == 0x2f && b[pos + 1] == 0x2a {
        proof {
            lemma_opaque_end(b, pos, end);
        }
        lead_skip(b, opaque_end(b, pos, end), end)
    } else {
        pos
    }
}

/// Where a prelude starting at `pos` stops, and the byte that stops it (`{`, `;` at
/// bracket depth 0, or `}`), or -1 at the end.
pub open spec fn prelude_stop(b: Seq<u8>, pos: int, end: int, paren: int) -> (int, int)
    decreases end - pos,
{
    if pos >= end {
        (pos, -1)
    } else if opaque_at(b, pos) {
        proof {
            lemma_opaque_end(b, pos, end);
        }
        prelude_stop(b, opaque_end(b, pos, end), end, paren)
    } else if b[pos] == 0x28 || b[pos] == 0x5b {
        prelude_stop(b, pos + 1, end, paren + 1)
    } else if b[pos] == 0x29 || b[pos] == 0x5d {
        prelude_stop(
            b,
            pos + 1,
            end,
            if paren > 0 {
                paren - 1
            } else {
                0
            },
        )
    } else if b[pos] == 0x7b {
        (pos, 0x7b)
    } else if b[pos] == 0x3b && paren == 0 {
        (pos, 0x3b)
    } else if b[pos] == 0x7d {
        (pos, 0x7d)
    } else {
        prelude_stop(b, pos + 1, end, paren)
    }
}

/// Start of `b[s..e]` without leading ASCII whitespace.
pub open spec fn trim_lo(b: Seq<u8>, s: int, e: int) -> int
    decreases e - s,
{
    if s < e && is_ascii_ws(b[s]) {
        trim_lo(b, s + 1, e)
    } else {
        s
    }
}

/// End of `b[s..e]` without trailing ASCII whitespace.
pub open spec fn trim_hi(b: Seq<u8>, s: int, e: int) -> int
    decreases e - s,
{
    if e > s && is_ascii_ws(b[e - 1]) {
        trim_hi(b, s, e - 1)
    } else {
        e
    }
}

/// `b[s..e]` trimmed of ASCII whitespace, as a range.
pub open spec fn trim_spec(b: Seq<u8>, s: int, e: int) -> (int, int) {
    (trim_lo(b, s, e), trim_hi(b, trim_lo(b, s, e), e))
}

/// An item as plain values: prelude, body, and whether the body nests a block.
pub type ItemView = ((int, int), Option<(int, int)>, bool);

pub open spec fn statement(prelude: (int, int)) -> Seq<ItemView> {
    if prelude.1 > prelude.0 {
        seq![(prelude, None, false)]
    } else {
        Seq::<ItemView>::empty()
    }
}

/// The items of `b[pos..end]` at block depth `depth`; `None` when a block opens beyond
/// `max`.
pub open spec fn items_spec(b: Seq<u8>, pos: int, end: int, depth: int, max: int) -> Option<
    Seq<ItemView>,
>
    decreases end - pos,
{
    let p0 = lead_skip(b, pos, end);
    proof {
        lemma_lead_skip(b, pos, end);
        lemma_prelude_stop(b, p0, end, 0);
    }
    if p0 >= end {
        Some(Seq::<ItemView>::empty())
    } else {
        let (q, stop) = prelude_stop(b, p0, end, 0);
        let prelude = trim_spec(b, p0, q);
        if stop == 0x7b {
            if depth > max {
                None
            } else {
                proof {
                    lemma_block_end(b, q + 1, end, depth, depth, max, false);
                }
                match block_end_spec(b, q + 1, end, depth, depth, max, false) {
                    None => None,
                    Some((close, after, nested)) => match items_spec(b, after, end, depth, max) {
                        None => None,
                        Some(rest) => Some(seq![(prelude, Some((q + 1, close)), nested)] + rest),
                    },
                }
            }
        } else if stop == -1 {
            Some(statement(prelude))
        } else {
            match items_spec(b, q + 1, end, depth, max) {
                None => None,
                Some(rest) => Some(statement(prelude) + rest),
            }
        }
    }
}

pub proof fn lemma_lead_skip(b: Seq<u8>, pos: int, end: int)
    ensures
        lead_skip(b, pos, end) >= pos,
    decreases end - pos,
{
    if 0 <= pos < end && pos < b.len() && is_ascii_ws(b[pos]) {
        lemma_lead_skip(b, pos + 1, end);
    } else if 0 <= pos < end && pos + 1 < b.len() && b[pos] == 0x2f && b[pos + 1] == 0x2a {
        lemma_opaque_end(b, pos, end);
        lemma_lead_skip(b, opaque_end(b, pos, end), end);
    }
}

pub proof fn lemma_prelude_stop(b: Seq<u8>, pos: int, end: int, paren: int)
    ensures
        prelude_stop(b, pos, end, paren).0 >= pos,
        prelude_stop(b, pos, end, paren).1 == -1 ==> prelude_stop(b, pos, end, paren).0 >= end,
        prelude_stop(b, pos, end, paren).1 != -1 ==> prelude_stop(b, pos, end, paren).0 < end,
        pos <= end ==> prelude_stop(b, pos, end, paren).0 <= end,
    decreases end - pos,
{
    if pos >= end {
    } else if opaque_at(b, pos) {
        lemma_opaque_end(b, pos, end);
        lemma_prelude_stop(b, opaque_end(b, pos, end), end, paren);
    } else if b[pos] == 0x28 || b[pos] == 0x5b {
        lemma_prelude_stop(b, pos + 1, end, paren + 1);
    } else if b[pos] == 0x29 || b[pos] == 0x5d {
        lemma_prelude_stop(
            b,
            pos + 1,
            end,
            if paren > 0 {
                paren - 1
            } else {
                0
            },
        );
    } else if b[pos] == 0x7b || (b[pos] == 0x3b && paren == 0) || b[pos] == 0x7d {
    } else {
        lemma_prelude_stop(b, pos + 1, end, paren);
    }
}

pub proof fn lemma_block_end(
    b: Seq<u8>,
    pos: int,
    end: int,
    d: int,
    depth: int,
    max: int,
    nested: bool,
)
    ensures
        block_end_spec(b, pos, end, d, depth, max, nested) matches Some((close, after, _)) ==> pos
            <= after && (after > pos || pos >= end) && (pos <= end ==> after <= end && close
            <= after && pos <= close),
    decreases end - pos,
{
    if pos >= end {
    } else if opaque_at(b, pos) {
        lemma_opaque_end(b, pos, end);
        lemma_block_end(b, opaque_end(b, pos, end), end, d, depth, max, nested);
    } else if b[pos] == 0x7b {
        if d + 1 <= max {
            lemma_block_end(b, pos + 1, end, d + 1, depth, max, true);
        }
    } else if b[pos] == 0x7d {
        if d != depth {
            lemma_block_end(b, pos + 1, end, d - 1, depth, max, nested);
        }
    } else {
        lemma_block_end(b, pos + 1, end, d, depth, max, nested);
    }
}

/// `b[s..e]` trimmed stays inside `s..e`.
proof fn lemma_trim_within(b: Seq<u8>, s: int, e: int)
    requires
        s <= e,
    ensures
        s <= trim_spec(b, s, e).0 <= trim_spec(b, s, e).1 <= e,
{
    lemma_trim_lo(b, s, e);
    lemma_trim_hi(b, trim_lo(b, s, e), e);
}

proof fn lemma_trim_lo(b: Seq<u8>, s: int, e: int)
    requires
        s <= e,
    ensures
        s <= trim_lo(b, s, e) <= e,
    decreases e - s,
{
    if s < e && is_ascii_ws(b[s]) {
        lemma_trim_lo(b, s + 1, e);
    }
}

proof fn lemma_trim_hi(b: Seq<u8>, s: int, e: int)
    requires
        s <= e,
    ensures
        s <= trim_hi(b, s, e) <= e,
    decreases e - s,
{
    if e > s && is_ascii_ws(b[e - 1]) {
        lemma_trim_hi(b, s, e - 1);
    }
}

/// Where an item begins: its prelude.
pub open spec fn item_start(it: ItemView) -> int {
    it.0.0
}

/// Where an item ends: its body's end, or its prelude's for a statement.
pub open spec fn item_end(it: ItemView) -> int {
    match it.1 {
        Some((_, y)) => y,
        None => it.0.1,
    }
}

/// The item lies inside `lo..hi`, its prelude first and its body after it.
pub open spec fn item_within(it: ItemView, lo: int, hi: int) -> bool {
    &&& lo <= it.0.0 <= it.0.1 <= hi
    &&& match it.1 {
        Some((x, y)) => it.0.1 < x <= y <= hi,
        None => true,
    }
}

/// The items of a level lie inside the scanned range, in increasing order, and no two
/// of them overlap.
pub proof fn lemma_items_within(b: Seq<u8>, pos: int, end: int, depth: int, max: int)
    requires
        0 <= pos <= end,
        items_spec(b, pos, end, depth, max) is Some,
    ensures
        ({
            let v = items_spec(b, pos, end, depth, max)->0;
            &&& forall|i: int| 0 <= i < v.len() ==> item_within(#[trigger] v[i], pos, end)
            &&& forall|i: int, j: int|
                0 <= i < j < v.len() ==> item_end(#[trigger] v[i]) <= item_start(#[trigger] v[j])
        }),
    decreases end - pos,
{
    let p0 = lead_skip(b, pos, end);
    lemma_lead_skip(b, pos, end);
    lemma_prelude_stop(b, p0, end, 0);
    let v = items_spec(b, pos, end, depth, max)->0;
    if p0 < end {
        let (q, stop) = prelude_stop(b, p0, end, 0);
        let prelude = trim_spec(b, p0, q);
        lemma_trim_within(b, p0, q);
        if stop == 0x7b {
            lemma_block_end(b, q + 1, end, depth, depth, max, false);
            let (close, after, nested) = block_end_spec(b, q + 1, end, depth, depth, max, false)->0;
            lemma_items_within(b, after, end, depth, max);
            let rest = items_spec(b, after, end, depth, max)->0;
            let it: ItemView = (prelude, Some((q + 1, close)), nested);
            assert(v == seq![it] + rest);
            assert forall|i: int| 0 <= i < v.len() implies item_within(#[trigger] v[i], pos, end) by {
                if i > 0 {
                    assert(v[i] == rest[i - 1]);
                }
            }
            assert forall|i: int, j: int| 0 <= i < j < v.len() implies item_end(#[trigger] v[i])
                <= item_start(#[trigger] v[j]) by {
                assert(v[j] == rest[j - 1]);
                assert(item_within(rest[j - 1], after, end));
                if i > 0 {
                    assert(v[i] == rest[i - 1]);
                }
            }
        } else if stop != -1 {
            lemma_items_within(b, q + 1, end, depth, max);
            let rest = items_spec(b, q + 1, end, depth, max)->0;
            let st = statement(prelude);
            assert(v == st + rest);
            assert forall|i: int| 0 <= i < v.len() implies item_within(#[trigger] v[i], pos, end) by {
                if i < st.len() {
                    assert(v[i] == st[i]);
                } else {
                    assert(v[i] == rest[i - st.len()]);
                }
            }
            assert forall|i: int, j: int| 0 <= i < j < v.len() implies item_end(#[trigger] v[i])
                <= item_start(#[trigger] v[j]) by {
                if i < st.len() {
                    assert(v[i] == st[i]);
                } else {
                    assert(v[i] == rest[i - st.len()]);
                }
                if j < st.len() {
                    assert(v[j] == st[j]);
                } else {
                    assert(v[j] == rest[j - st.len()]);
                    assert(item_within(rest[j - st.len()], q + 1, end));
                }
            }
        }
    }
}

/// A declaration lies inside `lo..hi`, its name before its value.
pub open spec fn decl_within(d: DeclView, lo: int, hi: int) -> bool {
    lo <= d.0.0 <= d.0.1 <= d.1.0 <= d.1.1 <= hi
}

proof fn lemma_decl_piece_within(b: Seq<u8>, from: int, to: int, colon: Option<int>)
    requires
        from <= to,
    ensures
        forall|i: int|
            0 <= i < decl_piece(b, from, to, colon).len() ==> decl_within(
                #[trigger] decl_piece(b, from, to, colon)[i],
                from,
                to,
            ),
        decl_piece(b, from, to, colon).len() <= 1,
{
    lemma_trim_within(b, from, to);
    let (f, t) = trim_spec(b, from, to);
    if f != t {
        if let Some(c) = colon {
            if c >= f && c < t {
                lemma_trim_within(b, f, c);
                lemma_trim_within(b, c + 1, t);
            }
        }
    }
}

/// The declarations of a block body lie inside the scanned range, in increasing order,
/// and no two of them overlap.
pub proof fn lemma_declarations_within(
    b: Seq<u8>,
    pos: int,
    end: int,
    piece: int,
    paren: int,
    colon: Option<int>,
)
    requires
        piece <= pos <= end,
    ensures
        ({
            let v = decl_scan(b, pos, end, piece, paren, colon);
            &&& forall|i: int| 0 <= i < v.len() ==> decl_within(#[trigger] v[i], piece, end)
            &&& forall|i: int, j: int|
                0 <= i < j < v.len() ==> (#[trigger] v[i]).1.1 <= (#[trigger] v[j]).0.0
        }),
    decreases end - pos,
{
    let v = decl_scan(b, pos, end, piece, paren, colon);
    if pos >= end {
        lemma_decl_piece_within(b, piece, end, colon);
        assert(v == decl_piece(b, piece, end, colon));
    } else if opaque_at(b, pos) {
        lemma_opaque_end(b, pos, end);
        lemma_declarations_within(b, opaque_end(b, pos, end), end, piece, paren, colon);
        assert(v == decl_scan(b, opaque_end(b, pos, end), end, piece, paren, colon));
    } else if b[pos] == 0x28 {
        lemma_declarations_within(b, pos + 1, end, piece, paren + 1, colon);
        assert(v == decl_scan(b, pos + 1, end, piece, paren + 1, colon));
    } else if b[pos] == 0x29 {
        lemma_declarations_within(
            b,
            pos + 1,
            end,
            piece,
            if paren > 0 {
                paren - 1
            } else {
                0
            },
            colon,
        );
        assert(v == decl_scan(
            b,
            pos + 1,
            end,
            piece,
            if paren > 0 {
                paren - 1
            } else {
                0
            },
            colon,
        ));
    } else if b[pos] == 0x3a && colon is None {
        lemma_declarations_within(b, pos + 1, end, piece, paren, Some(pos));
        assert(v == decl_scan(b, pos + 1, end, piece, paren, Some(pos)));
    } else if b[pos] == 0x3b && paren == 0 {
        let first = decl_piece(b, piece, pos, colon);
        let rest = decl_scan(b, pos + 1, end, pos + 1, paren, None);
        lemma_decl_piece_within(b, piece, pos, colon);
        lemma_declarations_within(b, pos + 1, end, pos + 1, paren, None);
        assert(v == first + rest);
        assert forall|i: int| 0 <= i < v.len() implies decl_within(#[trigger] v[i], piece, end) by {
            if i < first.len() {
                assert(v[i] == first[i]);
            } else {
                assert(v[i] == rest[i - first.len()]);
            }
        }
        assert forall|i: int, j: int| 0 <= i < j < v.len() implies (#[trigger] v[i]).1.1 <= (
        #[trigger] v[j]).0.0 by {
            if i < first.len() {
                assert(v[i] == first[i]);
            } else {
                assert(v[i] == rest[i - first.len()]);
            }
            if j < first.len() {
                assert(v[j] == first[j]);
            } else {
                assert(v[j] == rest[j - first.len()]);
                assert(decl_within(rest[j - first.len()], pos + 1, end));
            }
        }
    } else {
        lemma_declarations_within(b, pos + 1, end, piece, paren, colon);
        assert(v == decl_scan(b, pos + 1, end, piece, paren, colon));
    }
}

// ---------------------------------------------------------------------------------------
// The scanner
// ---------------------------------------------------------------------------------------

struct Scan<'a> {
    b: &'a [u8],
    pos: usize,
    end: usize,
}

impl Scan<'_> {
    spec fn ok(&self) -> bool {
        self.end <= self.b@.len() && self.end < usize::MAX
    }

    /// Skips a comment or a string starting at `pos`; returns true when it did.
    fn skip_opaque(&mut self) -> (r: bool)
        requires
            old(self).ok(),
            old(self).pos < old(self).end,
        ensures
            final(self).b == old(self).b,
            final(self).end == old(self).end,
            r == opaque_at(old(self).b@, old(self).pos as int),
            r ==> final(self).pos == opaque_end(old(self).b@, old(self).pos as int, old(self).end as int),
            !r ==> final(self).pos == old(self).pos,
    {
        let b = self.b;
        let end = self.end;
        let pos = self.pos;
        if b[pos] == 0x2f && pos + 1 < b.len() && b[pos + 1] == 0x2a {
            let mut i = pos + 2;
            while i < end && end - i > 1 && !(b[i] == 0x2a && b[i + 1] == 0x2f)
                invariant
                    pos + 2 <= i,
                    end <= b@.len(),
                    end < usize::MAX,
                    i <= end || i == pos + 2,
                    comment_close(b@, i as int, end as int) == comment_close(b@, pos + 2, end as int),
                decreases end - i,
            {
                i += 1;
            }
            self.pos = if i < end && end - i > 1 {
                i + 2
            } else {
                end
            };
            true
        } else if b[pos] == 0x22 || b[pos] == 0x27 {
            let q = b[pos];
            let mut i = pos + 1;
            while i < end && b[i] != q && b[i] != 10
                invariant
                    pos + 1 <= i <= end + 1,
                    end <= b@.len(),
                    end < usize::MAX,
                    q == b@[pos as int],
                    string_close(b@, i as int, end as int, q) == string_close(b@, pos + 1, end as int, q),
                decreases end + 1 - i,
            {
                i += if b[i] == 0x5c {
                    2
                } else {
                    1
                };
            }
            self.pos = if i < end {
                i + 1
            } else {
                end
            };
            true
        } else {
            false
        }
    }

    /// From just after an opening brace at `depth`, the index of its closing brace (or
    /// the end of input) and whether a nested block occurs inside.
    fn block_end(&mut self, depth: usize, max_depth: usize) -> (r: Result<(usize, bool), TooDeep>)
        requires
            old(self).ok(),
            old(self).pos <= old(self).end,
            depth + old(self).end < usize::MAX,
        ensures
            final(self).b == old(self).b,
            final(self).end == old(self).end,
            ({
                let s = block_end_spec(
                    old(self).b@,
                    old(self).pos as int,
                    old(self).end as int,
                    depth as int,
                    depth as int,
                    max_depth as int,
                    false,
                );
                match r {
                    Ok((close, nested)) => s == Some((close as int, final(self).pos as int, nested)),
                    Err(_) => s is None,
                }
            }),
            final(self).pos <= final(self).end,
    {
        let ghost start = self.pos;
        let mut d = depth;
        let mut nested = false;
        while self.pos < self.end
            invariant
                self.ok(),
                self.b == old(self).b,
                self.end == old(self).end,
                start <= self.pos <= self.end,
                start == old(self).pos,
                depth <= d <= depth + self.pos,
                depth + self.end < usize::MAX,
                block_end_spec(self.b@, self.pos as int, self.end as int, d as int, depth as int, max_depth as int, nested)
                    == block_end_spec(self.b@, start as int, self.end as int, depth as int, depth as int, max_depth as int, false),
            decreases self.end - self.pos,
        {
            let p = self.pos;
            if self.skip_opaque() {
                proof {
                    lemma_opaque_end(self.b@, p as int, self.end as int);
                }
                continue;
            }
            let c = self.b[self.pos];
            if c == 0x7b {
                d += 1;
                nested = true;
                if d > max_depth {
                    return Err(TooDeep);
                }
            } else if c == 0x7d {
                if d == depth {
                    let close = self.pos;
                    self.pos += 1;
                    return Ok((close, nested));
                }
                d -= 1;
            }
            self.pos += 1;
        }
        Ok((self.end, nested))
    }
}

fn trim(b: &[u8], s: usize, e: usize) -> (r: (usize, usize))
    requires
        e <= b@.len(),
    ensures
        r.0 as int == trim_spec(b@, s as int, e as int).0,
        r.1 as int == trim_spec(b@, s as int, e as int).1,
        s <= e ==> s <= r.0 <= r.1 <= e,
        s > e ==> r == (s, e),
{
    let mut s = s;
    let mut e = e;
    let ghost s0 = s;
    let ghost e0 = e;
    while s < e && is_ascii_ws_byte(b[s])
        invariant
            e == e0,
            e <= b@.len(),
            s0 <= s,
            s0 <= e0 ==> s <= e0,
            s0 > e0 ==> s == s0,
            trim_lo(b@, s as int, e as int) == trim_lo(b@, s0 as int, e0 as int),
        decreases e - s,
    {
        s += 1;
    }
    while e > s && is_ascii_ws_byte(b[e - 1])
        invariant
            s == trim_lo(b@, s0 as int, e0 as int),
            e <= e0 <= b@.len(),
            s0 <= e0 ==> s <= e,
            s0 > e0 ==> e == e0 && s == s0,
            trim_hi(b@, s as int, e as int) == trim_hi(b@, s as int, e0 as int),
        decreases e,
    {
        e -= 1;
    }
    (s, e)
}

pub open spec fn item_view(it: (Item, bool)) -> ItemView {
    (
        (it.0.prelude.0 as int, it.0.prelude.1 as int),
        match it.0.body {
            Some((x, y)) => Some((x as int, y as int)),
            None => None,
        },
        it.1,
    )
}

pub open spec fn items_view(v: Seq<(Item, bool)>) -> Seq<ItemView> {
    v.map_values(|it: (Item, bool)| item_view(it))
}

/// The items of `src[start..end]`, a level whose blocks open at `depth` (1 at the top).
/// A block opening beyond `max_depth` fails the whole stylesheet.
pub fn items(src: &str, start: usize, end: usize, depth: usize, max_depth: usize) -> (r: Result<
    Vec<(Item, bool)>,
    TooDeep,
>)
    requires
        end <= src.spec_bytes().len(),
        depth + end < usize::MAX,
    ensures
        ({
            let s = items_spec(src.spec_bytes(), start as int, end as int, depth as int, max_depth as int);
            match r {
                Ok(v) => s == Some(items_view(v@)),
                Err(_) => s is None,
            }
        }),
{
    let mut s = Scan { b: src.as_bytes(), pos: start, end };
    let ghost b = s.b@;
    let mut out: Vec<(Item, bool)> = Vec::new();
    let ghost total = items_spec(b, start as int, end as int, depth as int, max_depth as int);
    loop
        invariant
            s.ok(),
            s.b@ == b,
            b == src.spec_bytes(),
            s.end == end,
            depth + end < usize::MAX,
            s.pos >= start,
            total == items_spec(b, start as int, end as int, depth as int, max_depth as int),
            total == match items_spec(b, s.pos as int, end as int, depth as int, max_depth as int) {
                None => None,
                Some(rest) => Some(items_view(out@) + rest),
            },
        ensures
            total == Some(items_view(out@)),
        decreases end + 1 - s.pos,
    {
        let ghost pos0 = s.pos;
        // Skip whitespace and comments before a prelude.
        while s.pos < s.end
            invariant
                s.ok(),
                s.b@ == b,
                s.end == end,
                pos0 <= s.pos,
                lead_skip(b, s.pos as int, end as int) == lead_skip(b, pos0 as int, end as int),
            ensures
                s.ok(),
                s.b@ == b,
                s.end == end,
                pos0 <= s.pos,
                lead_skip(b, pos0 as int, end as int) == s.pos,
            decreases end - s.pos,
        {
            if is_ascii_ws_byte(s.b[s.pos]) {
                s.pos += 1;
            } else if s.b[s.pos] == 0x2f && s.pos + 1 < s.b.len() && s.b[s.pos + 1] == 0x2a {
                let p = s.pos;
                s.skip_opaque();
                proof {
                    lemma_opaque_end(b, p as int, end as int);
                }
            } else {
                break;
            }
        }
        if s.pos >= s.end {
            proof {
                assert(items_spec(b, pos0 as int, end as int, depth as int, max_depth as int) == Some(Seq::<ItemView>::empty()));
                assert(items_view(out@) + Seq::<ItemView>::empty() =~= items_view(out@));
            }
            break;
        }
        let p0 = s.pos;
        let mut paren: usize = 0;
        let mut stop: u8 = 0;
        let mut stopped = false;
        while s.pos < s.end
            invariant_except_break
                !stopped,
            invariant
                s.ok(),
                s.b@ == b,
                s.end == end,
                p0 <= s.pos <= end,
                paren <= s.pos,
                !stopped ==> prelude_stop(b, s.pos as int, end as int, paren as int) == prelude_stop(b, p0 as int, end as int, 0),
                stopped ==> s.pos < end && prelude_stop(b, p0 as int, end as int, 0) == (s.pos as int, stop as int),
            ensures
                !stopped ==> s.pos >= end && prelude_stop(b, p0 as int, end as int, 0) == (s.pos as int, -1int),
            decreases end - s.pos,
        {
            let p = s.pos;
            if s.skip_opaque() {
                proof {
                    lemma_opaque_end(b, p as int, end as int);
                }
                continue;
            }
            let c = s.b[s.pos];
            if c == 0x28 || c == 0x5b {
                paren += 1;
            } else if c == 0x29 || c == 0x5d {
                paren = if paren > 0 {
                    paren - 1
                } else {
                    0
                };
            } else if c == 0x7b || (c == 0x3b && paren == 0) || c == 0x7d {
                stop = c;
                stopped = true;
                break;
            }
            s.pos += 1;
        }
        proof {
            lemma_prelude_stop(b, p0 as int, end as int, 0);
            lemma_lead_skip(b, pos0 as int, end as int);
        }
        let prelude = trim(s.b, p0, s.pos);
        if stopped && stop == 0x7b {
            if depth > max_depth {
                assert(items_spec(b, pos0 as int, end as int, depth as int, max_depth as int) is None);
                return Err(TooDeep);
            }
            s.pos += 1;
            let body_start = s.pos;
            let ghost q = body_start - 1;
            let (close, nested) = match s.block_end(depth, max_depth) {
                Ok(x) => x,
                Err(e) => {
                    return Err(e);
                },
            };
            proof {
                lemma_block_end(b, q + 1, end as int, depth as int, depth as int, max_depth as int, false);
            }
            out.push((Item { prelude, body: Some((body_start, close)) }, nested));
            proof {
                let rest = items_spec(b, s.pos as int, end as int, depth as int, max_depth as int);
                if let Some(r) = rest {
                    assert(items_view(out@) =~= items_view(out@.drop_last()) + seq![item_view(out@.last())]);
                }
            }
        } else if stopped {
            s.pos += 1;
            if prelude.1 > prelude.0 {
                out.push((Item { prelude, body: None }, false));
                proof {
                    assert(items_view(out@) =~= items_view(out@.drop_last()) + seq![item_view(out@.last())]);
                }
            }
        } else {
            if prelude.1 > prelude.0 {
                out.push((Item { prelude, body: None }, false));
                proof {
                    assert(items_view(out@) =~= items_view(out@.drop_last()) + seq![item_view(out@.last())]);
                }
            }
            proof {
                assert(items_spec(b, s.pos as int, end as int, depth as int, max_depth as int) == Some(Seq::<ItemView>::empty()));
                assert(items_view(out@) + Seq::<ItemView>::empty() =~= items_view(out@));
            }
        }
    }
    Ok(out)
}

// ---------------------------------------------------------------------------------------
// Declarations
// ---------------------------------------------------------------------------------------

/// A declaration range pair: the name, then the value.
pub type DeclView = ((int, int), (int, int));

/// The declaration `b[from..to]` with the first top-level `:` at `colon`, trimmed; none
/// when it is blank. A piece without `:` has an empty name.
pub open spec fn decl_piece(b: Seq<u8>, from: int, to: int, colon: Option<int>) -> Seq<DeclView> {
    let (f, t) = trim_spec(b, from, to);
    if f == t {
        Seq::<DeclView>::empty()
    } else {
        match colon {
            Some(c) if c >= f && c < t => seq![(trim_spec(b, f, c), trim_spec(b, c + 1, t))],
            _ => seq![((f, f), (f, t))],
        }
    }
}

/// The declarations of `b[pos..end]`, the current one starting at `piece`, with bracket
/// depth `paren` and its first `:` at `colon`.
pub open spec fn decl_scan(
    b: Seq<u8>,
    pos: int,
    end: int,
    piece: int,
    paren: int,
    colon: Option<int>,
) -> Seq<DeclView>
    decreases end - pos,
{
    if pos >= end {
        decl_piece(b, piece, end, colon)
    } else if opaque_at(b, pos) {
        proof {
            lemma_opaque_end(b, pos, end);
        }
        decl_scan(b, opaque_end(b, pos, end), end, piece, paren, colon)
    } else if b[pos] == 0x28 {
        decl_scan(b, pos + 1, end, piece, paren + 1, colon)
    } else if b[pos] == 0x29 {
        decl_scan(
            b,
            pos + 1,
            end,
            piece,
            if paren > 0 {
                paren - 1
            } else {
                0
            },
            colon,
        )
    } else if b[pos] == 0x3a && colon is None {
        decl_scan(b, pos + 1, end, piece, paren, Some(pos))
    } else if b[pos] == 0x3b && paren == 0 {
        decl_piece(b, piece, pos, colon) + decl_scan(b, pos + 1, end, pos + 1, paren, None)
    } else {
        decl_scan(b, pos + 1, end, piece, paren, colon)
    }
}

fn push_decl(
    b: &[u8],
    out: &mut Vec<((usize, usize), (usize, usize))>,
    from: usize,
    to: usize,
    colon: Option<usize>,
)
    requires
        to <= b@.len(),
    ensures
        decl_view(final(out)@) == decl_view(old(out)@) + decl_piece(
            b@,
            from as int,
            to as int,
            match colon {
                Some(c) => Some(c as int),
                None => None,
            },
        ),
{
    let (f, t) = trim(b, from, to);
    if f == t {
        assert(decl_view(out@) + Seq::<DeclView>::empty() =~= decl_view(out@));
        return;
    }
    let ghost prev = out@;
    match colon {
        Some(c) => {
            if c >= f && c < t {
                let name = trim(b, f, c);
                let value = trim(b, c + 1, t);
                out.push((name, value));
            } else {
                out.push(((f, f), (f, t)));
            }
        },
        None => {
            out.push(((f, f), (f, t)));
        },
    }
    assert(decl_view(out@) =~= decl_view(prev) + seq![decl_view(out@).last()]);
}

pub open spec fn decl_view(v: Seq<((usize, usize), (usize, usize))>) -> Seq<DeclView> {
    v.map_values(
        |d: ((usize, usize), (usize, usize))|
            ((d.0.0 as int, d.0.1 as int), (d.1.0 as int, d.1.1 as int)),
    )
}

/// Declarations of a block body: `(name range, value range)` pairs split at top-level
/// `;`, each trimmed; a piece without `:` has an empty name.
pub fn declarations(src: &str, start: usize, end: usize) -> (r: Vec<((usize, usize), (usize, usize))>)
    requires
        end <= src.spec_bytes().len(),
        end < usize::MAX,
    ensures
        decl_view(r@) == decl_scan(src.spec_bytes(), start as int, end as int, start as int, 0, None),
{
    let b = src.as_bytes();
    let mut s = Scan { b, pos: start, end };
    let mut out: Vec<((usize, usize), (usize, usize))> = Vec::new();
    let mut piece = start;
    let mut paren: usize = 0;
    let mut colon: Option<usize> = None;
    let ghost total = decl_scan(b@, start as int, end as int, start as int, 0, None);
    let ghost cv = |c: Option<usize>| -> Option<int> {
        match c {
            Some(x) => Some(x as int),
            None => None,
        }
    };
    while s.pos < s.end
        invariant
            s.ok(),
            s.b == b,
            s.end == end,
            b@ == src.spec_bytes(),
            start <= s.pos || s.pos == start,
            piece <= s.pos || piece == start,
            start <= end ==> piece <= end,
            paren <= s.pos,
            colon matches Some(c) ==> c < s.pos,
            total == decl_scan(b@, start as int, end as int, start as int, 0, None),
            total == decl_view(out@) + decl_scan(
                b@,
                s.pos as int,
                end as int,
                piece as int,
                paren as int,
                match colon {
                    Some(c) => Some(c as int),
                    None => None,
                },
            ),
        decreases end - s.pos,
    {
        let p = s.pos;
        if s.skip_opaque() {
            proof {
                lemma_opaque_end(b@, p as int, end as int);
            }
            continue;
        }
        let c = b[s.pos];
        if c == 0x28 {
            paren += 1;
        } else if c == 0x29 {
            paren = if paren > 0 {
                paren - 1
            } else {
                0
            };
        } else if c == 0x3a && colon.is_none() {
            colon = Some(s.pos);
        } else if c == 0x3b && paren == 0 {
            let ghost prev = decl_view(out@);
            push_decl(b, &mut out, piece, s.pos, colon);
            proof {
                assert(total == decl_view(out@) + decl_scan(b@, s.pos + 1, end as int, s.pos + 1, 0, None));
            }
            piece = s.pos + 1;
            colon = None;
        }
        s.pos += 1;
    }
    push_decl(b, &mut out, piece, end, colon);
    proof {
        assert(decl_scan(
            b@,
            s.pos as int,
            end as int,
            piece as int,
            paren as int,
            match colon {
                Some(c) => Some(c as int),
                None => None,
            },
        ) == decl_piece(
            b@,
            piece as int,
            end as int,
            match colon {
                Some(c) => Some(c as int),
                None => None,
            },
        ));
    }
    out
}

// ---------------------------------------------------------------------------------------
// Selector text
// ---------------------------------------------------------------------------------------

/// `u8::is_ascii_whitespace` on a character.
pub open spec fn is_ws_char(c: char) -> bool {
    c == ' ' || c == '\t' || c == '\n' || c == '\x0c' || c == '\r'
}

/// The `*` of the `*/` closing a comment whose text starts at `j`, or the last position.
pub open spec fn comment_close_chars(cs: Seq<char>, j: int) -> int
    decreases cs.len() - j,
{
    if j + 1 < cs.len() && !(cs[j] == '*' && cs[j + 1] == '/') {
        comment_close_chars(cs, j + 1)
    } else {
        j
    }
}

pub proof fn lemma_comment_close_chars(cs: Seq<char>, j: int)
    ensures
        comment_close_chars(cs, j) >= j,
    decreases cs.len() - j,
{
    if j + 1 < cs.len() && !(cs[j] == '*' && cs[j + 1] == '/') {
        lemma_comment_close_chars(cs, j + 1);
    }
}

/// `cs` from `i` on with comments removed and whitespace runs collapsed to one space;
/// `space` is whether a gap is pending and `started` whether anything was written.
pub open spec fn norm_from(cs: Seq<char>, i: int, space: bool, started: bool) -> Seq<char>
    decreases cs.len() - i,
{
    if i < 0 || i >= cs.len() {
        Seq::<char>::empty()
    } else if cs[i] == '/' && i + 1 < cs.len() && cs[i + 1] == '*' {
        let j = comment_close_chars(cs, i + 2);
        proof {
            lemma_comment_close_chars(cs, i + 2);
        }
        norm_from(
            cs,
            if j + 2 <= cs.len() {
                j + 2
            } else {
                cs.len() as int
            },
            true,
            started,
        )
    } else if is_ws_char(cs[i]) {
        norm_from(cs, i + 1, true, started)
    } else {
        (if space && started {
            seq![' ']
        } else {
            Seq::<char>::empty()
        }) + seq![cs[i]] + norm_from(cs, i + 1, false, true)
    }
}

/// `text` with comments removed and whitespace runs collapsed to one space.
pub fn normalise(text: &str) -> (r: String)
    ensures
        r@ == norm_from(text@, 0, false, false),
{
    let cs = chars_of(text);
    let n = cs.len();
    let mut out = String::new();
    let mut i: usize = 0;
    let mut space = false;
    while i < n
        invariant
            n == cs@.len(),
            cs@ == text@,
            i <= n,
            norm_from(cs@, 0, false, false) == out@ + norm_from(cs@, i as int, space, out@.len() > 0),
        decreases n - i,
    {
        let ghost prev = out@;
        if cs[i] == '/' && n - i > 1 && cs[i + 1] == '*' {
            let mut j = i + 2;
            while j < n && n - j > 1 && !(cs[j] == '*' && cs[j + 1] == '/')
                invariant
                    i + 2 <= j,
                    n == cs@.len(),
                    j <= n || j == i + 2,
                    comment_close_chars(cs@, j as int) == comment_close_chars(cs@, i + 2),
                decreases n - j,
            {
                j += 1;
            }
            i = if j <= n && n - j >= 2 {
                j + 2
            } else {
                n
            };
            space = true;
            continue;
        }
        let c = cs[i];
        if c == ' ' || c == '\t' || c == '\n' || c == '\x0c' || c == '\r' {
            space = true;
            i += 1;
            continue;
        }
        let st = out.as_str();
        let started = st.as_bytes().len() > 0;
        proof {
            lemma_valid(st);
            if out@.len() > 0 {
                crate::text::lemma_encode_len(out@);
            } else {
                assert(out@ =~= Seq::<char>::empty());
                assert(encode_utf8(out@) =~= Seq::<u8>::empty());
            }
        }
        let gap = space && started;
        if gap {
            push_char(&mut out, ' ');
        }
        space = false;
        push_char(&mut out, c);
        proof {
            assert(out@ =~= prev + (if gap {
                seq![' ']
            } else {
                Seq::<char>::empty()
            }) + seq![c]);
        }
        i += 1;
    }
    out
}

/// The pieces of `cs` from `i` on, split at commas outside brackets and quotes, each
/// trimmed; the current piece starts at `from`.
pub open spec fn split_from(
    cs: Seq<char>,
    i: int,
    depth: int,
    quote: Option<char>,
    from: int,
) -> Seq<Seq<char>>
    decreases cs.len() - i,
{
    if i < 0 || i >= cs.len() {
        seq![trim_ws(cs.subrange(from, cs.len() as int))]
    } else {
        let c = cs[i];
        match quote {
            Some(q) => if c == q {
                split_from(cs, i + 1, depth, None, from)
            } else {
                split_from(cs, i + 1, depth, quote, from)
            },
            None => if c == '"' || c == '\'' {
                split_from(cs, i + 1, depth, Some(c), from)
            } else if c == '(' || c == '[' {
                split_from(cs, i + 1, depth + 1, None, from)
            } else if c == ')' || c == ']' {
                split_from(
                    cs,
                    i + 1,
                    if depth > 0 {
                        depth - 1
                    } else {
                        0
                    },
                    None,
                    from,
                )
            } else if c == ',' && depth == 0 {
                seq![trim_ws(cs.subrange(from, i))] + split_from(cs, i + 1, depth, None, i + 1)
            } else {
                split_from(cs, i + 1, depth, None, from)
            },
        }
    }
}

pub open spec fn str_views(v: Seq<&str>) -> Seq<Seq<char>> {
    v.map_values(|t: &str| t@)
}

/// The trimmed piece of `text` between character indices `a` and `b`, given its byte
/// offsets.
fn trimmed_piece<'a>(text: &'a str, cs: &Vec<char>, a: usize, b: usize, x: usize, y: usize) -> (r:
    &'a str)
    requires
        cs@ == text@,
        a <= b <= cs@.len(),
        x == encode_utf8(cs@.take(a as int)).len(),
        y == encode_utf8(cs@.take(b as int)).len(),
    ensures
        r@ == trim_ws(cs@.subrange(a as int, b as int)),
{
    proof {
        lemma_valid(text);
        crate::text::lemma_prefix_boundary(cs@, a as int);
        crate::text::lemma_prefix_boundary(cs@, b as int);
        crate::text::lemma_encode_subrange(cs@, a as int, b as int);
        crate::text::lemma_encode_concat(cs@.take(a as int), cs@.subrange(a as int, b as int));
        assert(cs@.take(a as int) + cs@.subrange(a as int, b as int) =~= cs@.take(b as int));
    }
    let piece = crate::text::slice(text, x, y);
    proof {
        encode_utf8_decode_utf8(cs@.subrange(a as int, b as int));
        assert(text.spec_bytes() == encode_utf8(cs@));
        assert(piece@ == cs@.subrange(a as int, b as int));
    }
    trim_str(piece)
}

/// Splits a selector list at top-level commas.
pub fn split_list<'a>(text: &'a str) -> (r: Vec<&'a str>)
    ensures
        str_views(r@) == split_from(text@, 0, 0, None, 0),
{
    let cs = chars_of(text);
    let n = cs.len();
    let total = text.as_bytes().len();
    let mut out: Vec<&'a str> = Vec::new();
    let mut depth: usize = 0;
    let mut quote: Option<char> = None;
    let mut from: usize = 0;
    let mut from_b: usize = 0;
    let mut off: usize = 0;
    let mut i: usize = 0;
    proof {
        lemma_valid(text);
        assert(cs@.take(0) =~= Seq::<char>::empty());
        assert(encode_utf8(Seq::<char>::empty()) =~= Seq::<u8>::empty());
    }
    while i < n
        invariant
            n == cs@.len(),
            cs@ == text@,
            total == encode_utf8(cs@).len(),
            i <= n,
            from <= i,
            depth <= i,
            off == encode_utf8(cs@.take(i as int)).len(),
            from_b == encode_utf8(cs@.take(from as int)).len(),
            split_from(cs@, 0, 0, None, 0) == str_views(out@) + split_from(
                cs@,
                i as int,
                depth as int,
                quote,
                from as int,
            ),
        decreases n - i,
    {
        let c = cs[i];
        let ghost prev = str_views(out@);
        proof {
            crate::text::lemma_encode_concat(cs@.take(i as int), seq![c]);
            assert(cs@.take(i as int) + seq![c] =~= cs@.take(i + 1));
            assert(encode_utf8(seq![c]) == encode_scalar(seq![c][0] as u32) + encode_utf8(
                seq![c].drop_first(),
            ));
            assert(seq![c].drop_first() =~= Seq::<char>::empty());
            assert(encode_utf8(Seq::<char>::empty()) =~= Seq::<u8>::empty());
            crate::text::lemma_prefix_boundary(cs@, i + 1);
        }
        match quote {
            Some(q) => {
                if c == q {
                    quote = None;
                }
            },
            None => {
                if c == '"' || c == '\'' {
                    quote = Some(c);
                } else if c == '(' || c == '[' {
                    depth += 1;
                } else if c == ')' || c == ']' {
                    depth = if depth > 0 {
                        depth - 1
                    } else {
                        0
                    };
                } else if c == ',' && depth == 0 {
                    let t = trimmed_piece(text, &cs, from, i, from_b, off);
                    out.push(t);
                    proof {
                        assert(str_views(out@) =~= prev + seq![t@]);
                    }
                    from = i + 1;
                    from_b = off + 1;
                    proof {
                        assert(encode_scalar(c as u32).len() == 1);
                    }
                }
            },
        }
        off = off + crate::text::utf8_len(c);
        i += 1;
    }
    let ghost prev = str_views(out@);
    proof {
        assert(cs@.take(n as int) =~= cs@);
    }
    let t = trimmed_piece(text, &cs, from, n, from_b, total);
    out.push(t);
    proof {
        assert(str_views(out@) =~= prev + seq![t@]);
    }
    out
}

} // verus!
