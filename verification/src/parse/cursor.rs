//! Source positions and a byte cursor shared by the hand-written parsers.
//!
//! Spans use a 1-based line, a 1-based column counted in Unicode scalar values, and
//! UTF-8 byte offsets.

use vstd::prelude::*;
use vstd::string::StringSliceAdditionalSpecFns;
use vstd::std_specs::iter::IteratorSpec;
use vstd::utf8::*;

use crate::diag::Span;
use crate::text::{
    char_count, is_unicode_ws, is_whitespace, lemma_boundary_after_ascii, lemma_boundary_at,
    lemma_next_boundary, lemma_valid, slice, str_get, utf8_len,
};

verus! {

broadcast use vstd::utf8::group_utf8_lib;

// ---------------------------------------------------------------------------------------
// The model: lines of a byte sequence
// ---------------------------------------------------------------------------------------

/// Number of line feeds among the first `n` bytes.
pub open spec fn count_nl(b: Seq<u8>, n: nat) -> nat
    decreases n,
{
    if n == 0 {
        0
    } else {
        count_nl(b, (n - 1) as nat) + if b[n - 1] == 10 {
            1nat
        } else {
            0nat
        }
    }
}

/// Offsets at which lines start among the first `n` bytes: 0, and one past every line feed.
pub open spec fn starts_of(b: Seq<u8>, n: nat) -> Seq<usize>
    decreases n,
{
    if n == 0 {
        seq![0usize]
    } else {
        starts_of(b, (n - 1) as nat) + if b[n - 1] == 10 {
            seq![n as usize]
        } else {
            Seq::<usize>::empty()
        }
    }
}

/// Start of the line holding offset `i`: just past the last line feed before `i`, or 0.
pub open spec fn line_start_of(b: Seq<u8>, i: nat) -> nat
    decreases i,
{
    if i == 0 {
        0
    } else if b[i - 1] == 10 {
        i
    } else {
        line_start_of(b, (i - 1) as nat)
    }
}

/// Start of the line after the one holding offset `i`: just past the first line feed at
/// or after `i`, or the end of input.
pub open spec fn next_line_of(b: Seq<u8>, i: nat) -> nat
    decreases b.len() - i,
{
    if i >= b.len() {
        b.len()
    } else if b[i as int] == 10 {
        i + 1
    } else {
        next_line_of(b, i + 1)
    }
}

/// The line feed ending the line holding offset `i`, or the end of input.
pub open spec fn eol_of(b: Seq<u8>, i: int) -> int
    decreases b.len() - i,
{
    if i >= b.len() {
        b.len() as int
    } else if b[i] == 10 {
        i
    } else {
        eol_of(b, i + 1)
    }
}

/// `i` moved back onto the nearest character boundary at or before it.
pub open spec fn clamp_spec(b: Seq<u8>, i: nat) -> nat
    decreases i,
{
    if i == 0 {
        0
    } else if is_char_boundary(b, i as int) {
        i
    } else {
        clamp_spec(b, (i - 1) as nat)
    }
}

/// `byte` clamped into `b` and back onto a character boundary.
pub open spec fn clamped(b: Seq<u8>, byte: usize) -> nat {
    clamp_spec(
        b,
        if byte <= b.len() {
            byte as nat
        } else {
            b.len()
        },
    )
}

pub open spec fn sat_u32(v: int) -> u32 {
    if v <= u32::MAX {
        v as u32
    } else {
        u32::MAX
    }
}

/// 1-based line and column of the offset `c` (already clamped).
pub open spec fn line_col_at(b: Seq<u8>, c: nat) -> (u32, u32) {
    (
        sat_u32((count_nl(b, c) + 1) as int),
        sat_u32(1 + decode_utf8(b.subrange(line_start_of(b, c) as int, c as int)).len() as int),
    )
}

/// Space, tab or carriage return.
pub open spec fn is_hws(b: u8) -> bool {
    b == 0x20 || b == 0x09 || b == 0x0d
}

/// The offset after the run of spaces, tabs and carriage returns starting at `i`.
pub open spec fn hws_end(b: Seq<u8>, i: int) -> int
    decreases b.len() - i,
{
    if 0 <= i < b.len() && is_hws(b[i]) {
        hws_end(b, i + 1)
    } else {
        i
    }
}

/// Only spaces, tabs and carriage returns stand between the line start and offset `i`.
pub open spec fn at_line_start_spec(b: Seq<u8>, i: int) -> bool
    decreases i,
{
    if i <= 0 {
        true
    } else if is_hws(b[i - 1]) {
        at_line_start_spec(b, i - 1)
    } else {
        b[i - 1] == 10
    }
}

/// The bytes from `pos` to the end, or nothing when `pos` is past the end or inside a scalar.
pub open spec fn rest_bytes(b: Seq<u8>, pos: int) -> Seq<u8> {
    if 0 <= pos <= b.len() && is_char_boundary(b, pos) {
        b.subrange(pos, b.len() as int)
    } else {
        Seq::<u8>::empty()
    }
}

/// The characters from `pos` to the end.
pub open spec fn rest_chars(b: Seq<u8>, pos: int) -> Seq<char> {
    decode_utf8(rest_bytes(b, pos))
}

/// Number of leading whitespace characters.
pub open spec fn ws_run(cs: Seq<char>) -> nat
    decreases cs.len(),
{
    if cs.len() > 0 && is_unicode_ws(cs[0]) {
        1 + ws_run(cs.drop_first())
    } else {
        0
    }
}

// ---------------------------------------------------------------------------------------
// Lemmas on the model
// ---------------------------------------------------------------------------------------

proof fn lemma_starts_shape(b: Seq<u8>, n: nat)
    requires
        n <= usize::MAX,
    ensures
        starts_of(b, n).len() == count_nl(b, n) + 1,
        starts_of(b, n)[0] == 0,
        forall|k: int| 0 <= k < starts_of(b, n).len() ==> #[trigger] starts_of(b, n)[k] <= n,
        forall|j: int, k: int|
            0 <= j < k < starts_of(b, n).len() ==> starts_of(b, n)[j] < starts_of(b, n)[k],
        forall|k: int|
            1 <= k < starts_of(b, n).len() ==> #[trigger] b[starts_of(b, n)[k] - 1] == 10,
    decreases n,
{
    if n > 0 {
        let p = starts_of(b, (n - 1) as nat);
        lemma_starts_shape(b, (n - 1) as nat);
        let s = starts_of(b, n);
        if b[n - 1] == 10 {
            assert(s == p + seq![n as usize]);
            assert(s[p.len() as int] == n);
            assert forall|k: int| 0 <= k < s.len() implies #[trigger] s[k] <= n by {
                if k < p.len() {
                    assert(s[k] == p[k]);
                }
            }
            assert forall|j: int, k: int| 0 <= j < k < s.len() implies s[j] < s[k] by {
                assert(s[j] == p[j]);
                if k < p.len() {
                    assert(s[k] == p[k]);
                }
            }
            assert forall|k: int| 1 <= k < s.len() implies #[trigger] b[s[k] - 1] == 10 by {
                if k < p.len() {
                    assert(s[k] == p[k]);
                }
            }
        } else {
            assert(s =~= p);
        }
    }
}

proof fn lemma_starts_prefix(b: Seq<u8>, c: nat, n: nat)
    requires
        c <= n <= usize::MAX,
    ensures
        starts_of(b, c).len() <= starts_of(b, n).len(),
        starts_of(b, n).subrange(0, starts_of(b, c).len() as int) == starts_of(b, c),
        forall|k: int|
            starts_of(b, c).len() <= k < starts_of(b, n).len() ==> #[trigger] starts_of(b, n)[k]
                > c,
    decreases n,
{
    if n == c {
        assert(starts_of(b, n).subrange(0, starts_of(b, c).len() as int) =~= starts_of(b, c));
    } else {
        let p = starts_of(b, (n - 1) as nat);
        let s = starts_of(b, n);
        let l = starts_of(b, c).len();
        lemma_starts_prefix(b, c, (n - 1) as nat);
        if b[n - 1] == 10 {
            assert(s == p + seq![n as usize]);
            assert(s.subrange(0, l as int) =~= p.subrange(0, l as int));
            assert forall|k: int| l <= k < s.len() implies #[trigger] s[k] > c by {
                if k < p.len() {
                    assert(s[k] == p[k]);
                }
            }
        } else {
            assert(s =~= p);
        }
    }
}

proof fn lemma_starts_last(b: Seq<u8>, c: nat)
    requires
        c <= usize::MAX,
    ensures
        starts_of(b, c)[count_nl(b, c) as int] == line_start_of(b, c),
    decreases c,
{
    lemma_starts_shape(b, c);
    if c > 0 {
        lemma_starts_last(b, (c - 1) as nat);
        lemma_starts_shape(b, (c - 1) as nat);
    }
}

proof fn lemma_starts_next(b: Seq<u8>, c: nat)
    requires
        c <= b.len() <= usize::MAX,
    ensures
        ({
            let s = starts_of(b, b.len());
            let l = starts_of(b, c).len();
            if l < s.len() {
                s[l as int] == next_line_of(b, c)
            } else {
                next_line_of(b, c) == b.len()
            }
        }),
    decreases b.len() - c,
{
    lemma_starts_prefix(b, c, b.len());
    if c < b.len() {
        lemma_starts_next(b, c + 1);
        lemma_starts_prefix(b, c + 1, b.len());
        let s = starts_of(b, b.len());
        let l = starts_of(b, c).len();
        if b[c as int] == 10 {
            assert(starts_of(b, c + 1) == starts_of(b, c) + seq![(c + 1) as usize]);
            assert(s.subrange(0, (l + 1) as int)[l as int] == s[l as int]);
        } else {
            assert(starts_of(b, c + 1) =~= starts_of(b, c));
        }
    }
}

proof fn lemma_line_start_bounds(b: Seq<u8>, c: nat)
    requires
        c <= b.len(),
    ensures
        line_start_of(b, c) <= c,
        line_start_of(b, c) == 0 || b[line_start_of(b, c) - 1] == 10,
    decreases c,
{
    if c > 0 {
        lemma_line_start_bounds(b, (c - 1) as nat);
    }
}

proof fn lemma_clamp(b: Seq<u8>, i: nat)
    requires
        valid_utf8(b),
        i <= b.len(),
    ensures
        clamp_spec(b, i) <= i,
        is_char_boundary(b, clamp_spec(b, i) as int),
        clamp_spec(b, clamp_spec(b, i)) == clamp_spec(b, i),
    decreases i,
{
    is_char_boundary_start_end_of_seq(b);
    if i > 0 && !is_char_boundary(b, i as int) {
        lemma_clamp(b, (i - 1) as nat);
    }
}

pub proof fn lemma_rest_chars(b: Seq<u8>, pos: int)
    requires
        valid_utf8(b),
    ensures
        valid_utf8(rest_bytes(b, pos)),
        encode_utf8(rest_chars(b, pos)) == rest_bytes(b, pos),
{
    if 0 <= pos <= b.len() && is_char_boundary(b, pos) {
        valid_utf8_split(b, pos);
    }
}

// ---------------------------------------------------------------------------------------
// LineIndex
// ---------------------------------------------------------------------------------------

fn to_u32(v: usize) -> (r: u32)
    ensures
        r == sat_u32(v as int),
{
    if v <= 0xffff_ffffusize {
        v as u32
    } else {
        u32::MAX
    }
}

/// The span `LineIndex::span` gives for a byte range of `b`: both ends clamped to the
/// text, the end no earlier than the start, with the start's line and column.
pub open spec fn span_spec(b: Seq<u8>, start: usize, end: usize) -> Span {
    let s = clamped(b, start);
    let e = clamped(
        b,
        if end >= s {
            end
        } else {
            s as usize
        },
    );
    Span {
        line: line_col_at(b, s).0,
        column: line_col_at(b, s).1,
        byte_start: sat_u32(s as int),
        byte_end: sat_u32(e as int),
    }
}

/// Maps byte offsets to lines and columns.
pub struct LineIndex<'a> {
    src: &'a str,
    starts: Vec<usize>,
}

impl<'a> LineIndex<'a> {
    #[verifier::type_invariant]
    spec fn inv(self) -> bool {
        self.starts@ == starts_of(self.src.spec_bytes(), self.src.spec_bytes().len())
    }

    /// The indexed source text.
    pub closed spec fn text(&self) -> &'a str {
        self.src
    }

    pub fn new(src: &'a str) -> (r: Self)
        ensures
            r.text() == src,
    {
        let bytes = src.as_bytes();
        let mut starts: Vec<usize> = Vec::new();
        starts.push(0);
        let mut i: usize = 0;
        while i < bytes.len()
            invariant
                0 <= i <= bytes@.len(),
                bytes@ == src.spec_bytes(),
                starts@ == starts_of(bytes@, i as nat),
            decreases bytes@.len() - i,
        {
            if bytes[i] == 10 {
                starts.push(i + 1);
            }
            i += 1;
            proof {
                if bytes@[i - 1] == 10 {
                    assert(starts@ == starts_of(bytes@, i as nat));
                } else {
                    assert(starts@ =~= starts_of(bytes@, i as nat));
                }
            }
        }
        LineIndex { src, starts }
    }

    pub fn src(&self) -> (r: &'a str)
        ensures
            r == self.text(),
    {
        self.src
    }

    /// Clamps `byte` into the source and back onto a character boundary.
    fn clamp(&self, byte: usize) -> (r: usize)
        ensures
            r == clamped(self.text().spec_bytes(), byte),
            r <= self.text().spec_bytes().len(),
            is_char_boundary(self.text().spec_bytes(), r as int),
    {
        let len = self.src.as_bytes().len();
        let mut b = if byte < len {
            byte
        } else {
            len
        };
        proof {
            lemma_valid(self.src);
            lemma_clamp(self.src.spec_bytes(), b as nat);
        }
        while b > 0 && !self.src.is_char_boundary(b)
            invariant
                b <= self.src.spec_bytes().len(),
                clamp_spec(self.src.spec_bytes(), b as nat) == clamped(
                    self.src.spec_bytes(),
                    byte,
                ),
            decreases b,
        {
            b -= 1;
        }
        proof {
            lemma_clamp(self.src.spec_bytes(), b as nat);
        }
        b
    }

    /// Index of the line holding `byte`, which must already be clamped.
    fn line_of(&self, byte: usize) -> (r: usize)
        requires
            byte <= self.text().spec_bytes().len(),
        ensures
            r == count_nl(self.text().spec_bytes(), byte as nat),
            r < self.starts@.len(),
            self.starts@[r as int] == line_start_of(self.text().spec_bytes(), byte as nat),
            r + 1 < self.starts@.len() ==> self.starts@[r + 1] == next_line_of(
                self.text().spec_bytes(),
                byte as nat,
            ),
            r + 1 >= self.starts@.len() ==> next_line_of(self.text().spec_bytes(), byte as nat)
                == self.text().spec_bytes().len(),
    {
        proof {
            use_type_invariant(self);
        }
        let ghost b = self.src.spec_bytes();
        let ghost s = self.starts@;
        let len = self.src.as_bytes().len();
        assert(b.len() == len);
        proof {
            lemma_starts_shape(b, b.len());
            lemma_starts_shape(b, byte as nat);
            lemma_starts_prefix(b, byte as nat, b.len());
            lemma_starts_last(b, byte as nat);
            lemma_starts_next(b, byte as nat);
        }
        let mut lo: usize = 0;
        let mut hi: usize = self.starts.len();
        while lo < hi
            invariant
                0 <= lo <= hi <= s.len(),
                s == self.starts@,
                forall|j: int, k: int| 0 <= j < k < s.len() ==> s[j] < s[k],
                forall|k: int| 0 <= k < lo ==> #[trigger] s[k] <= byte,
                forall|k: int| hi <= k < s.len() ==> #[trigger] s[k] > byte,
            decreases hi - lo,
        {
            let mid = lo + (hi - lo) / 2;
            if self.starts[mid] <= byte {
                lo = mid + 1;
            } else {
                hi = mid;
            }
        }
        proof {
            let l = starts_of(b, byte as nat).len();
            assert(s.subrange(0, l as int) == starts_of(b, byte as nat));
            if lo < l {
                assert(s[lo as int] == s.subrange(0, l as int)[lo as int]);
            }
            if lo > l {
                assert(s[l as int] > byte);
            }
            assert(lo == l);
            assert(s[lo - 1] == starts_of(b, byte as nat)[lo - 1]);
        }
        lo - 1
    }

    /// 1-based line and column of `byte`.
    pub fn line_col(&self, byte: usize) -> (r: (u32, u32))
        ensures
            r == line_col_at(self.text().spec_bytes(), clamped(self.text().spec_bytes(), byte)),
    {
        proof {
            use_type_invariant(self);
        }
        let c = self.clamp(byte);
        let line = self.line_of(c);
        let line_start = self.starts[line];
        proof {
            let b = self.src.spec_bytes();
            lemma_valid(self.src);
            lemma_line_start_bounds(b, c as nat);
            if line_start > 0 {
                lemma_boundary_after_ascii(b, line_start - 1);
            } else {
                lemma_boundary_at(b, 0);
            }
        }
        let part = slice(self.src, line_start, c);
        let n = char_count(part);
        let col = 1u32.saturating_add(to_u32(n));
        let line_count = self.starts.len();
        assert(line < line_count);
        (to_u32(line + 1), col)
    }

    pub fn span(&self, start: usize, end: usize) -> (r: Span)
        ensures
            ({
                let b = self.text().spec_bytes();
                let s = clamped(b, start);
                let e = clamped(
                    b,
                    if end >= s {
                        end
                    } else {
                        s as usize
                    },
                );
                &&& (r.line, r.column) == line_col_at(b, s)
                &&& r.byte_start == sat_u32(s as int)
                &&& r.byte_end == sat_u32(e as int)
                &&& r == span_spec(b, start, end)
            }),
    {
        let start = self.clamp(start);
        let end = self.clamp(
            if end >= start {
                end
            } else {
                start
            },
        );
        proof {
            lemma_valid(self.src);
            lemma_clamp(self.src.spec_bytes(), start as nat);
        }
        let (line, column) = self.line_col(start);
        Span { line, column, byte_start: to_u32(start), byte_end: to_u32(end) }
    }

    /// Byte offset of the start of the line containing `byte`.
    pub fn line_start(&self, byte: usize) -> (r: usize)
        ensures
            r == line_start_of(self.text().spec_bytes(), clamped(self.text().spec_bytes(), byte)),
    {
        let c = self.clamp(byte);
        let line = self.line_of(c);
        self.starts[line]
    }

    /// Byte offset just past the `\n` ending the line containing `byte`, or the end of input.
    pub fn next_line_start(&self, byte: usize) -> (r: usize)
        ensures
            r == next_line_of(self.text().spec_bytes(), clamped(self.text().spec_bytes(), byte)),
    {
        let c = self.clamp(byte);
        let line = self.line_of(c);
        let count = self.starts.len();
        if line + 1 < count {
            self.starts[line + 1]
        } else {
            self.src.as_bytes().len()
        }
    }
}

// ---------------------------------------------------------------------------------------
// Cursor
// ---------------------------------------------------------------------------------------

/// A position in the source with character-level helpers. Every method stays on
/// character boundaries and never indexes out of bounds.
#[derive(Clone, Copy)]
pub struct Cursor<'a> {
    pub src: &'a str,
    pub pos: usize,
}

impl<'a> Cursor<'a> {
    pub fn new(src: &'a str, pos: usize) -> (r: Self)
        ensures
            r.src == src,
            r.pos == pos,
    {
        Cursor { src, pos }
    }

    pub fn rest(&self) -> (r: &'a str)
        ensures
            r.spec_bytes() == rest_bytes(self.src.spec_bytes(), self.pos as int),
            r@ == rest_chars(self.src.spec_bytes(), self.pos as int),
    {
        proof {
            lemma_valid(self.src);
        }
        let len = self.src.as_bytes().len();
        let r = match str_get(self.src, self.pos, len) {
            Some(t) => t,
            None => "",
        };
        proof {
            reveal_strlit("");
            lemma_valid(r);
            is_char_boundary_start_end_of_seq(self.src.spec_bytes());
            assert(r.spec_bytes() =~= rest_bytes(self.src.spec_bytes(), self.pos as int));
        }
        r
    }

    pub fn at_eof(&self) -> (r: bool)
        ensures
            r == (self.pos >= self.src.spec_bytes().len()),
    {
        self.pos >= self.src.as_bytes().len()
    }

    pub fn peek(&self) -> (r: Option<char>)
        ensures
            r == if rest_chars(self.src.spec_bytes(), self.pos as int).len() > 0 {
                Some(rest_chars(self.src.spec_bytes(), self.pos as int)[0])
            } else {
                None
            },
    {
        self.peek_nth(0)
    }

    pub fn peek_nth(&self, n: usize) -> (r: Option<char>)
        ensures
            r == if n < rest_chars(self.src.spec_bytes(), self.pos as int).len() {
                Some(rest_chars(self.src.spec_bytes(), self.pos as int)[n as int])
            } else {
                None
            },
    {
        broadcast use vstd::string::axiom_spec_iter, vstd::string::next_postcondition;

        let rest = self.rest();
        let mut it = rest.chars();
        let mut k: usize = 0;
        assert(rest@.skip(0) =~= rest@);
        loop
            invariant
                k <= n,
                rest@ == rest_chars(self.src.spec_bytes(), self.pos as int),
                it.obeys_prophetic_iter_laws(),
                k <= rest@.len() ==> it.remaining() == rest@.skip(k as int),
                k > rest@.len() ==> false,
            decreases n - k,
        {
            let c = it.next();
            if k == n {
                return c;
            }
            if c.is_none() {
                return None;
            }
            proof {
                assert(rest@.skip(k as int).drop_first() =~= rest@.skip(k as int + 1));
            }
            k += 1;
        }
    }

    pub fn byte_at(&self, off: usize) -> (r: Option<u8>)
        ensures
            ({
                let i = if self.pos + off <= usize::MAX {
                    self.pos + off
                } else {
                    usize::MAX as int
                };
                r == if i < self.src.spec_bytes().len() {
                    Some(self.src.spec_bytes()[i])
                } else {
                    None
                }
            }),
    {
        let b = self.src.as_bytes();
        let i = self.pos.saturating_add(off);
        if i < b.len() {
            Some(b[i])
        } else {
            None
        }
    }

    pub fn starts_with(&self, s: &str) -> (r: bool)
        ensures
            r == s.spec_bytes().is_prefix_of(rest_bytes(self.src.spec_bytes(), self.pos as int)),
    {
        let rest = self.rest().as_bytes();
        let p = s.as_bytes();
        if p.len() > rest.len() {
            return false;
        }
        assert(rest@.len() >= p@.len());
        let mut i: usize = 0;
        while i < p.len()
            invariant
                p.len() <= rest.len(),
                rest@ == rest_bytes(self.src.spec_bytes(), self.pos as int),
                p@ == s.spec_bytes(),
                i <= p.len(),
                forall|k: int| 0 <= k < i ==> p@[k] == rest@[k],
            decreases p.len() - i,
        {
            if p[i] != rest[i] {
                assert(rest@.subrange(0, p@.len() as int)[i as int] == rest@[i as int]);
                return false;
            }
            i += 1;
        }
        assert(p@ =~= rest@.subrange(0, p@.len() as int));
        true
    }

    pub fn bump(&mut self) -> (r: Option<char>)
        ensures
            final(self).src == old(self).src,
            r == if rest_chars(old(self).src.spec_bytes(), old(self).pos as int).len() > 0 {
                Some(rest_chars(old(self).src.spec_bytes(), old(self).pos as int)[0])
            } else {
                None
            },
            r matches Some(c) ==> final(self).pos == old(self).pos + encode_scalar(
                c as u32,
            ).len(),
            r is None ==> final(self).pos == old(self).pos,
            rest_chars(final(self).src.spec_bytes(), final(self).pos as int) == if r is Some {
                rest_chars(old(self).src.spec_bytes(), old(self).pos as int).drop_first()
            } else {
                rest_chars(old(self).src.spec_bytes(), old(self).pos as int)
            },
    {
        let c = match self.peek() {
            Some(c) => c,
            None => return None,
        };
        let ghost b = self.src.spec_bytes();
        let ghost p = self.pos as int;
        proof {
            lemma_valid(self.src);
            lemma_rest_chars(b, p);
            let bs = rest_bytes(b, p);
            assert(bs.len() > 0);
            valid_utf8_split(b, p);
            lemma_next_boundary(b, p);
            decode_utf8_first_scalar(bs);
            assert(bs == b.subrange(p, b.len() as int));
            assert(decode_utf8(bs) == seq![decode_first_scalar(bs) as char] + decode_utf8(
                pop_first_scalar(bs),
            ));
            assert(c == decode_first_scalar(bs) as char);
        }
        let len = self.src.as_bytes().len();
        assert(self.pos < len);
        let n = utf8_len(c);
        self.pos = self.pos + n;
        proof {
            let bs = b.subrange(p, b.len() as int);
            assert(b.subrange(self.pos as int, b.len() as int) =~= pop_first_scalar(bs));
        }
        Some(c)
    }

    pub fn eat(&mut self, s: &str) -> (r: bool)
        ensures
            final(self).src == old(self).src,
            r == s.spec_bytes().is_prefix_of(
                rest_bytes(old(self).src.spec_bytes(), old(self).pos as int),
            ),
            final(self).pos == if r {
                old(self).pos + s.spec_bytes().len()
            } else {
                old(self).pos as int
            },
    {
        let len = self.src.as_bytes().len();
        assert(len == self.src.spec_bytes().len());
        if self.starts_with(s) {
            self.pos = self.pos + s.as_bytes().len();
            true
        } else {
            false
        }
    }

    /// Skips spaces, tabs and carriage returns (not newlines). Returns whether any were skipped.
    pub fn skip_hws(&mut self) -> (r: bool)
        ensures
            final(self).src == old(self).src,
            final(self).pos == hws_end(old(self).src.spec_bytes(), old(self).pos as int),
            r == (final(self).pos != old(self).pos),
    {
        let start = self.pos;
        let b = self.src.as_bytes();
        while self.pos < b.len() && (b[self.pos] == 0x20 || b[self.pos] == 0x09 || b[self.pos]
            == 0x0d)
            invariant
                b@ == self.src.spec_bytes(),
                hws_end(b@, self.pos as int) == hws_end(b@, start as int),
                self.src == old(self).src,
            decreases b@.len() - self.pos,
        {
            self.pos += 1;
        }
        self.pos != start
    }

    /// Skips any whitespace, newlines included.
    pub fn skip_ws(&mut self)
        ensures
            final(self).src == old(self).src,
            ({
                let b = old(self).src.spec_bytes();
                let cs = rest_chars(b, old(self).pos as int);
                let k = ws_run(cs);
                &&& rest_chars(b, final(self).pos as int) == cs.skip(k as int)
                &&& k == 0 ==> final(self).pos == old(self).pos
                &&& k > 0 ==> old(self).pos < final(self).pos <= b.len() && is_char_boundary(
                    b,
                    final(self).pos as int,
                )
            }),
    {
        let ghost b = self.src.spec_bytes();
        let ghost cs = rest_chars(b, self.pos as int);
        let ghost mut done: int = 0;
        let ghost start = self.pos;
        loop
            invariant
                self.src == old(self).src,
                b == self.src.spec_bytes(),
                start == old(self).pos,
                cs == rest_chars(b, start as int),
                0 <= done <= cs.len(),
                rest_chars(b, self.pos as int) == cs.skip(done),
                ws_run(cs) == done + ws_run(cs.skip(done)),
                done == 0 ==> self.pos == start,
                done > 0 ==> start < self.pos <= b.len() && is_char_boundary(b, self.pos as int),
            decreases cs.len() - done,
        {
            let prev = self.pos;
            match self.peek() {
                Some(c) => {
                    if is_whitespace(c) {
                        let _ = self.bump();
                        proof {
                            assert(cs.skip(done).drop_first() =~= cs.skip(done + 1));
                            done = done + 1;
                            lemma_valid(self.src);
                            lemma_rest_chars(b, self.pos as int);
                            if !(0 <= self.pos <= b.len() && is_char_boundary(
                                b,
                                self.pos as int,
                            )) {
                                // The rest after a bump is never empty-by-invalidity:
                                // the bump moved onto the next boundary.
                                lemma_rest_chars(b, prev as int);
                                valid_utf8_split(b, prev as int);
                                lemma_next_boundary(b, prev as int);
                                decode_utf8_first_scalar(b.subrange(prev as int, b.len() as int));
                            }
                        }
                    } else {
                        return;
                    }
                },
                None => {
                    return;
                },
            }
        }
    }

    /// Moves to the `\n` ending the current line (or the end of input).
    pub fn skip_to_eol(&mut self)
        ensures
            final(self).src == old(self).src,
            final(self).pos == if old(self).pos <= old(self).src.spec_bytes().len()
                && is_char_boundary(old(self).src.spec_bytes(), old(self).pos as int) {
                eol_of(old(self).src.spec_bytes(), old(self).pos as int)
            } else {
                old(self).src.spec_bytes().len() as int
            },
    {
        self.pos = self.eol();
    }

    /// Byte offset of the end of the current line (the `\n` or the end of input).
    pub fn eol(&self) -> (r: usize)
        ensures
            r == if self.pos <= self.src.spec_bytes().len() && is_char_boundary(
                self.src.spec_bytes(),
                self.pos as int,
            ) {
                eol_of(self.src.spec_bytes(), self.pos as int)
            } else {
                self.src.spec_bytes().len() as int
            },
    {
        let b = self.src.as_bytes();
        if !(self.pos <= b.len() && self.src.is_char_boundary(self.pos)) {
            return b.len();
        }
        let mut i = self.pos;
        while i < b.len() && b[i] != 10
            invariant
                self.pos <= i <= b@.len(),
                b@ == self.src.spec_bytes(),
                eol_of(b@, i as int) == eol_of(b@, self.pos as int),
            decreases b@.len() - i,
        {
            i += 1;
        }
        i
    }

    /// True when only horizontal whitespace precedes `pos` on its line.
    pub fn at_line_start(&self) -> (r: bool)
        ensures
            r == at_line_start_spec(
                self.src.spec_bytes(),
                if self.pos <= self.src.spec_bytes().len() {
                    self.pos as int
                } else {
                    self.src.spec_bytes().len() as int
                },
            ),
    {
        at_line_start(self.src, self.pos)
    }
}

/// True when only spaces, tabs or carriage returns precede `pos` on its line.
pub fn at_line_start(src: &str, pos: usize) -> (r: bool)
    ensures
        r == at_line_start_spec(
            src.spec_bytes(),
            if pos <= src.spec_bytes().len() {
                pos as int
            } else {
                src.spec_bytes().len() as int
            },
        ),
{
    let bytes = src.as_bytes();
    let mut i = if pos < bytes.len() {
        pos
    } else {
        bytes.len()
    };
    let ghost i0 = i;
    while i > 0
        invariant
            i <= bytes@.len(),
            bytes@ == src.spec_bytes(),
            at_line_start_spec(bytes@, i as int) == at_line_start_spec(bytes@, i0 as int),
            i0 == if pos <= src.spec_bytes().len() {
                pos as int
            } else {
                src.spec_bytes().len() as int
            },
        decreases i,
    {
        let c = bytes[i - 1];
        if c == 0x20 || c == 0x09 || c == 0x0d {
            i -= 1;
        } else {
            return c == 10;
        }
    }
    true
}

} // verus!
