//! Text primitives shared by the parsers and writers: the UTF-8 byte view of a `str`,
//! character iteration, slicing at byte offsets and string building.

use vstd::prelude::*;
use vstd::std_specs::iter::IteratorSpec;
use vstd::utf8::*;
use vstd::string::StringSliceAdditionalSpecFns;
use vstd::string::StringExecFns;

verus! {

broadcast use vstd::utf8::group_utf8_lib;

/// The UTF-8 bytes of `s`.
pub open spec fn bytes(s: &str) -> Seq<u8> {
    s.spec_bytes()
}

/// `u8::is_ascii_whitespace`: space, tab, line feed, form feed, carriage return.
pub open spec fn is_ascii_ws(b: u8) -> bool {
    b == 0x20 || b == 0x09 || b == 0x0a || b == 0x0c || b == 0x0d
}

pub open spec fn is_ascii_upper(b: u8) -> bool {
    0x41 <= b <= 0x5a
}

/// ASCII lower-casing of one byte; other bytes are unchanged.
pub open spec fn lower(b: u8) -> u8 {
    if is_ascii_upper(b) {
        (b + 32) as u8
    } else {
        b
    }
}

/// `Unicode White_Space`, the set `char::is_whitespace` tests.
pub open spec fn is_unicode_ws(c: char) -> bool {
    let u = c as u32;
    (0x09 <= u <= 0x0d) || u == 0x20 || u == 0x85 || u == 0xa0 || u == 0x1680 || (0x2000 <= u
        <= 0x200a) || u == 0x2028 || u == 0x2029 || u == 0x202f || u == 0x205f || u == 0x3000
}

/// Whether `b` is ASCII whitespace.
pub fn is_ascii_ws_byte(b: u8) -> (r: bool)
    ensures
        r == is_ascii_ws(b),
{
    b == 0x20 || b == 0x09 || b == 0x0a || b == 0x0c || b == 0x0d
}

/// `char::is_whitespace`.
pub fn is_whitespace(c: char) -> (r: bool)
    ensures
        r == is_unicode_ws(c),
{
    let u = c as u32;
    (0x09 <= u && u <= 0x0d) || u == 0x20 || u == 0x85 || u == 0xa0 || u == 0x1680 || (0x2000 <= u
        && u <= 0x200a) || u == 0x2028 || u == 0x2029 || u == 0x202f || u == 0x205f || u == 0x3000
}

/// The bytes of a `str` are well-formed UTF-8.
pub proof fn lemma_valid(s: &str)
    ensures
        valid_utf8(s.spec_bytes()),
        decode_utf8(s.spec_bytes()) == s@,
{
}

/// A position holding a byte that does not continue a scalar is a character boundary.
pub proof fn lemma_boundary_at(b: Seq<u8>, i: int)
    requires
        valid_utf8(b),
        0 <= i <= b.len(),
        i == b.len() || !is_continuation_byte(b[i]),
    ensures
        is_char_boundary(b, i),
{
    if i == b.len() {
        is_char_boundary_start_end_of_seq(b);
    } else {
        is_char_boundary_iff_not_is_continuation_byte(b, i);
    }
}

/// From a boundary inside `b`, skipping the scalar that starts there reaches the next boundary.
pub proof fn lemma_next_boundary(b: Seq<u8>, i: int)
    requires
        valid_utf8(b),
        0 <= i < b.len(),
        is_char_boundary(b, i),
    ensures
        valid_first_scalar(b.subrange(i, b.len() as int)),
        i + length_of_first_scalar(b.subrange(i, b.len() as int)) <= b.len(),
        is_char_boundary(b, i + length_of_first_scalar(b.subrange(i, b.len() as int))),
    decreases b.len(),
{
    let l0 = length_of_first_scalar(b);
    if i == 0 {
        assert(b.subrange(0, b.len() as int) =~= b);
        reveal_with_fuel(is_char_boundary, 2);
        is_char_boundary_start_end_of_seq(pop_first_scalar(b));
    } else {
        let p = pop_first_scalar(b);
        assert(is_char_boundary(p, i - l0));
        if i - l0 < p.len() {
            lemma_next_boundary(p, i - l0);
            assert(p.subrange(i - l0, p.len() as int) =~= b.subrange(i, b.len() as int));
        } else {
            assert(i - l0 == p.len());
            assert(false) by {
                assert(i == b.len());
            }
        }
    }
}

/// After an ASCII byte at a boundary, the next position is a boundary too.
pub proof fn lemma_boundary_after_ascii(b: Seq<u8>, i: int)
    requires
        valid_utf8(b),
        0 <= i < b.len(),
        b[i] < 0x80,
    ensures
        is_char_boundary(b, i + 1),
{
    lemma_boundary_at(b, i);
    lemma_next_boundary(b, i);
}

/// The characters of `s`, in order.
pub fn chars_of(s: &str) -> (v: Vec<char>)
    ensures
        v@ == s@,
{
    broadcast use vstd::string::axiom_spec_iter, vstd::string::next_postcondition;

    let mut it = s.chars();
    let mut v: Vec<char> = Vec::new();
    loop
        invariant
            v@ + it.remaining() == s@,
            it.obeys_prophetic_iter_laws(),
            it.decrease() is Some,
        decreases it.decrease()->0,
    {
        match it.next() {
            Some(c) => {
                v.push(c);
            },
            None => {
                assert(v@ + it.remaining() == v@);
                return v;
            },
        }
    }
}

/// `str::get` with a byte range: the part of `s` from `start` to `end`, or `None` when
/// the range is out of order, past the end, or off a character boundary.
#[verifier::external_body]
pub(crate) fn str_get<'a>(s: &'a str, start: usize, end: usize) -> (r: Option<&'a str>)
    ensures
        r is Some <==> (start <= end <= s.spec_bytes().len() && is_char_boundary(
            s.spec_bytes(),
            start as int,
        ) && is_char_boundary(s.spec_bytes(), end as int)),
        r matches Some(t) ==> t.spec_bytes() == s.spec_bytes().subrange(start as int, end as int),
{
    s.get(start..end)
}

/// `String::push`: appends one character.
#[verifier::external_body]
pub(crate) fn push_char(s: &mut String, c: char)
    ensures
        final(s)@ == old(s)@.push(c),
{
    s.push(c)
}

/// `char::from_u32`: the character with code point `v`, or `None` when `v` is not a
/// Unicode scalar value.
#[verifier::external_body]
pub(crate) fn char_from_u32(v: u32) -> (r: Option<char>)
    ensures
        r is Some <==> is_scalar(v),
        r matches Some(c) ==> c as u32 == v,
{
    char::from_u32(v)
}

/// The part of `s` between two byte offsets that are character boundaries.
pub fn slice<'a>(s: &'a str, start: usize, end: usize) -> (r: &'a str)
    requires
        start <= end <= s.spec_bytes().len(),
        is_char_boundary(s.spec_bytes(), start as int),
        is_char_boundary(s.spec_bytes(), end as int),
    ensures
        r.spec_bytes() == s.spec_bytes().subrange(start as int, end as int),
        r@ == decode_utf8(s.spec_bytes().subrange(start as int, end as int)),
{
    let r = str_get(s, start, end).unwrap();
    proof {
        lemma_valid(r);
    }
    r
}

/// An owned copy of `s`.
pub fn owned(s: &str) -> (r: String)
    ensures
        r@ == s@,
{
    String::from_str(s)
}

/// `a` followed by `b`.
pub fn push_str(a: &mut String, b: &str)
    ensures
        final(a)@ == old(a)@ + b@,
{
    a.append(b)
}

} // verus!

verus! {

/// Length of the UTF-8 encoding of `c`.
pub fn utf8_len(c: char) -> (r: usize)
    ensures
        r == encode_scalar(c as u32).len(),
        1 <= r <= 4,
{
    let u = c as u32;
    if u < 0x80 {
        1
    } else if u < 0x800 {
        2
    } else if u < 0x10000 {
        3
    } else {
        4
    }
}

/// Number of characters in `s`.
pub fn char_count(s: &str) -> (n: usize)
    ensures
        n == s@.len(),
{
    broadcast use vstd::string::axiom_spec_iter, vstd::string::next_postcondition;

    proof {
        lemma_encode_len(s@);
    }
    let total = s.as_bytes().len();
    let mut it = s.chars();
    let mut n: usize = 0;
    loop
        invariant
            n + it.remaining().len() == s@.len(),
            s@.len() <= total <= usize::MAX,
            it.obeys_prophetic_iter_laws(),
            it.decrease() is Some,
        decreases it.decrease()->0,
    {
        match it.next() {
            Some(_) => {
                n += 1;
            },
            None => {
                return n;
            },
        }
    }
}

/// The encoding has at least one byte per character.
pub proof fn lemma_encode_len(cs: Seq<char>)
    ensures
        encode_utf8(cs).len() >= cs.len(),
    decreases cs.len(),
{
    if cs.len() > 0 {
        lemma_encode_len(cs.drop_first());
    }
}

} // verus!

verus! {

/// ASCII lower-casing of one character; other characters are unchanged.
pub open spec fn lower_char(c: char) -> char {
    if 'A' <= c && c <= 'Z' {
        ((c as u32) + 32) as char
    } else {
        c
    }
}

/// `a` and `b` are equal ignoring ASCII case.
pub open spec fn eq_ignore_case(a: Seq<char>, b: Seq<char>) -> bool {
    a.len() == b.len() && forall|i: int| 0 <= i < a.len() ==> lower_char(a[i]) == lower_char(b[i])
}

/// `char::to_ascii_lowercase`.
pub fn lower_ch(c: char) -> (r: char)
    ensures
        r == lower_char(c),
{
    if 'A' <= c && c <= 'Z' {
        let u = (c as u32) + 32;
        let b = u as u8;
        b as char
    } else {
        c
    }
}

/// Whether `v[lo..hi]` equals `lit`, ignoring ASCII case.
pub fn range_eq_ignore_case(v: &Vec<char>, lo: usize, hi: usize, lit: &str) -> (r: bool)
    requires
        lo <= hi <= v@.len(),
    ensures
        r == eq_ignore_case(v@.subrange(lo as int, hi as int), lit@),
{
    let w = chars_of(lit);
    if hi - lo != w.len() {
        return false;
    }
    let mut i: usize = 0;
    while i < w.len()
        invariant
            lo <= hi <= v@.len(),
            hi - lo == w@.len(),
            w@ == lit@,
            i <= w@.len(),
            forall|k: int|
                0 <= k < i ==> lower_char(v@.subrange(lo as int, hi as int)[k]) == lower_char(
                    w@[k],
                ),
        decreases w@.len() - i,
    {
        if lower_ch(v[lo + i]) != lower_ch(w[i]) {
            assert(v@.subrange(lo as int, hi as int)[i as int] == v@[lo + i]);
            return false;
        }
        i += 1;
    }
    true
}

/// A string holding `v[lo..hi]`.
pub fn string_from_chars(v: &Vec<char>, lo: usize, hi: usize) -> (r: String)
    requires
        lo <= hi <= v@.len(),
    ensures
        r@ == v@.subrange(lo as int, hi as int),
{
    let mut s = String::new();
    let mut i = lo;
    while i < hi
        invariant
            lo <= i <= hi <= v@.len(),
            s@ == v@.subrange(lo as int, i as int),
        decreases hi - i,
    {
        push_char(&mut s, v[i]);
        i += 1;
        assert(s@ =~= v@.subrange(lo as int, i as int));
    }
    s
}

} // verus!

verus! {

/// Index of the first character at or after `i` that is not whitespace.
pub open spec fn ws_lead(cs: Seq<char>, i: int) -> int
    decreases cs.len() - i,
{
    if 0 <= i < cs.len() && is_unicode_ws(cs[i]) {
        ws_lead(cs, i + 1)
    } else {
        i
    }
}

/// Index just past the last character before `j` (and after `lo`) that is not whitespace.
pub open spec fn ws_trail(cs: Seq<char>, lo: int, j: int) -> int
    decreases j - lo,
{
    if lo < j <= cs.len() && is_unicode_ws(cs[j - 1]) {
        ws_trail(cs, lo, j - 1)
    } else {
        j
    }
}

/// `str::trim`: `cs` without leading and trailing whitespace.
pub open spec fn trim_ws(cs: Seq<char>) -> Seq<char> {
    let lo = ws_lead(cs, 0);
    cs.subrange(lo, ws_trail(cs, lo, cs.len() as int))
}

pub proof fn lemma_ws_bounds(cs: Seq<char>, i: int, lo: int, j: int)
    requires
        0 <= i <= cs.len(),
        0 <= lo <= j <= cs.len(),
    ensures
        i <= ws_lead(cs, i) <= cs.len(),
        lo <= ws_trail(cs, lo, j) <= j,
    decreases cs.len() - i + j - lo,
{
    if i < cs.len() && is_unicode_ws(cs[i]) {
        lemma_ws_bounds(cs, i + 1, lo, j);
    } else if lo < j && is_unicode_ws(cs[j - 1]) {
        lemma_ws_bounds(cs, i, lo, j - 1);
    }
}

/// The bounds of `v[lo..hi]` without leading and trailing whitespace.
pub fn trim_bounds(v: &Vec<char>, lo: usize, hi: usize) -> (r: (usize, usize))
    requires
        lo <= hi <= v@.len(),
    ensures
        lo <= r.0 <= r.1 <= hi,
        v@.subrange(r.0 as int, r.1 as int) == trim_ws(v@.subrange(lo as int, hi as int)),
{
    let ghost w = v@.subrange(lo as int, hi as int);
    let mut a = lo;
    while a < hi && is_whitespace(v[a])
        invariant
            lo <= a <= hi <= v@.len(),
            w == v@.subrange(lo as int, hi as int),
            ws_lead(w, a - lo) == ws_lead(w, 0),
        decreases hi - a,
    {
        assert(w[a - lo] == v@[a as int]);
        a += 1;
    }
    proof {
        if a < hi {
            assert(w[a - lo] == v@[a as int]);
        }
        assert(ws_lead(w, 0) == a - lo);
    }
    let mut b = hi;
    while b > a && is_whitespace(v[b - 1])
        invariant
            lo <= a <= b <= hi <= v@.len(),
            w == v@.subrange(lo as int, hi as int),
            ws_lead(w, 0) == a - lo,
            ws_trail(w, a - lo, b - lo) == ws_trail(w, a - lo, w.len() as int),
        decreases b,
    {
        assert(w[b - 1 - lo] == v@[b - 1]);
        b -= 1;
    }
    proof {
        if b > a {
            assert(w[b - 1 - lo] == v@[b - 1]);
        }
        assert(v@.subrange(a as int, b as int) =~= w.subrange(a - lo, b - lo));
    }
    (a, b)
}

/// Whether `v[lo..hi]` equals `lit`.
pub fn range_eq(v: &Vec<char>, lo: usize, hi: usize, lit: &str) -> (r: bool)
    requires
        lo <= hi <= v@.len(),
    ensures
        r == (v@.subrange(lo as int, hi as int) == lit@),
{
    let w = chars_of(lit);
    if hi - lo != w.len() {
        return false;
    }
    let mut i: usize = 0;
    while i < w.len()
        invariant
            lo <= hi <= v@.len(),
            hi - lo == w@.len(),
            w@ == lit@,
            i <= w@.len(),
            forall|k: int| 0 <= k < i ==> v@.subrange(lo as int, hi as int)[k] == w@[k],
        decreases w@.len() - i,
    {
        if v[lo + i] != w[i] {
            assert(v@.subrange(lo as int, hi as int)[i as int] == v@[lo + i]);
            return false;
        }
        i += 1;
    }
    assert(v@.subrange(lo as int, hi as int) =~= w@);
    true
}

/// `String::truncate`: keeps the first `new_len` bytes.
#[verifier::external_body]
pub(crate) fn string_truncate(s: &mut String, new_len: usize)
    requires
        new_len <= encode_utf8(old(s)@).len(),
        is_char_boundary(encode_utf8(old(s)@), new_len as int),
    ensures
        encode_utf8(final(s)@) == encode_utf8(old(s)@).subrange(0, new_len as int),
{
    s.truncate(new_len)
}

} // verus!

verus! {

pub proof fn lemma_encode_concat(a: Seq<char>, b: Seq<char>)
    ensures
        encode_utf8(a + b) == encode_utf8(a) + encode_utf8(b),
    decreases a.len(),
{
    if a.len() == 0 {
        assert(a + b =~= b);
        assert(encode_utf8(a) + encode_utf8(b) =~= encode_utf8(b));
    } else {
        lemma_encode_concat(a.drop_first(), b);
        assert((a + b).drop_first() =~= a.drop_first() + b);
        assert((a + b)[0] == a[0]);
        assert(encode_utf8(a + b) == encode_scalar((a + b)[0] as u32) + encode_utf8(
            (a + b).drop_first(),
        ));
        assert(encode_utf8(a) == encode_scalar(a[0] as u32) + encode_utf8(a.drop_first()));
        assert(encode_scalar(a[0] as u32) + (encode_utf8(a.drop_first()) + encode_utf8(b))
            =~= encode_scalar(a[0] as u32) + encode_utf8(a.drop_first()) + encode_utf8(b));
    }
}

/// The encoding of a prefix of `cs` ends on a character boundary of the encoding of `cs`.
pub proof fn lemma_prefix_boundary(cs: Seq<char>, k: int)
    requires
        0 <= k <= cs.len(),
    ensures
        is_char_boundary(encode_utf8(cs), encode_utf8(cs.take(k)).len() as int),
        encode_utf8(cs.take(k)).len() <= encode_utf8(cs).len(),
    decreases k,
{
    lemma_encode_concat(cs.take(k), cs.skip(k));
    assert(cs.take(k) + cs.skip(k) =~= cs);
    if k > 0 {
        let b = encode_utf8(cs);
        encode_utf8_first_scalar(cs);
        let rest = cs.drop_first();
        lemma_prefix_boundary(rest, k - 1);
        assert(pop_first_scalar(b) =~= encode_utf8(rest)) by {
            assert(b == encode_scalar(cs[0] as u32) + encode_utf8(rest));
        }
        lemma_encode_concat(seq![cs[0]], rest.take(k - 1));
        assert(seq![cs[0]] + rest.take(k - 1) =~= cs.take(k));
        assert(encode_utf8(seq![cs[0]]) == encode_scalar(seq![cs[0]][0] as u32) + encode_utf8(
            seq![cs[0]].drop_first(),
        ));
        assert(seq![cs[0]].drop_first() =~= Seq::<char>::empty());
        assert(encode_utf8(Seq::<char>::empty()) =~= Seq::<u8>::empty());
        assert(encode_utf8(seq![cs[0]]) =~= encode_scalar(cs[0] as u32));
    } else {
        assert(cs.take(0) =~= Seq::<char>::empty());
        assert(encode_utf8(Seq::<char>::empty()) =~= Seq::<u8>::empty());
        is_char_boundary_start_end_of_seq(encode_utf8(cs));
    }
}

/// The bytes of `cs[a..b]` sit between the encodings of the two prefixes.
pub proof fn lemma_encode_subrange(cs: Seq<char>, a: int, b: int)
    requires
        0 <= a <= b <= cs.len(),
    ensures
        encode_utf8(cs).subrange(
            encode_utf8(cs.take(a)).len() as int,
            encode_utf8(cs.take(b)).len() as int,
        ) == encode_utf8(cs.subrange(a, b)),
{
    lemma_encode_concat(cs.take(a), cs.subrange(a, b));
    assert(cs.take(a) + cs.subrange(a, b) =~= cs.take(b));
    lemma_encode_concat(cs.take(b), cs.skip(b));
    assert(cs.take(b) + cs.skip(b) =~= cs);
    assert(encode_utf8(cs).subrange(
        encode_utf8(cs.take(a)).len() as int,
        encode_utf8(cs.take(b)).len() as int,
    ) =~= encode_utf8(cs.subrange(a, b)));
}

/// The byte offset of the character index `k` of `s`, whose characters are `cs`.
pub fn byte_offset(s: &str, cs: &Vec<char>, k: usize) -> (r: usize)
    requires
        cs@ == s@,
        k <= cs@.len(),
    ensures
        r == encode_utf8(cs@.take(k as int)).len(),
{
    let total = s.as_bytes().len();
    let mut off: usize = 0;
    let mut i: usize = 0;
    while i < k
        invariant
            cs@ == s@,
            k <= cs@.len(),
            i <= k,
            total == encode_utf8(cs@).len(),
            off == encode_utf8(cs@.take(i as int)).len(),
        decreases k - i,
    {
        proof {
            lemma_encode_concat(cs@.take(i as int), seq![cs@[i as int]]);
            assert(cs@.take(i as int) + seq![cs@[i as int]] =~= cs@.take(i + 1));
            assert(encode_utf8(seq![cs@[i as int]]) == encode_scalar(seq![cs@[i as int]][0] as u32)
                + encode_utf8(seq![cs@[i as int]].drop_first()));
            assert(seq![cs@[i as int]].drop_first() =~= Seq::<char>::empty());
            assert(encode_utf8(Seq::<char>::empty()) =~= Seq::<u8>::empty());
            lemma_prefix_boundary(cs@, i + 1);
        }
        off = off + utf8_len(cs[i]);
        i += 1;
    }
    off
}

/// The part of `s` from character index `a` to character index `b`.
pub fn char_slice<'a>(s: &'a str, cs: &Vec<char>, a: usize, b: usize) -> (r: &'a str)
    requires
        cs@ == s@,
        a <= b <= cs@.len(),
    ensures
        r@ == cs@.subrange(a as int, b as int),
{
    let x = byte_offset(s, cs, a);
    let y = byte_offset(s, cs, b);
    proof {
        lemma_prefix_boundary(cs@, a as int);
        lemma_prefix_boundary(cs@, b as int);
        lemma_encode_subrange(cs@, a as int, b as int);
        lemma_encode_concat(cs@.take(a as int), cs@.subrange(a as int, b as int));
        assert(cs@.take(a as int) + cs@.subrange(a as int, b as int) =~= cs@.take(b as int));
    }
    slice(s, x, y)
}

/// `str::trim`.
pub fn trim_str<'a>(s: &'a str) -> (r: &'a str)
    ensures
        r@ == trim_ws(s@),
{
    let cs = chars_of(s);
    let (a, b) = trim_bounds(&cs, 0, cs.len());
    assert(cs@.subrange(0, cs@.len() as int) =~= cs@);
    char_slice(s, &cs, a, b)
}

} // verus!

verus! {

/// `pat` occurs in `cs`.
pub open spec fn contains_seq(cs: Seq<char>, pat: Seq<char>) -> bool {
    exists|i: int| 0 <= i <= cs.len() - pat.len() && #[trigger] cs.subrange(i, i + pat.len()) == pat
}

/// `c` occurs in `cs`.
pub open spec fn contains_char(cs: Seq<char>, c: char) -> bool {
    exists|i: int| 0 <= i < cs.len() && cs[i] == c
}

/// Whether `v[lo..hi]` starts with `lit`.
pub fn starts_with_at(v: &Vec<char>, lo: usize, hi: usize, lit: &str) -> (r: bool)
    requires
        lo <= hi <= v@.len(),
    ensures
        r == lit@.is_prefix_of(v@.subrange(lo as int, hi as int)),
{
    let w = chars_of(lit);
    if w.len() > hi - lo {
        return false;
    }
    let r = range_eq(v, lo, lo + w.len(), lit);
    assert(v@.subrange(lo as int, hi as int).subrange(0, w@.len() as int) =~= v@.subrange(
        lo as int,
        lo + w@.len(),
    ));
    r
}

/// Whether `v[lo..hi]` ends with `lit`.
pub fn ends_with_at(v: &Vec<char>, lo: usize, hi: usize, lit: &str) -> (r: bool)
    requires
        lo <= hi <= v@.len(),
    ensures
        r == lit@.is_suffix_of(v@.subrange(lo as int, hi as int)),
{
    let w = chars_of(lit);
    if w.len() > hi - lo {
        return false;
    }
    let r = range_eq(v, hi - w.len(), hi, lit);
    assert(v@.subrange(lo as int, hi as int).subrange(
        (hi - lo) - w@.len(),
        (hi - lo) as int,
    ) =~= v@.subrange(hi - w@.len(), hi as int));
    r
}

/// Whether `lit` occurs in `v[lo..hi]`.
pub fn contains_at(v: &Vec<char>, lo: usize, hi: usize, lit: &str) -> (r: bool)
    requires
        lo <= hi <= v@.len(),
    ensures
        r == contains_seq(v@.subrange(lo as int, hi as int), lit@),
{
    let w = chars_of(lit);
    let ghost s = v@.subrange(lo as int, hi as int);
    if w.len() > hi - lo {
        assert(!contains_seq(s, lit@));
        return false;
    }
    let last = hi - w.len();
    let mut i = lo;
    loop
        invariant
            lo <= i <= last,
            last + w@.len() == hi,
            hi <= v@.len(),
            w@ == lit@,
            s == v@.subrange(lo as int, hi as int),
            forall|k: int| 0 <= k < i - lo ==> #[trigger] s.subrange(k, k + w@.len()) != w@,
        decreases last - i,
    {
        assert(s.subrange(i - lo, i - lo + w@.len()) =~= v@.subrange(i as int, i + w@.len()));
        if range_eq(v, i, i + w.len(), lit) {
            return true;
        }
        if i == last {
            return false;
        }
        i += 1;
    }
}

/// Whether `c` occurs in `v[lo..hi]`.
pub fn has_char(v: &Vec<char>, lo: usize, hi: usize, c: char) -> (r: bool)
    requires
        lo <= hi <= v@.len(),
    ensures
        r == contains_char(v@.subrange(lo as int, hi as int), c),
{
    let mut i = lo;
    while i < hi
        invariant
            lo <= i <= hi <= v@.len(),
            forall|k: int| lo <= k < i ==> v@[k] != c,
        decreases hi - i,
    {
        if v[i] == c {
            assert(v@.subrange(lo as int, hi as int)[i - lo] == c);
            return true;
        }
        i += 1;
    }
    assert forall|k: int| 0 <= k < hi - lo implies v@.subrange(lo as int, hi as int)[k] != c by {
        assert(v@.subrange(lo as int, hi as int)[k] == v@[lo + k]);
    }
    false
}

/// The first index at or after `i` where `b` holds `c`, or `b.len()`.
pub open spec fn byte_index_from(b: Seq<u8>, c: u8, i: int) -> int
    decreases b.len() - i,
{
    if i >= b.len() {
        b.len() as int
    } else if b[i] == c {
        i
    } else {
        byte_index_from(b, c, i + 1)
    }
}

pub proof fn lemma_byte_index_from(b: Seq<u8>, c: u8, i: int)
    requires
        0 <= i <= b.len(),
    ensures
        i <= byte_index_from(b, c, i) <= b.len(),
        byte_index_from(b, c, i) < b.len() ==> b[byte_index_from(b, c, i)] == c,
        forall|k: int| i <= k < byte_index_from(b, c, i) ==> b[k] != c,
    decreases b.len() - i,
{
    if i < b.len() && b[i] != c {
        lemma_byte_index_from(b, c, i + 1);
    }
}

/// The first index at or after `from` where `b` holds `c`, or `b.len()`.
pub fn find_byte(b: &[u8], from: usize, c: u8) -> (r: usize)
    requires
        from <= b@.len(),
    ensures
        r == byte_index_from(b@, c, from as int),
{
    let mut i = from;
    while i < b.len() && b[i] != c
        invariant
            from <= i <= b@.len(),
            byte_index_from(b@, c, i as int) == byte_index_from(b@, c, from as int),
        decreases b@.len() - i,
    {
        i += 1;
    }
    i
}

/// A position whose byte is ASCII, or the end, is a character boundary of a `str`.
pub proof fn lemma_ascii_boundary(s: &str, i: int)
    requires
        0 <= i <= s.spec_bytes().len(),
        i == s.spec_bytes().len() || s.spec_bytes()[i] < 0x80,
    ensures
        is_char_boundary(s.spec_bytes(), i),
{
    lemma_valid(s);
    lemma_boundary_at(s.spec_bytes(), i);
}

/// `str::trim_end`: `cs` without trailing whitespace.
pub open spec fn trim_end_ws(cs: Seq<char>) -> Seq<char> {
    cs.subrange(0, ws_trail(cs, 0, cs.len() as int))
}

/// `s` without trailing whitespace.
pub fn trim_end_str<'a>(s: &'a str) -> (r: &'a str)
    ensures
        r@ == trim_end_ws(s@),
{
    let cs = chars_of(s);
    let n = cs.len();
    let mut b = n;
    while b > 0 && is_whitespace(cs[b - 1])
        invariant
            b <= n,
            n == cs@.len(),
            ws_trail(cs@, 0, b as int) == ws_trail(cs@, 0, n as int),
        decreases b,
    {
        b -= 1;
    }
    char_slice(s, &cs, 0, b)
}

/// `cs` with ASCII letters lower-cased.
pub open spec fn lower_seq(cs: Seq<char>) -> Seq<char> {
    cs.map_values(|c: char| lower_char(c))
}

/// The characters of `s` with ASCII letters lower-cased.
pub fn lower_chars(s: &str) -> (v: Vec<char>)
    ensures
        v@ == lower_seq(s@),
{
    let cs = chars_of(s);
    let n = cs.len();
    let mut v: Vec<char> = Vec::new();
    let mut i: usize = 0;
    while i < n
        invariant
            n == cs@.len(),
            cs@ == s@,
            i <= n,
            v@ == lower_seq(cs@.take(i as int)),
        decreases n - i,
    {
        v.push(lower_ch(cs[i]));
        i += 1;
        assert(v@ =~= lower_seq(cs@.take(i as int)));
    }
    assert(cs@.take(n as int) =~= cs@);
    v
}

/// Whether two texts are equal.
pub fn str_eq(a: &str, b: &str) -> (r: bool)
    ensures
        r == (a@ == b@),
{
    let x = chars_of(a);
    let n = x.len();
    assert(x@.subrange(0, n as int) =~= x@);
    range_eq(&x, 0, n, b)
}

/// UTF-8 length of the first `k` characters of `cs`: the byte offset of character `k`.
pub open spec fn byte_at(cs: Seq<char>, k: int) -> int {
    encode_utf8(cs.take(k)).len() as int
}

/// Byte offsets grow with character indices.
pub proof fn lemma_byte_at_mono(cs: Seq<char>, a: int, b: int)
    requires
        0 <= a <= b <= cs.len(),
    ensures
        0 <= byte_at(cs, a) <= byte_at(cs, b) <= encode_utf8(cs).len(),
{
    lemma_prefix_boundary(cs.take(b), a);
    assert(cs.take(b).take(a) =~= cs.take(a));
    lemma_prefix_boundary(cs, b);
}

/// The characters of `s` and the byte offset of every character boundary, the end
/// included.
pub fn char_offsets(s: &str) -> (r: (Vec<char>, Vec<usize>))
    ensures
        r.0@ == s@,
        r.1@.len() == s@.len() + 1,
        forall|k: int| 0 <= k <= s@.len() ==> #[trigger] r.1@[k] == byte_at(s@, k),
        byte_at(s@, s@.len() as int) == s.spec_bytes().len(),
{
    let cs = chars_of(s);
    let n = cs.len();
    proof {
        lemma_valid(s);
        assert(cs@.take(n as int) =~= cs@);
    }
    let total = s.as_bytes().len();
    let mut offs: Vec<usize> = Vec::new();
    offs.push(0);
    proof {
        assert(cs@.take(0) =~= Seq::<char>::empty());
        assert(encode_utf8(Seq::<char>::empty()) =~= Seq::<u8>::empty());
    }
    let mut off: usize = 0;
    let mut i: usize = 0;
    while i < n
        invariant
            n == cs@.len(),
            cs@ == s@,
            i <= n,
            total == encode_utf8(cs@).len(),
            off == byte_at(cs@, i as int),
            offs@.len() == i + 1,
            forall|k: int| 0 <= k <= i ==> #[trigger] offs@[k] == byte_at(cs@, k),
        decreases n - i,
    {
        proof {
            lemma_encode_concat(cs@.take(i as int), seq![cs@[i as int]]);
            assert(cs@.take(i as int) + seq![cs@[i as int]] =~= cs@.take(i + 1));
            assert(encode_utf8(seq![cs@[i as int]]) == encode_scalar(seq![cs@[i as int]][0] as u32)
                + encode_utf8(seq![cs@[i as int]].drop_first()));
            assert(seq![cs@[i as int]].drop_first() =~= Seq::<char>::empty());
            assert(encode_utf8(Seq::<char>::empty()) =~= Seq::<u8>::empty());
            lemma_prefix_boundary(cs@, i + 1);
        }
        off = off + utf8_len(cs[i]);
        offs.push(off);
        i += 1;
    }
    (cs, offs)
}

/// The decimal digits of `n`.
pub open spec fn decimal(n: nat) -> Seq<char>
    decreases n,
{
    if n < 10 {
        seq![(n + 48) as char]
    } else {
        decimal(n / 10).push(((n % 10) + 48) as char)
    }
}

/// Appends the decimal digits of `n`.
pub fn push_decimal(s: &mut String, n: usize)
    ensures
        final(s)@ == old(s)@ + decimal(n as nat),
    decreases n,
{
    if n >= 10 {
        push_decimal(s, n / 10);
    }
    let v: u32 = (n % 10) as u32 + 48;
    let c = char_from_u32(v).unwrap();
    proof {
        vstd::utf8::char_u32_cast(c, v);
    }
    push_char(s, c);
    assert(final(s)@ =~= old(s)@ + decimal(n as nat));
}

/// Whether `c` is alphabetic or numeric in Unicode, as std's tables say.
pub uninterp spec fn alphanumeric(c: char) -> bool;

/// `char::is_alphanumeric`: whether `c` has Unicode's `Alphabetic` property or is
/// numeric (`Nd`, `Nl`, `No`). The tables are std's; the result is named, not stated.
#[verifier::external_body]
pub(crate) fn is_alphanumeric(c: char) -> (r: bool)
    ensures
        r == alphanumeric(c),
{
    c.is_alphanumeric()
}

} // verus!
