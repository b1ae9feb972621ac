//! Typed source styles: the parts of the `classDef`, `style` and `linkStyle` grammar
//! that are plain text, such as the named colours and the ranges of dropped declarations.

use vstd::prelude::*;

use crate::text::{
    byte_at, char_offsets, char_slice, chars_of, eq_ignore_case, is_unicode_ws, is_whitespace,
    lower_chars, lower_seq, range_eq, range_eq_ignore_case, starts_with_at, trim_bounds, trim_ws,
    ws_lead, ws_trail,
};

verus! {

/// A declaration that was dropped, as a byte range relative to the parsed text.
#[derive(Clone, Debug, PartialEq, Eq)]
pub struct Rejected {
    pub start: usize,
    pub end: usize,
    pub message: String,
}

/// The CSS Color Module Level 4 named colours, sorted. `transparent` is a keyword of
/// its own.
pub open spec fn named_color_table() -> Seq<&'static str> {
    seq![
        "aliceblue", "antiquewhite", "aqua", "aquamarine", "azure", "beige", "bisque", "black",
        "blanchedalmond", "blue", "blueviolet", "brown", "burlywood", "cadetblue", "chartreuse",
        "chocolate", "coral", "cornflowerblue", "cornsilk", "crimson", "cyan", "darkblue",
        "darkcyan", "darkgoldenrod", "darkgray", "darkgreen", "darkgrey", "darkkhaki",
        "darkmagenta", "darkolivegreen", "darkorange", "darkorchid", "darkred", "darksalmon",
        "darkseagreen", "darkslateblue", "darkslategray", "darkslategrey", "darkturquoise",
        "darkviolet", "deeppink", "deepskyblue", "dimgray", "dimgrey", "dodgerblue", "firebrick",
        "floralwhite", "forestgreen", "fuchsia", "gainsboro", "ghostwhite", "gold", "goldenrod",
        "gray", "green", "greenyellow", "grey", "honeydew", "hotpink", "indianred", "indigo",
        "ivory", "khaki", "lavender", "lavenderblush", "lawngreen", "lemonchiffon", "lightblue",
        "lightcoral", "lightcyan", "lightgoldenrodyellow", "lightgray", "lightgreen", "lightgrey",
        "lightpink", "lightsalmon", "lightseagreen", "lightskyblue", "lightslategray",
        "lightslategrey", "lightsteelblue", "lightyellow", "lime", "limegreen", "linen", "magenta",
        "maroon", "mediumaquamarine", "mediumblue", "mediumorchid", "mediumpurple",
        "mediumseagreen", "mediumslateblue", "mediumspringgreen", "mediumturquoise",
        "mediumvioletred", "midnightblue", "mintcream", "mistyrose", "moccasin", "navajowhite",
        "navy", "oldlace", "olive", "olivedrab", "orange", "orangered", "orchid", "palegoldenrod",
        "palegreen", "paleturquoise", "palevioletred", "papayawhip", "peachpuff", "peru", "pink",
        "plum", "powderblue", "purple", "rebeccapurple", "red", "rosybrown", "royalblue",
        "saddlebrown", "salmon", "sandybrown", "seagreen", "seashell", "sienna", "silver",
        "skyblue", "slateblue", "slategray", "slategrey", "snow", "springgreen", "steelblue",
        "tan", "teal", "thistle", "tomato", "turquoise", "violet", "wheat", "white", "whitesmoke",
        "yellow", "yellowgreen",
    ]
}

/// The named colours, in the order of [`named_color_table`].
pub fn named_colors() -> (v: Vec<&'static str>)
    ensures
        v@ == named_color_table(),
{
    let v: Vec<&'static str> = vec![
        "aliceblue", "antiquewhite", "aqua", "aquamarine", "azure", "beige", "bisque", "black",
        "blanchedalmond", "blue", "blueviolet", "brown", "burlywood", "cadetblue", "chartreuse",
        "chocolate", "coral", "cornflowerblue", "cornsilk", "crimson", "cyan", "darkblue",
        "darkcyan", "darkgoldenrod", "darkgray", "darkgreen", "darkgrey", "darkkhaki",
        "darkmagenta", "darkolivegreen", "darkorange", "darkorchid", "darkred", "darksalmon",
        "darkseagreen", "darkslateblue", "darkslategray", "darkslategrey", "darkturquoise",
        "darkviolet", "deeppink", "deepskyblue", "dimgray", "dimgrey", "dodgerblue", "firebrick",
        "floralwhite", "forestgreen", "fuchsia", "gainsboro", "ghostwhite", "gold", "goldenrod",
        "gray", "green", "greenyellow", "grey", "honeydew", "hotpink", "indianred", "indigo",
        "ivory", "khaki", "lavender", "lavenderblush", "lawngreen", "lemonchiffon", "lightblue",
        "lightcoral", "lightcyan", "lightgoldenrodyellow", "lightgray", "lightgreen", "lightgrey",
        "lightpink", "lightsalmon", "lightseagreen", "lightskyblue", "lightslategray",
        "lightslategrey", "lightsteelblue", "lightyellow", "lime", "limegreen", "linen", "magenta",
        "maroon", "mediumaquamarine", "mediumblue", "mediumorchid", "mediumpurple",
        "mediumseagreen", "mediumslateblue", "mediumspringgreen", "mediumturquoise",
        "mediumvioletred", "midnightblue", "mintcream", "mistyrose", "moccasin", "navajowhite",
        "navy", "oldlace", "olive", "olivedrab", "orange", "orangered", "orchid", "palegoldenrod",
        "palegreen", "paleturquoise", "palevioletred", "papayawhip", "peachpuff", "peru", "pink",
        "plum", "powderblue", "purple", "rebeccapurple", "red", "rosybrown", "royalblue",
        "saddlebrown", "salmon", "sandybrown", "seagreen", "seashell", "sienna", "silver",
        "skyblue", "slateblue", "slategray", "slategrey", "snow", "springgreen", "steelblue",
        "tan", "teal", "thistle", "tomato", "turquoise", "violet", "wheat", "white", "whitesmoke",
        "yellow", "yellowgreen",
    ];
    assert(v@ =~= named_color_table());
    v
}

/// Whether `name`, lower-cased, is a named colour.
pub open spec fn named_color(name: Seq<char>) -> bool {
    exists|i: int| 0 <= i < named_color_table().len() && (#[trigger] named_color_table()[i])@ == lower_seq(name)
}

/// Whether `name` (case-insensitive) is one of the 148 CSS named colours.
pub fn is_named_color(name: &str) -> (r: bool)
    ensures
        r == named_color(name@),
{
    let lower = lower_chars(name);
    let n = lower.len();
    assert(lower@.subrange(0, n as int) =~= lower@);
    let table = named_colors();
    let mut i: usize = 0;
    while i < table.len()
        invariant
            table@ == named_color_table(),
            i <= table@.len(),
            n == lower@.len(),
            lower@ == lower_seq(name@),
            lower@.subrange(0, n as int) == lower@,
            forall|k: int| 0 <= k < i ==> (#[trigger] table@[k])@ != lower@,
        decreases table@.len() - i,
    {
        if range_eq(&lower, 0, n, table[i]) {
            return true;
        }
        i += 1;
    }
    false
}

/// `b` as a hexadecimal digit.
pub open spec fn hex_digit_of(b: u8) -> Option<u8> {
    if 0x30 <= b <= 0x39 {
        Some((b - 0x30) as u8)
    } else if 0x61 <= b <= 0x66 {
        Some((b - 0x61 + 10) as u8)
    } else if 0x41 <= b <= 0x46 {
        Some((b - 0x41 + 10) as u8)
    } else {
        None
    }
}

/// The value of the hexadecimal digit `b`.
pub fn hex_digit(b: u8) -> (r: Option<u8>)
    ensures
        r == hex_digit_of(b),
{
    if 0x30 <= b && b <= 0x39 {
        Some(b - 0x30)
    } else if 0x61 <= b && b <= 0x66 {
        Some(b - 0x61 + 10)
    } else if 0x41 <= b && b <= 0x46 {
        Some(b - 0x41 + 10)
    } else {
        None
    }
}

/// The text inside the parentheses of `name(args)`, for the first of `names` (from
/// index `i` on) that prefixes `s`; whitespace may separate the name from `(`.
pub open spec fn args_of(s: Seq<char>, names: Seq<&'static str>, i: int) -> Option<Seq<char>>
    decreases names.len() - i,
{
    if i < 0 || i >= names.len() {
        None
    } else if names[i]@.is_prefix_of(s) {
        let rest = s.skip(names[i]@.len() as int);
        let t = rest.skip(ws_lead(rest, 0));
        if t.len() >= 2 && t[0] == '(' && t.last() == ')' {
            Some(t.subrange(1, t.len() - 1))
        } else {
            None
        }
    } else {
        args_of(s, names, i + 1)
    }
}

/// `name(args)` for the first of `names` that prefixes `s` (list longer names first);
/// returns the text inside the parentheses.
pub fn function_args<'a>(s: &'a str, names: &[&'static str]) -> (r: Option<&'a str>)
    ensures
        match r {
            Some(t) => args_of(s@, names@, 0) == Some(t@),
            None => args_of(s@, names@, 0) is None,
        },
{
    let cs = chars_of(s);
    let n = cs.len();
    let mut i: usize = 0;
    while i < names.len()
        invariant
            cs@ == s@,
            n == cs@.len(),
            i <= names@.len(),
            args_of(s@, names@, i as int) == args_of(s@, names@, 0),
        decreases names@.len() - i,
    {
        let name = names[i];
        proof {
            assert(cs@.subrange(0, n as int) =~= cs@);
        }
        if starts_with_at(&cs, 0, n, name) {
            let m = chars_of(name).len();
            let ghost rest = s@.skip(m as int);
            let mut a = m;
            while a < n && is_whitespace(cs[a])
                invariant
                    m <= a <= n,
                    n == cs@.len(),
                    cs@ == s@,
                    rest == s@.skip(m as int),
                    ws_lead(rest, a - m) == ws_lead(rest, 0),
                decreases n - a,
            {
                assert(rest[a - m] == cs@[a as int]);
                a += 1;
            }
            proof {
                if a < n {
                    assert(rest[a - m] == cs@[a as int]);
                }
                assert(ws_lead(rest, 0) == a - m);
                assert(rest.skip(a - m) =~= cs@.subrange(a as int, n as int));
            }
            if n - a >= 2 && cs[a] == '(' && cs[n - 1] == ')' {
                let r = char_slice(s, &cs, a + 1, n - 1);
                assert(r@ =~= cs@.subrange(a as int, n as int).subrange(1, (n - a) - 1));
                return Some(r);
            }
            return None;
        }
        i += 1;
    }
    None
}

/// `depth + 1`, saturating at the largest `usize`.
pub open spec fn sat_inc(depth: int) -> int {
    if depth < usize::MAX {
        depth + 1
    } else {
        depth
    }
}

/// The character ranges of `cs` between the commas at parenthesis depth 0, from index
/// `i` on, where the current piece began at `start`.
pub open spec fn pieces_from(cs: Seq<char>, i: int, depth: int, start: int) -> Seq<(int, int)>
    decreases cs.len() - i,
{
    if i < 0 || i >= cs.len() {
        seq![(start, cs.len() as int)]
    } else {
        let c = cs[i];
        if c == '(' {
            pieces_from(cs, i + 1, sat_inc(depth), start)
        } else if c == ')' {
            pieces_from(
                cs,
                i + 1,
                if depth > 0 {
                    depth - 1
                } else {
                    0
                },
                start,
            )
        } else if c == ',' && depth == 0 {
            seq![(start, i)] + pieces_from(cs, i + 1, depth, i + 1)
        } else {
            pieces_from(cs, i + 1, depth, start)
        }
    }
}

/// The first index in `s..e` that is not whitespace, or `e`.
pub open spec fn lead_in(cs: Seq<char>, s: int, e: int) -> int
    decreases e - s,
{
    if 0 <= s < e && is_unicode_ws(cs[s]) {
        lead_in(cs, s + 1, e)
    } else {
        s
    }
}

/// `cs[s..e]` without leading and trailing whitespace; an all-whitespace piece becomes
/// the empty range at `e`.
pub open spec fn trim_piece(cs: Seq<char>, s: int, e: int) -> (int, int) {
    let a = lead_in(cs, s, e);
    let b = ws_trail(cs, s, e);
    (
        a,
        if b < a {
            a
        } else {
            b
        },
    )
}

/// The first index of `c` in `cs[k..e]`, or `e`.
pub open spec fn char_from(cs: Seq<char>, c: char, k: int, e: int) -> int
    decreases e - k,
{
    if k < 0 || k >= e {
        e
    } else if cs[k] == c {
        k
    } else {
        char_from(cs, c, k + 1, e)
    }
}

/// The declaration `cs[r.0..r.1]` sets `stroke-dasharray` (in any ASCII case).
pub open spec fn dasharray_decl(cs: Seq<char>, r: (int, int)) -> bool {
    eq_ignore_case(trim_ws(cs.subrange(r.0, char_from(cs, ':', r.0, r.1))), "stroke-dasharray"@)
}

/// Trims the pieces from index `k` on and appends them to `out`: empty pieces vanish,
/// and a piece without `:` after a `stroke-dasharray` declaration extends it.
pub open spec fn merge_decls(cs: Seq<char>, ps: Seq<(int, int)>, k: int, out: Seq<(int, int)>) -> Seq<
    (int, int),
>
    decreases ps.len() - k,
{
    if k < 0 || k >= ps.len() {
        out
    } else {
        let (s, e) = trim_piece(cs, ps[k].0, ps[k].1);
        if s >= e {
            merge_decls(cs, ps, k + 1, out)
        } else if char_from(cs, ':', s, e) == e && out.len() > 0 && dasharray_decl(cs, out.last()) {
            merge_decls(cs, ps, k + 1, out.update(out.len() - 1, (out.last().0, e)))
        } else {
            merge_decls(cs, ps, k + 1, out.push((s, e)))
        }
    }
}

/// The trimmed declarations of a style list, as character ranges.
pub open spec fn decl_ranges(cs: Seq<char>) -> Seq<(int, int)> {
    merge_decls(cs, pieces_from(cs, 0, 0, 0), 0, Seq::empty())
}

spec fn ints(v: Seq<(usize, usize)>) -> Seq<(int, int)> {
    v.map_values(|p: (usize, usize)| (p.0 as int, p.1 as int))
}

proof fn lemma_lead_in(cs: Seq<char>, s: int, e: int)
    requires
        0 <= s <= e,
    ensures
        s <= lead_in(cs, s, e) <= e,
    decreases e - s,
{
    if s < e && is_unicode_ws(cs[s]) {
        lemma_lead_in(cs, s + 1, e);
    }
}

proof fn lemma_ws_trail_bounds(cs: Seq<char>, lo: int, j: int)
    requires
        0 <= lo <= j,
    ensures
        lo <= ws_trail(cs, lo, j) <= j,
    decreases j - lo,
{
    if lo < j <= cs.len() && is_unicode_ws(cs[j - 1]) {
        lemma_ws_trail_bounds(cs, lo, j - 1);
    }
}

/// `cs[s..e]` without leading and trailing whitespace.
fn trim_range(cs: &Vec<char>, s: usize, e: usize) -> (r: (usize, usize))
    requires
        s <= e <= cs@.len(),
    ensures
        (r.0 as int, r.1 as int) == trim_piece(cs@, s as int, e as int),
        s <= r.0 <= r.1 <= e,
{
    proof {
        lemma_lead_in(cs@, s as int, e as int);
        lemma_ws_trail_bounds(cs@, s as int, e as int);
    }
    let mut a = s;
    while a < e && is_whitespace(cs[a])
        invariant
            s <= a <= e <= cs@.len(),
            lead_in(cs@, a as int, e as int) == lead_in(cs@, s as int, e as int),
        decreases e - a,
    {
        a += 1;
    }
    let mut b = e;
    while b > s && is_whitespace(cs[b - 1])
        invariant
            s <= b <= e <= cs@.len(),
            ws_trail(cs@, s as int, b as int) == ws_trail(cs@, s as int, e as int),
        decreases b,
    {
        b -= 1;
    }
    if b < a {
        (a, a)
    } else {
        (a, b)
    }
}

/// Whether the declaration `cs[s..e]` sets `stroke-dasharray`.
fn is_dasharray(cs: &Vec<char>, s: usize, e: usize) -> (r: bool)
    requires
        s <= e <= cs@.len(),
    ensures
        r == dasharray_decl(cs@, (s as int, e as int)),
{
    let mut c = s;
    while c < e && cs[c] != ':'
        invariant
            s <= c <= e <= cs@.len(),
            char_from(cs@, ':', c as int, e as int) == char_from(cs@, ':', s as int, e as int),
        decreases e - c,
    {
        c += 1;
    }
    let (a, b) = trim_bounds(cs, s, c);
    range_eq_ignore_case(cs, a, b, "stroke-dasharray")
}

/// Splits a style list into trimmed `(start, end)` byte ranges of its declarations.
/// Commas at parenthesis depth 0 separate declarations. A comma-separated
/// `stroke-dasharray` (`5, 10`) would otherwise split into a piece without a `:`, so
/// such a piece is merged back into a preceding `stroke-dasharray`.
pub fn split_decls(text: &str) -> (r: Vec<(usize, usize)>)
    ensures
        r@.len() == decl_ranges(text@).len(),
        forall|k: int|
            0 <= k < r@.len() ==> (#[trigger] r@[k]).0 == byte_at(text@, decl_ranges(text@)[k].0)
                && r@[k].1 == byte_at(text@, decl_ranges(text@)[k].1),
{
    let (cs, offs) = char_offsets(text);
    let n = cs.len();
    let ghost all = pieces_from(cs@, 0, 0, 0);
    let mut raw: Vec<(usize, usize)> = Vec::new();
    let mut depth: usize = 0;
    let mut start: usize = 0;
    let mut i: usize = 0;
    proof {
        assert(ints(raw@) + pieces_from(cs@, 0, 0, 0) =~= all);
    }
    while i < n
        invariant
            n == cs@.len(),
            start <= i <= n,
            all == pieces_from(cs@, 0, 0, 0),
            ints(raw@) + pieces_from(cs@, i as int, depth as int, start as int) == all,
            forall|k: int| 0 <= k < raw@.len() ==> (#[trigger] raw@[k]).0 <= raw@[k].1 <= start,
            forall|a: int, b: int| 0 <= a < b < raw@.len() ==> (#[trigger] raw@[a]).1 <= (
            #[trigger] raw@[b]).0,
        decreases n - i,
    {
        let c = cs[i];
        let ghost before = ints(raw@);
        if c == '(' {
            depth = depth.saturating_add(1);
        } else if c == ')' {
            depth = depth.saturating_sub(1);
        } else if c == ',' && depth == 0 {
            raw.push((start, i));
            proof {
                assert(ints(raw@) =~= before + seq![(start as int, i as int)]);
                assert(before + (seq![(start as int, i as int)] + pieces_from(
                    cs@,
                    i + 1,
                    depth as int,
                    i + 1,
                )) =~= ints(raw@) + pieces_from(cs@, i + 1, depth as int, i + 1));
            }
            start = i + 1;
        }
        i += 1;
    }
    raw.push((start, n));
    proof {
        assert(ints(raw@) =~= all);
    }
    let mut out: Vec<(usize, usize)> = Vec::new();
    let mut k: usize = 0;
    proof {
        assert(ints(out@) =~= Seq::<(int, int)>::empty());
    }
    while k < raw.len()
        invariant
            n == cs@.len(),
            ints(raw@) == all,
            all == pieces_from(cs@, 0, 0, 0),
            forall|j: int| 0 <= j < raw@.len() ==> (#[trigger] raw@[j]).0 <= raw@[j].1 <= n,
            forall|a: int, b: int| 0 <= a < b < raw@.len() ==> (#[trigger] raw@[a]).1 <= (
            #[trigger] raw@[b]).0,
            k <= raw@.len(),
            forall|j: int| 0 <= j < out@.len() ==> (#[trigger] out@[j]).0 <= out@[j].1 <= n,
            k < raw@.len() ==> forall|j: int| 0 <= j < out@.len() ==> (#[trigger] out@[j]).1 <= raw@[k as int].0,
            merge_decls(cs@, all, k as int, ints(out@)) == decl_ranges(cs@),
        decreases raw@.len() - k,
    {
        let (s0, e0) = raw[k];
        assert(all[k as int] == (s0 as int, e0 as int));
        let (s, e) = trim_range(&cs, s0, e0);
        if s < e {
            let mut c = s;
            while c < e && cs[c] != ':'
                invariant
                    s <= c <= e <= cs@.len(),
                    char_from(cs@, ':', c as int, e as int) == char_from(cs@, ':', s as int, e as int),
                decreases e - c,
            {
                c += 1;
            }
            let ghost before = ints(out@);
            if c == e && out.len() > 0 && is_dasharray(&cs, out[out.len() - 1].0, out[out.len() - 1].1) {
                let last = out.len() - 1;
                let ls = out[last].0;
                out.set(last, (ls, e));
                proof {
                    assert(ints(out@) =~= before.update(before.len() - 1, (before.last().0, e as int)));
                }
            } else {
                out.push((s, e));
                proof {
                    assert(ints(out@) =~= before.push((s as int, e as int)));
                }
            }
        }
        k += 1;
    }
    let mut r: Vec<(usize, usize)> = Vec::new();
    let mut j: usize = 0;
    while j < out.len()
        invariant
            n == cs@.len(),
            cs@ == text@,
            offs@.len() == n + 1,
            forall|q: int| 0 <= q <= n ==> #[trigger] offs@[q] == byte_at(text@, q),
            forall|q: int| 0 <= q < out@.len() ==> (#[trigger] out@[q]).0 <= out@[q].1 <= n,
            ints(out@) == decl_ranges(cs@),
            j <= out@.len(),
            r@.len() == j,
            forall|q: int|
                0 <= q < j ==> (#[trigger] r@[q]).0 == byte_at(text@, out@[q].0 as int) && r@[q].1
                    == byte_at(text@, out@[q].1 as int),
        decreases out@.len() - j,
    {
        let (a, b) = out[j];
        r.push((offs[a], offs[b]));
        j += 1;
    }
    proof {
        assert forall|q: int| 0 <= q < r@.len() implies (#[trigger] r@[q]).0 == byte_at(
            text@,
            decl_ranges(text@)[q].0,
        ) && r@[q].1 == byte_at(text@, decl_ranges(text@)[q].1) by {
            assert(ints(out@)[q] == (out@[q].0 as int, out@[q].1 as int));
        }
    }
    r
}

/// The pieces of `cs` between the occurrences of `c`, from index `i` on, where the
/// current piece began at `start`.
pub open spec fn split_from(cs: Seq<char>, c: char, i: int, start: int) -> Seq<Seq<char>>
    decreases cs.len() - i,
{
    if i < 0 || i >= cs.len() {
        seq![cs.subrange(start, cs.len() as int)]
    } else if cs[i] == c {
        seq![cs.subrange(start, i)] + split_from(cs, c, i + 1, i + 1)
    } else {
        split_from(cs, c, i + 1, start)
    }
}

/// The whitespace-separated words of `cs`, from index `i` on.
pub open spec fn words_from(cs: Seq<char>, i: int) -> Seq<Seq<char>>
    decreases cs.len() - i,
{
    if i < 0 || i >= cs.len() {
        Seq::empty()
    } else if is_unicode_ws(cs[i]) {
        words_from(cs, i + 1)
    } else {
        let e = ws_from(cs, i);
        proof {
            lemma_ws_from(cs, i + 1);
        }
        seq![cs.subrange(i, e)] + words_from(cs, e)
    }
}

/// The first whitespace index at or after `i`, or the end.
pub open spec fn ws_from(cs: Seq<char>, i: int) -> int
    decreases cs.len() - i,
{
    if i < 0 || i >= cs.len() || is_unicode_ws(cs[i]) {
        i
    } else {
        ws_from(cs, i + 1)
    }
}

pub proof fn lemma_ws_from(cs: Seq<char>, i: int)
    requires
        0 <= i <= cs.len(),
    ensures
        i <= ws_from(cs, i) <= cs.len(),
        ws_from(cs, i) < cs.len() ==> is_unicode_ws(cs[ws_from(cs, i)]),
    decreases cs.len() - i,
{
    if i < cs.len() && !is_unicode_ws(cs[i]) {
        lemma_ws_from(cs, i + 1);
    }
}

/// The arguments of a CSS colour function: comma-separated and trimmed, or
/// space-separated with an optional `/ alpha`, which needs exactly three values before
/// it.
pub open spec fn color_args(cs: Seq<char>) -> Option<Seq<Seq<char>>> {
    if crate::text::contains_char(cs, ',') {
        Some(split_from(cs, ',', 0, 0).map_values(|p: Seq<char>| trim_ws(p)))
    } else {
        let slash = char_from(cs, '/', 0, cs.len() as int);
        if slash < cs.len() {
            let main = words_from(cs.subrange(0, slash), 0);
            if main.len() != 3 {
                None
            } else {
                Some(main.push(trim_ws(cs.subrange(slash + 1, cs.len() as int))))
            }
        } else {
            Some(words_from(cs, 0))
        }
    }
}

/// The texts of a list of string slices.
pub open spec fn texts(v: Seq<&str>) -> Seq<Seq<char>> {
    v.map_values(|t: &str| t@)
}

/// Splits CSS colour-function arguments: comma-separated, or the space-separated form
/// with an optional `/ alpha`.
pub fn split_args<'a>(args: &'a str) -> (r: Option<Vec<&'a str>>)
    ensures
        match r {
            Some(v) => color_args(args@) == Some(texts(v@)),
            None => color_args(args@) is None,
        },
{
    let cs = chars_of(args);
    let n = cs.len();
    if crate::text::has_char(&cs, 0, n, ',') {
        proof {
            assert(cs@.subrange(0, n as int) =~= cs@);
        }
        let ghost all = split_from(cs@, ',', 0, 0);
        let mut out: Vec<&'a str> = Vec::new();
        let mut start: usize = 0;
        let mut i: usize = 0;
        proof {
            assert(texts(out@) + split_from(cs@, ',', 0, 0).map_values(|p: Seq<char>| trim_ws(p))
                =~= all.map_values(|p: Seq<char>| trim_ws(p)));
        }
        while i < n
            invariant
                cs@ == args@,
                n == cs@.len(),
                start <= i <= n,
                all == split_from(cs@, ',', 0, 0),
                texts(out@) + split_from(cs@, ',', i as int, start as int).map_values(
                    |p: Seq<char>| trim_ws(p),
                ) == all.map_values(|p: Seq<char>| trim_ws(p)),
            decreases n - i,
        {
            if cs[i] == ',' {
                let piece = char_slice(args, &cs, start, i);
                let t = crate::text::trim_str(piece);
                let ghost before = texts(out@);
                out.push(t);
                proof {
                    let rest = split_from(cs@, ',', i + 1, i + 1);
                    assert(split_from(cs@, ',', i as int, start as int) == seq![
                        cs@.subrange(start as int, i as int),
                    ] + rest);
                    assert((seq![cs@.subrange(start as int, i as int)] + rest).map_values(
                        |p: Seq<char>| trim_ws(p),
                    ) =~= seq![trim_ws(cs@.subrange(start as int, i as int))] + rest.map_values(
                        |p: Seq<char>| trim_ws(p),
                    ));
                    assert(texts(out@) =~= before.push(t@));
                    assert(before + (seq![trim_ws(cs@.subrange(start as int, i as int))]
                        + rest.map_values(|p: Seq<char>| trim_ws(p))) =~= texts(out@)
                        + rest.map_values(|p: Seq<char>| trim_ws(p)));
                }
                start = i + 1;
            }
            i += 1;
        }
        let piece = char_slice(args, &cs, start, n);
        let t = crate::text::trim_str(piece);
        let ghost before = texts(out@);
        out.push(t);
        proof {
            assert(split_from(cs@, ',', n as int, start as int) == seq![
                cs@.subrange(start as int, n as int),
            ]);
            assert(seq![cs@.subrange(start as int, n as int)].map_values(|p: Seq<char>| trim_ws(p))
                =~= seq![trim_ws(cs@.subrange(start as int, n as int))]);
            assert(texts(out@) =~= before.push(t@));
            assert(texts(out@) =~= all.map_values(|p: Seq<char>| trim_ws(p)));
        }
        return Some(out);
    }
    proof {
        assert(cs@.subrange(0, n as int) =~= cs@);
    }
    let mut slash: usize = 0;
    while slash < n && cs[slash] != '/'
        invariant
            slash <= n,
            n == cs@.len(),
            char_from(cs@, '/', slash as int, n as int) == char_from(cs@, '/', 0, n as int),
        decreases n - slash,
    {
        slash += 1;
    }
    let main_end = slash;
    let ghost main = cs@.subrange(0, main_end as int);
    // The words of `cs[..main_end]`.
    let mut out: Vec<&'a str> = Vec::new();
    let mut i: usize = 0;
    proof {
        assert(texts(out@) + words_from(main, 0) =~= words_from(main, 0));
    }
    while i < main_end
        invariant
            cs@ == args@,
            n == cs@.len(),
            main_end <= n,
            main == cs@.subrange(0, main_end as int),
            i <= main_end,
            texts(out@) + words_from(main, i as int) == words_from(main, 0),
        decreases main_end - i,
    {
        if is_whitespace(cs[i]) {
            assert(main[i as int] == cs@[i as int]);
            i += 1;
        } else {
            let mut e = i;
            proof {
                lemma_ws_from(main, i as int);
            }
            while e < main_end && !is_whitespace(cs[e])
                invariant
                    i <= e <= main_end <= n,
                    n == cs@.len(),
                    main == cs@.subrange(0, main_end as int),
                    ws_from(main, e as int) == ws_from(main, i as int),
                decreases main_end - e,
            {
                assert(main[e as int] == cs@[e as int]);
                e += 1;
            }
            proof {
                if e < main_end {
                    assert(main[e as int] == cs@[e as int]);
                }
                assert(ws_from(main, e as int) == e);
                assert(main[i as int] == cs@[i as int]);
            }
            let w = char_slice(args, &cs, i, e);
            let ghost before = texts(out@);
            out.push(w);
            proof {
                assert(main.subrange(i as int, e as int) =~= cs@.subrange(i as int, e as int));
                assert(texts(out@) =~= before.push(w@));
                assert(before + (seq![main.subrange(i as int, e as int)] + words_from(main, e as int))
                    =~= texts(out@) + words_from(main, e as int));
            }
            i = e;
        }
    }
    proof {
        assert(texts(out@) =~= words_from(main, 0));
    }
    if slash < n {
        if out.len() != 3 {
            return None;
        }
        let a = crate::text::trim_str(char_slice(args, &cs, slash + 1, n));
        let ghost before = texts(out@);
        out.push(a);
        proof {
            assert(texts(out@) =~= before.push(a@));
        }
        return Some(out);
    }
    proof {
        assert(main =~= cs@);
    }
    Some(out)
}

} // verus!
