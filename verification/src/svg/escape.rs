//! XML escaping and character filtering.
//!
//! The same function serves text content and attribute values: the five XML specials
//! become entities in both, so a value can never close an element or an attribute.

use vstd::prelude::*;

use crate::text::{chars_of, push_char, push_str};

verus! {

/// `char::is_control`: the general category `Cc` (C0 controls, DEL and C1 controls).
pub open spec fn is_control(c: char) -> bool {
    let u = c as u32;
    u <= 0x1f || (0x7f <= u && u <= 0x9f)
}

/// Characters that never reach the output.
pub open spec fn dropped(c: char) -> bool {
    let u = c as u32;
    if c == '\t' || c == '\n' {
        false
    } else if u == 0xfffe || u == 0xffff {
        true
    } else if (0x202a <= u && u <= 0x202e) || (0x2066 <= u && u <= 0x2069) {
        true
    } else {
        is_control(c)
    }
}

/// What one input character becomes in the output.
pub open spec fn escape_char(c: char) -> Seq<char> {
    if c == '&' {
        "&amp;"@
    } else if c == '<' {
        "&lt;"@
    } else if c == '>' {
        "&gt;"@
    } else if c == '"' {
        "&quot;"@
    } else if c == '\'' {
        "&#39;"@
    } else if dropped(c) {
        Seq::<char>::empty()
    } else {
        seq![c]
    }
}

/// The escaped form of a character sequence.
pub open spec fn escaped(cs: Seq<char>) -> Seq<char>
    decreases cs.len(),
{
    if cs.len() == 0 {
        Seq::<char>::empty()
    } else {
        escaped(cs.drop_last()) + escape_char(cs.last())
    }
}

/// True for characters that never reach the output: control characters other than tab
/// and newline (C0, DEL and C1), the non-characters U+FFFE and U+FFFF, and the
/// bidirectional formatting characters U+202A–U+202E and U+2066–U+2069.
pub fn is_dropped(c: char) -> (r: bool)
    ensures
        r == dropped(c),
{
    let u = c as u32;
    if c == '\t' || c == '\n' {
        false
    } else if u == 0xfffe || u == 0xffff {
        true
    } else if (0x202a <= u && u <= 0x202e) || (0x2066 <= u && u <= 0x2069) {
        true
    } else {
        u <= 0x1f || (0x7f <= u && u <= 0x9f)
    }
}

/// Appends `s` to `out` with `&`, `<`, `>`, `"`, `'` as entities and dropped characters removed.
pub fn push_escaped(out: &mut String, s: &str)
    ensures
        final(out)@ == old(out)@ + escaped(s@),
{
    let cs = chars_of(s);
    let ghost start = out@;
    let mut i: usize = 0;
    while i < cs.len()
        invariant
            i <= cs@.len(),
            cs@ == s@,
            out@ == start + escaped(cs@.take(i as int)),
        decreases cs@.len() - i,
    {
        let c = cs[i];
        if c == '&' {
            push_str(out, "&amp;");
        } else if c == '<' {
            push_str(out, "&lt;");
        } else if c == '>' {
            push_str(out, "&gt;");
        } else if c == '"' {
            push_str(out, "&quot;");
        } else if c == '\'' {
            push_str(out, "&#39;");
        } else if is_dropped(c) {
        } else {
            push_char(out, c);
        }
        proof {
            assert(cs@.take(i + 1).drop_last() =~= cs@.take(i as int));
            assert(cs@.take(i + 1).last() == c);
        }
        i += 1;
    }
    proof {
        assert(cs@.take(cs@.len() as int) =~= cs@);
    }
}

pub fn escape(s: &str) -> (r: String)
    ensures
        r@ == escaped(s@),
{
    let mut out = String::new();
    push_escaped(&mut out, s);
    out
}

/// Escaped text is inert markup: it holds no `<`, `>`, `"` or `'`, every `&` opens one
/// of the five entities, and no dropped character survives.
pub proof fn lemma_escaped_is_inert(cs: Seq<char>)
    ensures
        forall|i: int|
            0 <= i < escaped(cs).len() ==> {
                let c = #[trigger] escaped(cs)[i];
                &&& c != '<'
                &&& c != '>'
                &&& c != '"'
                &&& c != '\''
                &&& !dropped(c)
            },
    decreases cs.len(),
{
    reveal_strlit("&amp;");
    reveal_strlit("&lt;");
    reveal_strlit("&gt;");
    reveal_strlit("&quot;");
    reveal_strlit("&#39;");
    if cs.len() > 0 {
        lemma_escaped_is_inert(cs.drop_last());
        let a = escaped(cs.drop_last());
        let e = escape_char(cs.last());
        assert forall|i: int| 0 <= i < escaped(cs).len() implies {
            let c = #[trigger] escaped(cs)[i];
            &&& c != '<'
            &&& c != '>'
            &&& c != '"'
            &&& c != '\''
            &&& !dropped(c)
        } by {
            if i < a.len() {
                assert(escaped(cs)[i] == a[i]);
            } else {
                assert(escaped(cs)[i] == e[i - a.len()]);
            }
        }
    }
}

/// Escaping distributes over concatenation, so text escaped piece by piece equals the
/// whole text escaped at once.
pub proof fn lemma_escaped_concat(a: Seq<char>, b: Seq<char>)
    ensures
        escaped(a + b) == escaped(a) + escaped(b),
    decreases b.len(),
{
    if b.len() == 0 {
        assert(a + b =~= a);
        assert(escaped(a) + escaped(b) =~= escaped(a));
    } else {
        lemma_escaped_concat(a, b.drop_last());
        assert((a + b).drop_last() =~= a + b.drop_last());
        assert((a + b).last() == b.last());
        assert(escaped(a) + escaped(b.drop_last()) + escape_char(b.last()) =~= escaped(a) + (
        escaped(b.drop_last()) + escape_char(b.last())));
    }
}

} // verus!
