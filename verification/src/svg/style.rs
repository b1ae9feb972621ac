//! The embedded `<style>`: rule records, the dark-table prefix, and the last filter
//! that keeps markup characters and unexpected at-rules out of the style text.

use vstd::prelude::*;

use crate::parse::link::{index_from, lemma_index_from};
use crate::text::{chars_of, contains_char, has_char, owned, push_char, push_str, starts_with_at};

verus! {

/// Source-style rules, already serialised: `(selector without the id prefix, body)`.
pub struct SourceRule {
    pub selector: String,
    pub body: String,
}

/// A role rule: the body outside `@supports` and the declarations that replace it
/// inside, both already serialised.
pub struct RoleRule {
    pub selector: String,
    pub plain: String,
    pub mixed: String,
}

/// The opener of the `@supports` group the mixed rules sit in.
pub const SUPPORTS: &'static str = "@supports (color: color-mix(in oklab, #000, #fff)){";

/// The opener of the dark-scheme media group.
pub const DARK_MEDIA: &'static str = "@media (prefers-color-scheme: dark){";

/// The prefix of the rules of a palette's dark table.
pub fn dark_prefix(id: &str) -> (r: String)
    ensures
        r@ == "#"@ + id@ + ":not(:is([data-theme=\"light\"] *)) "@,
{
    let mut s = owned("#");
    push_str(&mut s, id);
    push_str(&mut s, ":not(:is([data-theme=\"light\"] *)) ");
    s
}

/// The end of the piece of `cs` that starts at `i`: just past the next `}`, or the end.
pub open spec fn piece_end(cs: Seq<char>, i: int) -> int {
    let j = index_from(cs, '}', i);
    if j < cs.len() {
        j + 1
    } else {
        cs.len() as int
    }
}

/// The number of `}` that open `p`.
pub open spec fn brace_run(p: Seq<char>, k: int) -> int
    decreases p.len() - k,
{
    if 0 <= k < p.len() && p[k] == '}' {
        brace_run(p, k + 1)
    } else {
        k
    }
}

/// Whether `p` holds a character that could end the style element or start an escape.
pub open spec fn has_markup(p: Seq<char>) -> bool {
    contains_char(p, '<') || contains_char(p, '&') || contains_char(p, '\\')
}

/// Whether a piece of style text is kept: it holds no markup character, and no `@`
/// unless it opens the `@supports` or dark-scheme group or a `@font-face` rule.
pub open spec fn keep_piece(p: Seq<char>) -> bool {
    let head = p.skip(brace_run(p, 0));
    let allowed = SUPPORTS@.is_prefix_of(head) || DARK_MEDIA@.is_prefix_of(head)
        || "@font-face"@.is_prefix_of(head);
    if has_markup(p) {
        false
    } else {
        !contains_char(p, '@') || allowed
    }
}

/// The kept pieces of `cs` from `i` on.
pub open spec fn safe_from(cs: Seq<char>, i: int) -> Seq<char>
    decreases cs.len() - i,
{
    if i < 0 || i >= cs.len() {
        Seq::empty()
    } else {
        let e = piece_end(cs, i);
        proof {
            lemma_index_from(cs, '}', i);
        }
        let p = cs.subrange(i, e);
        (if keep_piece(p) {
            p
        } else {
            Seq::empty()
        }) + safe_from(cs, e)
    }
}

/// Nothing the style filter lets through holds `<`, `&` or `\`.
pub proof fn lemma_safe_style_has_no_markup(cs: Seq<char>, i: int)
    ensures
        !has_markup(safe_from(cs, i)),
    decreases cs.len() - i,
{
    if 0 <= i < cs.len() {
        let e = piece_end(cs, i);
        lemma_index_from(cs, '}', i);
        lemma_safe_style_has_no_markup(cs, e);
        let p = cs.subrange(i, e);
        let kept = if keep_piece(p) {
            p
        } else {
            Seq::empty()
        };
        let rest = safe_from(cs, e);
        let all = kept + rest;
        assert(all == safe_from(cs, i));
        assert forall|k: int| 0 <= k < all.len() implies all[k] != '<' && all[k] != '&' && all[k]
            != '\\' by {
            if k < kept.len() {
                assert(all[k] == kept[k]);
            } else {
                assert(all[k] == rest[k - kept.len()]);
            }
        }
    }
}

/// Whether `cs[lo..hi]` is kept.
fn keep_range(cs: &Vec<char>, lo: usize, hi: usize) -> (r: bool)
    requires
        lo <= hi <= cs@.len(),
    ensures
        r == keep_piece(cs@.subrange(lo as int, hi as int)),
{
    let ghost p = cs@.subrange(lo as int, hi as int);
    if has_char(cs, lo, hi, '<') || has_char(cs, lo, hi, '&') || has_char(cs, lo, hi, '\\') {
        return false;
    }
    if !has_char(cs, lo, hi, '@') {
        return true;
    }
    let mut h = lo;
    while h < hi && cs[h] == '}'
        invariant
            lo <= h <= hi <= cs@.len(),
            p == cs@.subrange(lo as int, hi as int),
            brace_run(p, h - lo) == brace_run(p, 0),
        decreases hi - h,
    {
        assert(p[h - lo] == cs@[h as int]);
        h += 1;
    }
    proof {
        if h < hi {
            assert(p[h - lo] == cs@[h as int]);
        }
        assert(p.skip(h - lo) =~= cs@.subrange(h as int, hi as int));
    }
    starts_with_at(cs, h, hi, SUPPORTS) || starts_with_at(cs, h, hi, DARK_MEDIA)
        || starts_with_at(cs, h, hi, "@font-face")
}

/// Drops every piece of style text (up to and including each `}`) that holds `<`, `&`
/// or `\`, or an `@` other than the `@supports` and dark-scheme openers and
/// `@font-face`. Nothing the renderer builds contains them; this holds the guarantee at
/// run time as well.
pub fn drop_unsafe_rules(css: String) -> (r: String)
    ensures
        r@ == safe_from(css@, 0),
        !has_markup(r@),
{
    let cs = chars_of(css.as_str());
    let n = cs.len();
    let mut out = String::new();
    let mut i: usize = 0;
    while i < n
        invariant
            n == cs@.len(),
            cs@ == css@,
            i <= n,
            safe_from(cs@, 0) == out@ + safe_from(cs@, i as int),
        decreases n - i,
    {
        let mut j = i;
        while j < n && cs[j] != '}'
            invariant
                i <= j <= n,
                n == cs@.len(),
                index_from(cs@, '}', j as int) == index_from(cs@, '}', i as int),
            decreases n - j,
        {
            j += 1;
        }
        proof {
            lemma_index_from(cs@, '}', i as int);
        }
        let e = if j < n {
            j + 1
        } else {
            n
        };
        let ghost before = out@;
        let ghost p = cs@.subrange(i as int, e as int);
        if keep_range(&cs, i, e) {
            let mut k = i;
            while k < e
                invariant
                    i <= k <= e <= n,
                    n == cs@.len(),
                    out@ == before + cs@.subrange(i as int, k as int),
                decreases e - k,
            {
                crate::text::push_char(&mut out, cs[k]);
                k += 1;
                assert(out@ =~= before + cs@.subrange(i as int, k as int));
            }
        }
        proof {
            let kept = if keep_piece(p) {
                p
            } else {
                Seq::<char>::empty()
            };
            assert(out@ =~= before + kept);
            assert(safe_from(cs@, i as int) == kept + safe_from(cs@, e as int));
            assert(before + (kept + safe_from(cs@, e as int)) =~= out@ + safe_from(
                cs@,
                e as int,
            ));
        }
        i = e;
    }
    proof {
        assert(out@ + Seq::<char>::empty() =~= out@);
        lemma_safe_style_has_no_markup(cs@, 0);
    }
    out
}

/// The zero-specificity reset of the per-element tokens for the diagram `id`: a tone or
/// dash set on an ancestor, on `:root` or on a cluster never reaches a member element,
/// while a role rule on the group itself wins over it. Markers are reset too: they
/// inherit from `<defs>`, not from the edge that references them.
pub open spec fn token_reset(id: Seq<char>) -> Seq<char> {
    ":where(#"@ + id + " .merlion-node, #"@ + id + " .merlion-edge, #"@ + id
        + " .merlion-cluster, #"@ + id + " marker){--merlion-tone:initial;--merlion-dash:initial;}"@
}

/// Appends the per-element token reset for the diagram `id`.
pub fn push_token_reset(out: &mut String, id: &str)
    ensures
        final(out)@ == old(out)@ + token_reset(id@),
{
    push_str(out, ":where(#");
    push_str(out, id);
    push_str(out, " .merlion-node, #");
    push_str(out, id);
    push_str(out, " .merlion-edge, #");
    push_str(out, id);
    push_str(out, " .merlion-cluster, #");
    push_str(out, id);
    push_str(out, " marker){--merlion-tone:initial;--merlion-dash:initial;}");
    assert(final(out)@ =~= old(out)@ + token_reset(id@));
}

/// `cs[i..]` with every `pat`, left to right and without overlaps, replaced by `rep`.
pub open spec fn replaced_from(cs: Seq<char>, pat: Seq<char>, rep: Seq<char>, i: int) -> Seq<char>
    decreases cs.len() - i,
{
    if i < 0 || i >= cs.len() {
        Seq::empty()
    } else if pat.len() > 0 && i + pat.len() <= cs.len() && cs.subrange(i, i + pat.len()) == pat {
        rep + replaced_from(cs, pat, rep, i + pat.len())
    } else {
        seq![cs[i]] + replaced_from(cs, pat, rep, i + 1)
    }
}

/// Appends `{prefix}{selector}{body}`, where `#{id} ` inside a selector list becomes
/// `prefix`.
pub fn push_rule(out: &mut String, prefix: &str, selector: &str, body: &str)
    ensures
        final(out)@ == old(out)@ + prefix@ + replaced_from(selector@, "#{id} "@, prefix@, 0)
            + "{"@ + body@ + "}"@,
{
    let ghost start = out@;
    push_str(out, prefix);
    let cs = chars_of(selector);
    let n = cs.len();
    let pat = chars_of("#{id} ");
    let m = pat.len();
    let ghost mid = out@;
    let mut i: usize = 0;
    while i < n
        invariant
            n == cs@.len(),
            cs@ == selector@,
            pat@ == "#{id} "@,
            m == pat@.len(),
            i <= n,
            mid == start + prefix@,
            out@ + replaced_from(cs@, pat@, prefix@, i as int) == mid + replaced_from(
                cs@,
                pat@,
                prefix@,
                0,
            ),
        decreases n - i,
    {
        let ghost before = out@;
        if m > 0 && m <= n - i && crate::text::range_eq(&cs, i, i + m, "#{id} ") {
            push_str(out, prefix);
            proof {
                assert(before + (prefix@ + replaced_from(cs@, pat@, prefix@, i + m)) =~= out@
                    + replaced_from(cs@, pat@, prefix@, i + m));
            }
            i += m;
        } else {
            push_char(out, cs[i]);
            proof {
                assert(before + (seq![cs@[i as int]] + replaced_from(cs@, pat@, prefix@, i + 1))
                    =~= out@ + replaced_from(cs@, pat@, prefix@, i + 1));
            }
            i += 1;
        }
    }
    proof {
        assert(out@ + Seq::<char>::empty() =~= out@);
    }
    push_str(out, "{");
    push_str(out, body);
    push_str(out, "}");
    assert(final(out)@ =~= old(out)@ + prefix@ + replaced_from(selector@, "#{id} "@, prefix@, 0)
        + "{"@ + body@ + "}"@);
}

} // verus!
