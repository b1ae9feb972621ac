//! Repair helpers: applying `Diagnostic.fix` edits to source text, as a fixing check
//! and editor quick fixes do, and recognising Markdown code fences left in the source.

use vstd::prelude::*;
use vstd::string::StringSliceAdditionalSpecFns;
use vstd::utf8::*;

use crate::diag::{Diagnostic, Fix};
use crate::text::{
    chars_of, lemma_encode_concat, lemma_valid, push_str, slice, str_get, trim_bounds, trim_str,
    trim_ws,
};

verus! {

broadcast use vstd::utf8::group_utf8_lib;

// ---------------------------------------------------------------------------------------
// The model: fixes as byte edits
// ---------------------------------------------------------------------------------------

/// A fix as plain values: the byte range it replaces, the UTF-8 bytes that replace it,
/// and its position among the fixes of the diagnostics.
pub struct Edit {
    pub start: int,
    pub end: int,
    pub rep: Seq<u8>,
    pub order: int,
}

/// The fix `f` as the `order`-th edit.
pub open spec fn edit_of(f: Fix, order: int) -> Edit {
    Edit {
        start: f.span.byte_start as int,
        end: f.span.byte_end as int,
        rep: encode_utf8(f.replacement@),
        order,
    }
}

/// The fixes carried by `diags`, in diagnostic order.
pub open spec fn fixes_of(diags: Seq<Diagnostic>) -> Seq<Fix>
    decreases diags.len(),
{
    if diags.len() == 0 {
        Seq::empty()
    } else {
        let rest = fixes_of(diags.drop_last());
        match diags.last().fix {
            Some(f) => rest.push(f),
            None => rest,
        }
    }
}

/// The fixes of `diags` as edits, numbered in diagnostic order.
pub open spec fn edits_of(diags: Seq<Diagnostic>) -> Seq<Edit> {
    let fs = fixes_of(diags);
    Seq::new(fs.len(), |i: int| edit_of(fs[i], i))
}

/// The order edits are applied in: descending by start, then by end; among equal
/// ranges, the later diagnostic first.
pub open spec fn goes_before(a: Edit, b: Edit) -> bool {
    a.start > b.start || (a.start == b.start && (a.end > b.end || (a.end == b.end && a.order
        > b.order)))
}

/// `s` with `x` inserted before the first element that `x` goes before.
pub open spec fn insert_edit(s: Seq<Edit>, x: Edit) -> Seq<Edit>
    decreases s.len(),
{
    if s.len() == 0 {
        seq![x]
    } else if goes_before(x, s[0]) {
        seq![x] + s
    } else {
        seq![s[0]] + insert_edit(s.skip(1), x)
    }
}

/// The edits of `s` in application order.
pub open spec fn sort_edits(s: Seq<Edit>) -> Seq<Edit>
    decreases s.len(),
{
    if s.len() == 0 {
        Seq::empty()
    } else {
        insert_edit(sort_edits(s.drop_last()), s.last())
    }
}

/// Whether `e` can be applied to `src` when the leftmost applied range starts at `floor`:
/// an ordered range, inside the text, on character boundaries, and not overlapping.
pub open spec fn admissible(src: Seq<u8>, e: Edit, floor: int) -> bool {
    &&& 0 <= e.start <= e.end <= src.len()
    &&& is_char_boundary(src, e.start)
    &&& is_char_boundary(src, e.end)
    &&& e.end <= floor
}

/// The edits of `s` (in application order) that are applied, in that order.
pub open spec fn chosen(src: Seq<u8>, s: Seq<Edit>, floor: int) -> Seq<Edit>
    decreases s.len(),
{
    if s.len() == 0 {
        Seq::empty()
    } else if admissible(src, s[0], floor) {
        seq![s[0]] + chosen(src, s.skip(1), s[0].start)
    } else {
        chosen(src, s.skip(1), floor)
    }
}

/// `src` with the edits of `a` applied one after the other, each replacing its range.
pub open spec fn assemble(src: Seq<u8>, a: Seq<Edit>) -> Seq<u8>
    decreases a.len(),
{
    if a.len() == 0 {
        src
    } else {
        assemble(src.take(a[0].start), a.skip(1)) + a[0].rep + src.skip(a[0].end)
    }
}

/// The bytes of `src` after every fix of `diags` is applied.
pub open spec fn fixed(src: Seq<u8>, diags: Seq<Diagnostic>) -> Seq<u8> {
    assemble(src, chosen(src, sort_edits(edits_of(diags)), src.len() as int))
}

// ---------------------------------------------------------------------------------------
// Laws of the model
// ---------------------------------------------------------------------------------------

/// Inserting into a sorted sequence keeps it sorted, adds `x`, and keeps every element.
pub proof fn lemma_insert_edit(s: Seq<Edit>, x: Edit)
    requires
        forall|i: int, j: int| 0 <= i < j < s.len() ==> goes_before(s[i], s[j]),
        forall|i: int| 0 <= i < s.len() ==> (#[trigger] s[i]).order != x.order,
    ensures
        insert_edit(s, x).len() == s.len() + 1,
        insert_edit(s, x).contains(x),
        forall|i: int| 0 <= i < s.len() ==> insert_edit(s, x).contains(#[trigger] s[i]),
        forall|k: int|
            0 <= k < insert_edit(s, x).len() ==> #[trigger] insert_edit(s, x)[k] == x
                || s.contains(insert_edit(s, x)[k]),
        forall|i: int, j: int|
            0 <= i < j < insert_edit(s, x).len() ==> goes_before(
                #[trigger] insert_edit(s, x)[i],
                #[trigger] insert_edit(s, x)[j],
            ),
    decreases s.len(),
{
    if s.len() == 0 {
        assert(insert_edit(s, x)[0] == x);
    } else if goes_before(x, s[0]) {
        let r = seq![x] + s;
        assert(r[0] == x);
        assert forall|i: int| 0 <= i < s.len() implies r.contains(#[trigger] s[i]) by {
            assert(r[i + 1] == s[i]);
        }
        assert forall|k: int| 0 <= k < r.len() implies #[trigger] r[k] == x || s.contains(r[k]) by {
            if k > 0 {
                assert(r[k] == s[k - 1]);
            }
        }
        assert forall|i: int, j: int| 0 <= i < j < r.len() implies goes_before(
            #[trigger] r[i],
            #[trigger] r[j],
        ) by {
            if i == 0 {
                assert(r[j] == s[j - 1]);
                if j > 1 {
                    assert(goes_before(s[0], s[j - 1]));
                }
            } else {
                assert(r[i] == s[i - 1] && r[j] == s[j - 1]);
            }
        }
    } else {
        let t = s.skip(1);
        assert forall|i: int, j: int| 0 <= i < j < t.len() implies goes_before(t[i], t[j]) by {
            assert(t[i] == s[i + 1] && t[j] == s[j + 1]);
        }
        assert forall|i: int| 0 <= i < t.len() implies (#[trigger] t[i]).order != x.order by {
            assert(t[i] == s[i + 1]);
        }
        lemma_insert_edit(t, x);
        let it = insert_edit(t, x);
        let r = seq![s[0]] + it;
        assert(insert_edit(s, x) == r);
        assert(goes_before(s[0], x)) by {
            assert(s[0].order != x.order);
        }
        assert forall|k: int| 0 <= k < it.len() implies goes_before(s[0], #[trigger] it[k]) by {
            if it[k] != x {
                assert(t.contains(it[k]));
                let m = choose|m: int| 0 <= m < t.len() && t[m] == it[k];
                assert(t[m] == s[m + 1]);
            }
        }
        assert(r[0] == s[0]);
        assert(r.contains(x)) by {
            let m = choose|m: int| 0 <= m < it.len() && it[m] == x;
            assert(r[m + 1] == x);
        }
        assert forall|i: int| 0 <= i < s.len() implies r.contains(#[trigger] s[i]) by {
            if i > 0 {
                assert(s[i] == t[i - 1]);
                assert(it.contains(t[i - 1]));
                let m = choose|m: int| 0 <= m < it.len() && it[m] == t[i - 1];
                assert(r[m + 1] == s[i]);
            }
        }
        assert forall|k: int| 0 <= k < r.len() implies #[trigger] r[k] == x || s.contains(r[k]) by {
            if k > 0 {
                assert(r[k] == it[k - 1]);
                if it[k - 1] != x {
                    assert(t.contains(it[k - 1]));
                    let m = choose|m: int| 0 <= m < t.len() && t[m] == it[k - 1];
                    assert(s[m + 1] == t[m]);
                }
            }
        }
        assert forall|i: int, j: int| 0 <= i < j < r.len() implies goes_before(
            #[trigger] r[i],
            #[trigger] r[j],
        ) by {
            if i == 0 {
                assert(r[j] == it[j - 1]);
            } else {
                assert(r[i] == it[i - 1] && r[j] == it[j - 1]);
            }
        }
    }
}

/// Sorting keeps exactly the edits of `s` and puts them in application order.
pub proof fn lemma_sort_edits(s: Seq<Edit>)
    requires
        forall|i: int, j: int| 0 <= i < j < s.len() ==> s[i].order != s[j].order,
    ensures
        sort_edits(s).len() == s.len(),
        forall|i: int| 0 <= i < s.len() ==> sort_edits(s).contains(#[trigger] s[i]),
        forall|k: int| 0 <= k < sort_edits(s).len() ==> s.contains(#[trigger] sort_edits(s)[k]),
        forall|i: int, j: int|
            0 <= i < j < sort_edits(s).len() ==> goes_before(
                #[trigger] sort_edits(s)[i],
                #[trigger] sort_edits(s)[j],
            ),
    decreases s.len(),
{
    if s.len() > 0 {
        let d = s.drop_last();
        let x = s.last();
        lemma_sort_edits(d);
        let t = sort_edits(d);
        assert forall|i: int| 0 <= i < t.len() implies (#[trigger] t[i]).order != x.order by {
            assert(d.contains(t[i]));
            let m = choose|m: int| 0 <= m < d.len() && d[m] == t[i];
            assert(d[m] == s[m]);
        }
        lemma_insert_edit(t, x);
        let r = insert_edit(t, x);
        assert forall|i: int| 0 <= i < s.len() implies r.contains(#[trigger] s[i]) by {
            if i < s.len() - 1 {
                assert(d[i] == s[i]);
                assert(t.contains(d[i]));
                let m = choose|m: int| 0 <= m < t.len() && t[m] == d[i];
                assert(r.contains(t[m]));
            }
        }
        assert forall|k: int| 0 <= k < r.len() implies s.contains(#[trigger] r[k]) by {
            if r[k] == x {
                assert(s[s.len() - 1] == x);
            } else {
                assert(t.contains(r[k]));
                let m = choose|m: int| 0 <= m < t.len() && t[m] == r[k];
                assert(d.contains(t[m]));
                let q = choose|q: int| 0 <= q < d.len() && d[q] == t[m];
                assert(s[q] == d[q]);
            }
        }
    }
}

/// Inserting before the first element that `x` goes before is `insert_edit`.
proof fn lemma_insert_at(s: Seq<Edit>, x: Edit, p: int)
    requires
        0 <= p <= s.len(),
        forall|q: int| 0 <= q < p ==> !goes_before(x, #[trigger] s[q]),
        p < s.len() ==> goes_before(x, s[p]),
    ensures
        insert_edit(s, x) == s.insert(p, x),
    decreases s.len(),
{
    if s.len() == 0 {
        assert(s.insert(p, x) =~= seq![x]);
    } else if p == 0 {
        assert(s.insert(0, x) =~= seq![x] + s);
    } else {
        let t = s.skip(1);
        assert forall|q: int| 0 <= q < p - 1 implies !goes_before(x, #[trigger] t[q]) by {
            assert(t[q] == s[q + 1]);
        }
        if p < s.len() {
            assert(t[p - 1] == s[p]);
        }
        lemma_insert_at(t, x, p - 1);
        assert(seq![s[0]] + t.insert(p - 1, x) =~= s.insert(p, x));
    }
}

/// The applied edits: each is an ordered range on boundaries inside `src`, the first
/// ends by `floor`, and each ends where the one before it starts, or earlier.
pub proof fn lemma_chosen(src: Seq<u8>, s: Seq<Edit>, floor: int)
    ensures
        forall|k: int|
            0 <= k < chosen(src, s, floor).len() ==> {
                let e = #[trigger] chosen(src, s, floor)[k];
                &&& 0 <= e.start <= e.end <= src.len()
                &&& is_char_boundary(src, e.start)
                &&& is_char_boundary(src, e.end)
                &&& s.contains(e)
            },
        chosen(src, s, floor).len() > 0 ==> chosen(src, s, floor)[0].end <= floor,
        forall|k: int|
            0 <= k < chosen(src, s, floor).len() - 1 ==> (#[trigger] chosen(src, s, floor)[k
                + 1]).end <= chosen(src, s, floor)[k].start,
    decreases s.len(),
{
    if s.len() > 0 {
        let t = s.skip(1);
        if admissible(src, s[0], floor) {
            lemma_chosen(src, t, s[0].start);
            let c = chosen(src, t, s[0].start);
            let r = seq![s[0]] + c;
            assert(chosen(src, s, floor) == r);
            assert forall|k: int| 0 <= k < r.len() implies s.contains(#[trigger] r[k]) by {
                if k == 0 {
                    assert(s[0] == r[0]);
                } else {
                    assert(r[k] == c[k - 1]);
                    assert(t.contains(c[k - 1]));
                    let m = choose|m: int| 0 <= m < t.len() && t[m] == c[k - 1];
                    assert(s[m + 1] == t[m]);
                }
            }
            assert forall|k: int| 0 <= k < r.len() - 1 implies (#[trigger] r[k + 1]).end
                <= r[k].start by {
                assert(r[k + 1] == c[k]);
                if k > 0 {
                    let q = k - 1;
                    assert(r[k] == c[q]);
                    assert(c[q + 1].end <= c[q].start);
                }
            }
        } else {
            lemma_chosen(src, t, floor);
            let c = chosen(src, t, floor);
            assert forall|k: int| 0 <= k < c.len() implies s.contains(#[trigger] c[k]) by {
                assert(t.contains(c[k]));
                let m = choose|m: int| 0 <= m < t.len() && t[m] == c[k];
                assert(s[m + 1] == t[m]);
            }
        }
    }
}

/// Text after every range of `a` is carried through unchanged.
proof fn lemma_assemble_append(x: Seq<u8>, y: Seq<u8>, a: Seq<Edit>)
    requires
        a.len() > 0 ==> 0 <= a[0].start <= a[0].end <= x.len(),
    ensures
        assemble(x + y, a) == assemble(x, a) + y,
{
    if a.len() > 0 {
        assert((x + y).take(a[0].start) =~= x.take(a[0].start));
        assert((x + y).skip(a[0].end) =~= x.skip(a[0].end) + y);
        assert(assemble(x + y, a) =~= assemble(x, a) + y);
    }
}

/// One step of building the text left to right: the edit before `a[j]` extends the
/// text assembled up to `pos` by the gap up to its start and its replacement.
proof fn lemma_assemble_step(src: Seq<u8>, a: Seq<Edit>, j: int, pos: int)
    requires
        0 < j <= a.len(),
        forall|q: int|
            0 <= q < a.len() ==> 0 <= (#[trigger] a[q]).start <= a[q].end <= src.len(),
        j < a.len() ==> pos == a[j].end,
        j == a.len() ==> pos == 0,
        pos <= a[j - 1].start,
    ensures
        assemble(src.take(a[j - 1].end), a.skip(j - 1)) == assemble(src.take(pos), a.skip(j))
            + src.subrange(pos, a[j - 1].start) + a[j - 1].rep,
{
    let x = a[j - 1];
    let t = a.skip(j);
    assert(src.take(x.start) =~= src.take(pos) + src.subrange(pos, x.start));
    if t.len() > 0 {
        assert(t[0] == a[j]);
    }
    lemma_assemble_append(src.take(pos), src.subrange(pos, x.start), t);
    let u = a.skip(j - 1);
    assert(u[0] == x);
    assert(u.skip(1) =~= t);
    assert(src.take(x.end).take(x.start) =~= src.take(x.start));
    assert(src.take(x.end).skip(x.end) =~= Seq::<u8>::empty());
    assert(assemble(src.take(x.end), u) =~= assemble(src.take(x.start), t) + x.rep);
}

/// With no fix to apply, the text comes back unchanged.
pub proof fn lemma_no_fixes_no_change(src: Seq<u8>, diags: Seq<Diagnostic>)
    requires
        fixes_of(diags).len() == 0,
    ensures
        fixed(src, diags) == src,
{
    lemma_sort_edits(edits_of(diags));
}

/// Two zero-width insertions at one offset are both applied, in diagnostic order.
pub proof fn lemma_insertions_keep_order(src: Seq<u8>, diags: Seq<Diagnostic>, o: int)
    requires
        0 <= o <= src.len(),
        is_char_boundary(src, o),
        fixes_of(diags).len() == 2,
        forall|k: int|
            0 <= k < 2 ==> (#[trigger] fixes_of(diags)[k]).span.byte_start == o
                && fixes_of(diags)[k].span.byte_end == o,
    ensures
        fixed(src, diags) == src.take(o) + encode_utf8(fixes_of(diags)[0].replacement@)
            + encode_utf8(fixes_of(diags)[1].replacement@) + src.skip(o),
{
    let fs = fixes_of(diags);
    let es = edits_of(diags);
    let e0 = es[0];
    let e1 = es[1];
    assert(e0 == edit_of(fs[0], 0));
    assert(e1 == edit_of(fs[1], 1));
    assert(es.drop_last() =~= seq![e0]);
    assert(es.drop_last().drop_last() =~= Seq::<Edit>::empty());
    assert(sort_edits(seq![e0]) =~= seq![e0]) by {
        let one = seq![e0];
        assert(one.drop_last() =~= Seq::<Edit>::empty());
        assert(one.last() == e0);
        assert(sort_edits(Seq::<Edit>::empty()) == Seq::<Edit>::empty());
        assert(insert_edit(Seq::<Edit>::empty(), e0) == seq![e0]);
    }
    let sorted = sort_edits(es);
    assert(sorted =~= seq![e1, e0]) by {
        assert(goes_before(e1, e0));
        assert(insert_edit(seq![e0], e1) =~= seq![e1] + seq![e0]);
    }
    let n = src.len() as int;
    assert(admissible(src, e1, n));
    assert(seq![e1, e0].skip(1) =~= seq![e0]);
    assert(admissible(src, e0, o));
    assert(seq![e0].skip(1) =~= Seq::<Edit>::empty());
    let c = chosen(src, sorted, n);
    assert(c =~= seq![e1, e0]) by {
        assert(chosen(src, seq![e0], o) =~= seq![e0] + chosen(src, Seq::<Edit>::empty(), o));
    }
    let inner = src.take(o);
    assert(assemble(inner, seq![e0]) =~= inner + e0.rep) by {
        assert(inner.take(o) =~= inner);
        assert(inner.skip(o) =~= Seq::<u8>::empty());
        assert(assemble(inner.take(o), Seq::<Edit>::empty()) == inner.take(o));
    }
    assert(assemble(src, seq![e1, e0]) == assemble(inner, seq![e0]) + e1.rep + src.skip(o));
}

/// Of two overlapping fixes, the one that starts later is applied and the other is
/// skipped.
pub proof fn lemma_later_fix_wins_overlap(src: Seq<u8>, diags: Seq<Diagnostic>, i: int, j: int)
    requires
        fixes_of(diags).len() == 2,
        0 <= i < 2,
        j == 1 - i,
        fixes_of(diags)[i].span.byte_start < fixes_of(diags)[j].span.byte_start,
        fixes_of(diags)[j].span.byte_start < fixes_of(diags)[i].span.byte_end,
        fixes_of(diags)[j].span.byte_start <= fixes_of(diags)[j].span.byte_end <= src.len(),
        is_char_boundary(src, fixes_of(diags)[j].span.byte_start as int),
        is_char_boundary(src, fixes_of(diags)[j].span.byte_end as int),
    ensures
        fixed(src, diags) == src.take(fixes_of(diags)[j].span.byte_start as int) + encode_utf8(
            fixes_of(diags)[j].replacement@,
        ) + src.skip(fixes_of(diags)[j].span.byte_end as int),
{
    let es = edits_of(diags);
    let early = es[i];
    let late = es[j];
    let e0 = es[0];
    let e1 = es[1];
    assert(es.drop_last() =~= seq![e0]);
    assert(sort_edits(seq![e0]) =~= seq![e0]) by {
        let one = seq![e0];
        assert(one.drop_last() =~= Seq::<Edit>::empty());
        assert(one.last() == e0);
        assert(sort_edits(Seq::<Edit>::empty()) == Seq::<Edit>::empty());
        assert(insert_edit(Seq::<Edit>::empty(), e0) == seq![e0]);
    }
    let sorted = sort_edits(es);
    assert(sorted =~= seq![late, early]) by {
        if i == 0 {
            assert(goes_before(e1, e0));
            assert(insert_edit(seq![e0], e1) =~= seq![e1] + seq![e0]);
        } else {
            assert(!goes_before(e1, e0));
            assert(seq![e0].skip(1) =~= Seq::<Edit>::empty());
            assert(seq![e0][0] == e0);
            assert(insert_edit(Seq::<Edit>::empty(), e1) == seq![e1]);
            assert(insert_edit(seq![e0], e1) == seq![e0] + insert_edit(Seq::<Edit>::empty(), e1));
            assert(insert_edit(seq![e0], e1) =~= seq![e0] + seq![e1]);
        }
    }
    let n = src.len() as int;
    assert(admissible(src, late, n));
    assert(seq![late, early].skip(1) =~= seq![early]);
    assert(!admissible(src, early, late.start));
    assert(seq![early].skip(1) =~= Seq::<Edit>::empty());
    assert(chosen(src, sorted, n) =~= seq![late]) by {
        assert(chosen(src, seq![early], late.start) == chosen(
            src,
            Seq::<Edit>::empty(),
            late.start,
        ));
    }
    assert(seq![late].skip(1) =~= Seq::<Edit>::empty());
    assert(assemble(src.take(late.start), Seq::<Edit>::empty()) == src.take(late.start));
}

// ---------------------------------------------------------------------------------------
// Applying fixes
// ---------------------------------------------------------------------------------------

/// The edit a numbered fix stands for: `e.0` is its position among the fixes, `e.1`
/// the index of its diagnostic.
pub open spec fn entry_edit(diags: Seq<Diagnostic>, e: (usize, usize)) -> Edit {
    edit_of(diags[e.1 as int].fix->0, e.0 as int)
}

pub open spec fn entry_edits(diags: Seq<Diagnostic>, v: Seq<(usize, usize)>) -> Seq<Edit> {
    v.map_values(|e: (usize, usize)| entry_edit(diags, e))
}

/// Every entry of `v` names a diagnostic of `diags` that carries a fix.
pub open spec fn entries_ok(diags: Seq<Diagnostic>, v: Seq<(usize, usize)>) -> bool {
    forall|k: int|
        0 <= k < v.len() ==> (#[trigger] v[k]).1 < diags.len() && diags[v[k].1 as int].fix is Some
}

/// The fix of the diagnostic at `i`.
fn fix_at(diags: &[Diagnostic], i: usize) -> (f: &Fix)
    requires
        i < diags@.len(),
        diags@[i as int].fix is Some,
    ensures
        *f == diags@[i as int].fix->0,
{
    match &diags[i].fix {
        Some(f) => f,
        None => vstd::pervasive::unreached(),
    }
}

/// Whether entry `a` is applied before entry `b`.
fn precedes(diags: &[Diagnostic], a: (usize, usize), b: (usize, usize)) -> (r: bool)
    requires
        a.1 < diags@.len(),
        diags@[a.1 as int].fix is Some,
        b.1 < diags@.len(),
        diags@[b.1 as int].fix is Some,
    ensures
        r == goes_before(entry_edit(diags@, a), entry_edit(diags@, b)),
{
    let fa = fix_at(diags, a.1);
    let fb = fix_at(diags, b.1);
    let (sa, ea) = (fa.span.byte_start, fa.span.byte_end);
    let (sb, eb) = (fb.span.byte_start, fb.span.byte_end);
    sa > sb || (sa == sb && (ea > eb || (ea == eb && a.0 > b.0)))
}

/// The fixes of `diags` as numbered entries, in diagnostic order.
fn collect_entries(diags: &[Diagnostic]) -> (v: Vec<(usize, usize)>)
    ensures
        entries_ok(diags@, v@),
        entry_edits(diags@, v@) == edits_of(diags@),
{
    let mut v: Vec<(usize, usize)> = Vec::new();
    let mut i: usize = 0;
    while i < diags.len()
        invariant
            i <= diags@.len(),
            v@.len() == fixes_of(diags@.take(i as int)).len(),
            forall|k: int|
                0 <= k < v@.len() ==> (#[trigger] v@[k]).0 == k && v@[k].1 < i && diags@[v@[k].1 as int].fix
                    == Some(fixes_of(diags@.take(i as int))[k]),
        decreases diags@.len() - i,
    {
        proof {
            assert(diags@.take(i + 1).drop_last() =~= diags@.take(i as int));
            assert(diags@.take(i + 1).last() == diags@[i as int]);
        }
        if diags[i].fix.is_some() {
            let k = v.len();
            v.push((k, i));
        }
        i += 1;
    }
    proof {
        assert(diags@.take(diags@.len() as int) =~= diags@);
        assert(entry_edits(diags@, v@) =~= edits_of(diags@));
    }
    v
}

/// The entries in application order.
fn sort_entries(diags: &[Diagnostic], entries: &Vec<(usize, usize)>) -> (v: Vec<(usize, usize)>)
    requires
        entries_ok(diags@, entries@),
    ensures
        entries_ok(diags@, v@),
        entry_edits(diags@, v@) == sort_edits(entry_edits(diags@, entries@)),
{
    let ghost all = entry_edits(diags@, entries@);
    let mut v: Vec<(usize, usize)> = Vec::new();
    let mut j: usize = 0;
    while j < entries.len()
        invariant
            j <= entries@.len(),
            all == entry_edits(diags@, entries@),
            entries_ok(diags@, entries@),
            entries_ok(diags@, v@),
            entry_edits(diags@, v@) == sort_edits(all.take(j as int)),
        decreases entries@.len() - j,
    {
        let x = entries[j];
        let mut p: usize = 0;
        while p < v.len() && !precedes(diags, x, v[p])
            invariant
                p <= v@.len(),
                x == entries@[j as int],
                entries_ok(diags@, v@),
                entries_ok(diags@, entries@),
                j < entries@.len(),
                forall|q: int|
                    0 <= q < p ==> !goes_before(
                        entry_edit(diags@, x),
                        #[trigger] entry_edit(diags@, v@[q]),
                    ),
            decreases v@.len() - p,
        {
            p += 1;
        }
        let ghost old_v = entry_edits(diags@, v@);
        let ghost raw = v@;
        proof {
            assert forall|q: int| 0 <= q < p implies !goes_before(
                entry_edit(diags@, x),
                #[trigger] old_v[q],
            ) by {
                assert(old_v[q] == entry_edit(diags@, v@[q]));
            }
            if p < v@.len() {
                assert(old_v[p as int] == entry_edit(diags@, v@[p as int]));
            }
            lemma_insert_at(old_v, entry_edit(diags@, x), p as int);
            assert(all.take(j + 1).drop_last() =~= all.take(j as int));
            assert(all.take(j + 1).last() == entry_edit(diags@, x));
        }
        v.insert(p, x);
        proof {
            assert(entry_edits(diags@, v@) =~= old_v.insert(p as int, entry_edit(diags@, x)));
            assert forall|k: int| 0 <= k < v@.len() implies (#[trigger] v@[k]).1 < diags@.len()
                && diags@[v@[k].1 as int].fix is Some by {
                if k > p {
                    assert(v@[k] == raw[k - 1]);
                }
            }
        }
        j += 1;
    }
    proof {
        assert(all.take(entries@.len() as int) =~= all);
    }
    v
}

/// Applies every fix in `diags` to `source` and returns the edited text.
///
/// Fixes are applied from the end of the source backwards so earlier byte offsets stay
/// valid. A fix that overlaps one already applied is skipped, as is a fix whose range
/// is out of bounds or off a character boundary. Zero-width insertions at the same
/// offset are all applied, in diagnostic order.
#[verifier::spinoff_prover]
#[verifier::rlimit(40)]
pub fn apply_fixes(source: &str, diags: &[Diagnostic]) -> (r: String)
    ensures
        encode_utf8(r@) == fixed(source.spec_bytes(), diags@),
{
    let ghost src = source.spec_bytes();
    proof {
        lemma_valid(source);
    }
    let entries = collect_entries(diags);
    let sorted = sort_entries(diags, &entries);
    let ghost order = entry_edits(diags@, sorted@);
    proof {
        let es = edits_of(diags@);
        assert forall|i: int, j: int| 0 <= i < j < es.len() implies es[i].order != es[j].order by {}
        lemma_sort_edits(es);
    }
    // The fixes that are applied, leftmost last.
    let n = source.as_bytes().len();
    let mut floor: usize = n;
    let mut applied: Vec<(usize, usize)> = Vec::new();
    let mut k: usize = 0;
    assert(order.skip(0) =~= order);
    while k < sorted.len()
        invariant
            k <= sorted@.len(),
            n == src.len(),
            src == source.spec_bytes(),
            order == entry_edits(diags@, sorted@),
            entries_ok(diags@, sorted@),
            entries_ok(diags@, applied@),
            floor <= n,
            chosen(src, order, n as int) == entry_edits(diags@, applied@) + chosen(
                src,
                order.skip(k as int),
                floor as int,
            ),
        decreases sorted@.len() - k,
    {
        let e = sorted[k];
        let f = fix_at(diags, e.1);
        let start = f.span.byte_start as usize;
        let end = f.span.byte_end as usize;
        let ghost x = entry_edit(diags@, e);
        proof {
            assert(order[k as int] == x);
            assert(order.skip(k as int)[0] == x);
            assert(order.skip(k as int).skip(1) =~= order.skip(k + 1));
        }
        if end <= floor && str_get(source, start, end).is_some() {
            let ghost before = entry_edits(diags@, applied@);
            applied.push(e);
            floor = start;
            proof {
                assert(entry_edits(diags@, applied@) =~= before.push(x));
                assert(before.push(x) + chosen(src, order.skip(k + 1), floor as int) =~= before
                    + (seq![x] + chosen(src, order.skip(k + 1), floor as int)));
            }
        }
        k += 1;
    }
    let ghost a = entry_edits(diags@, applied@);
    proof {
        assert(order.skip(sorted@.len() as int).len() == 0);
        assert(a + Seq::<Edit>::empty() =~= a);
        lemma_chosen(src, order, n as int);
    }
    // Build the text left to right: the source between applied ranges, and the
    // replacements.
    let mut out = String::new();
    let mut pos: usize = 0;
    let mut j: usize = applied.len();
    proof {
        assert(src.take(0) =~= Seq::<u8>::empty());
        assert(a.skip(a.len() as int).len() == 0);
        assert(encode_utf8(out@) =~= Seq::<u8>::empty());
    }
    while j > 0
        invariant
            j <= applied@.len(),
            a == entry_edits(diags@, applied@),
            entries_ok(diags@, applied@),
            n == src.len(),
            src == source.spec_bytes(),
            valid_utf8(src),
            forall|q: int|
                0 <= q < a.len() ==> {
                    let e = #[trigger] a[q];
                    &&& 0 <= e.start <= e.end <= src.len()
                    &&& is_char_boundary(src, e.start)
                    &&& is_char_boundary(src, e.end)
                },
            forall|q: int| 0 <= q < a.len() - 1 ==> (#[trigger] a[q + 1]).end <= a[q].start,
            j < a.len() ==> pos == a[j as int].end,
            j == a.len() ==> pos == 0,
            pos <= n,
            is_char_boundary(src, pos as int),
            encode_utf8(out@) == assemble(src.take(pos as int), a.skip(j as int)),
        decreases j,
    {
        let e = applied[j - 1];
        let f = fix_at(diags, e.1);
        let start = f.span.byte_start as usize;
        let end = f.span.byte_end as usize;
        let ghost x = a[j - 1];
        assert(x == entry_edit(diags@, e));
        assert(pos <= start) by {
            if j < a.len() {
                let q = j - 1;
                assert(a[q + 1].end <= a[q].start);
            }
        }
        let piece = slice(source, pos, start);
        let ghost out0 = out@;
        push_str(&mut out, piece);
        push_str(&mut out, f.replacement.as_str());
        proof {
            lemma_valid(piece);
            lemma_encode_concat(out0, piece@);
            lemma_encode_concat(out0 + piece@, f.replacement@);
            assert(out@ == out0 + piece@ + f.replacement@);
            lemma_assemble_step(src, a, j as int, pos as int);
        }
        pos = end;
        j -= 1;
    }
    let tail = slice(source, pos, n);
    let ghost out0 = out@;
    push_str(&mut out, tail);
    proof {
        lemma_valid(tail);
        lemma_encode_concat(out0, tail@);
        assert(a.skip(0) =~= a);
        assert(src =~= src.take(pos as int) + src.subrange(pos as int, n as int));
        if a.len() > 0 {
            assert(a[0].end == pos);
        }
        lemma_assemble_append(src.take(pos as int), src.subrange(pos as int, n as int), a);
    }
    out
}

// ---------------------------------------------------------------------------------------
// Code fences
// ---------------------------------------------------------------------------------------

/// A character of a fence's info string.
pub open spec fn is_info_char(c: char) -> bool {
    ('a' <= c && c <= 'z') || ('A' <= c && c <= 'Z') || ('0' <= c && c <= '9') || c == '-' || c
        == '_' || c == '.' || c == '+'
}

/// The end of the run of `c` that starts at `i` in `t`.
pub open spec fn run_end(t: Seq<char>, c: char, i: int) -> int
    decreases t.len() - i,
{
    if 0 <= i < t.len() && t[i] == c {
        run_end(t, c, i + 1)
    } else {
        i
    }
}

/// Whether `line` is a Markdown code fence: optional indentation, three or more
/// backticks or tildes, then an optional info string such as `mermaid`.
pub open spec fn fence_line(line: Seq<char>) -> bool {
    let t = trim_ws(line);
    let run = run_end(t, t[0], 0);
    let info = trim_ws(t.skip(run));
    &&& t.len() > 0
    &&& (t[0] == '`' || t[0] == '~')
    &&& run >= 3
    &&& forall|i: int| 0 <= i < info.len() ==> is_info_char(#[trigger] info[i])
}

/// Whether `line` (without its newline) is a Markdown code fence: optional
/// indentation, then three or more backticks or tildes, then an optional info string
/// such as `mermaid`.
pub fn is_fence_line(line: &str) -> (r: bool)
    ensures
        r == fence_line(line@),
{
    let t = trim_str(line);
    let cs = chars_of(t);
    let n = cs.len();
    if n == 0 {
        return false;
    }
    let marker = cs[0];
    if marker != '`' && marker != '~' {
        return false;
    }
    let mut run: usize = 0;
    while run < n && cs[run] == marker
        invariant
            run <= n,
            n == cs@.len(),
            marker == cs@[0],
            run_end(cs@, marker, run as int) == run_end(cs@, marker, 0),
        decreases n - run,
    {
        run += 1;
    }
    if run < 3 {
        return false;
    }
    proof {
        assert(cs@.skip(run as int) =~= cs@.subrange(run as int, n as int));
    }
    let (a, b) = trim_bounds(&cs, run, n);
    let mut i: usize = a;
    while i < b
        invariant
            run <= a <= i <= b <= n,
            n == cs@.len(),
            n > 0,
            cs@ == trim_ws(line@),
            cs@[0] == '`' || cs@[0] == '~',
            run == run_end(cs@, cs@[0], 0),
            run >= 3,
            cs@.subrange(a as int, b as int) == trim_ws(cs@.skip(run as int)),
            forall|k: int| a <= k < i ==> is_info_char(#[trigger] cs@[k]),
        decreases b - i,
    {
        let c = cs[i];
        let ok = ('a' <= c && c <= 'z') || ('A' <= c && c <= 'Z') || ('0' <= c && c <= '9') || c
            == '-' || c == '_' || c == '.' || c == '+';
        if !ok {
            proof {
                let info = cs@.subrange(a as int, b as int);
                assert(info[i - a] == c);
            }
            return false;
        }
        i += 1;
    }
    proof {
        let info = cs@.subrange(a as int, b as int);
        assert forall|k: int| 0 <= k < info.len() implies is_info_char(#[trigger] info[k]) by {
            assert(info[k] == cs@[a + k]);
        }
    }
    true
}

} // verus!
