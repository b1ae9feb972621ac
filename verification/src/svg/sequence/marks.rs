//! Arrowheads of sequence messages.
//!
//! Markers keep the flowchart's geometry — 10 × 10 user units, tip at x = 9,
//! `orient="auto-start-reverse"` — so `arrow` and `cross` are the shapes flowcharts
//! already define and the CSS classes `merlion-marker-fill` / `merlion-marker-stroke`
//! style every head with the rules that exist.

use vstd::prelude::*;

use crate::parse::sequence::Head;

verus! {

/// How a marker paints: a filled outline or open strokes.
#[derive(Clone, Copy, Debug, PartialEq, Eq, Structural)]
pub enum Ink {
    Fill,
    Stroke,
}

/// One arrowhead: the `{id}-` suffix of its marker and the path it draws.
#[derive(Clone, Copy, Debug, PartialEq, Eq)]
pub struct Mark {
    pub name: &'static str,
    pub d: &'static str,
    pub ink: Ink,
}

/// The marker a head kind draws: its name, its path and its ink.
pub open spec fn mark_of(h: Head) -> Option<(&'static str, &'static str, Ink)> {
    match h {
        Head::Plain => None,
        Head::Filled => Some(("arrow", "M0 0L10 5L0 10Z", Ink::Fill)),
        Head::Open => Some(("open", "M1 1L9 5L1 9", Ink::Stroke)),
        Head::Cross => Some(("cross", "M2 1L9 9M2 9L9 1", Ink::Stroke)),
        Head::HalfTop => Some(("half-top", "M9 1V9M1 0L9 5", Ink::Stroke)),
        Head::HalfBottom => Some(("half-bottom", "M9 1V9M1 10L9 5", Ink::Stroke)),
        Head::StickTop => Some(("stick-top", "M1 0L9 5", Ink::Stroke)),
        Head::StickBottom => Some(("stick-bottom", "M1 10L9 5", Ink::Stroke)),
    }
}

/// The arrowhead a head kind draws, or `None` for an open line end.
///
/// `Filled` and `Cross` are the flowchart `arrow` and `cross` markers. `Open` is the
/// async head: the filled triangle's outline, left open. The half heads add the bar the
/// `|` in `-|\` writes; the stick heads are the barb alone.
pub fn mark(h: Head) -> (r: Option<Mark>)
    ensures
        match mark_of(h) {
            None => r is None,
            Some((name, d, ink)) => r == Some(Mark { name, d, ink }),
        },
{
    match h {
        Head::Plain => None,
        Head::Filled => Some(Mark { name: "arrow", d: "M0 0L10 5L0 10Z", ink: Ink::Fill }),
        Head::Open => Some(Mark { name: "open", d: "M1 1L9 5L1 9", ink: Ink::Stroke }),
        Head::Cross => Some(Mark { name: "cross", d: "M2 1L9 9M2 9L9 1", ink: Ink::Stroke }),
        Head::HalfTop => Some(Mark { name: "half-top", d: "M9 1V9M1 0L9 5", ink: Ink::Stroke }),
        Head::HalfBottom => Some(
            Mark { name: "half-bottom", d: "M9 1V9M1 10L9 5", ink: Ink::Stroke },
        ),
        Head::StickTop => Some(Mark { name: "stick-top", d: "M1 0L9 5", ink: Ink::Stroke }),
        Head::StickBottom => Some(Mark { name: "stick-bottom", d: "M1 10L9 5", ink: Ink::Stroke }),
    }
}

/// The head kinds in the order `<defs>` writes the markers they use.
pub open spec fn head_order() -> Seq<Head> {
    seq![
        Head::Filled,
        Head::Open,
        Head::Cross,
        Head::HalfTop,
        Head::HalfBottom,
        Head::StickTop,
        Head::StickBottom,
    ]
}

/// The head kinds in the order of [`head_order`].
pub fn heads() -> (v: Vec<Head>)
    ensures
        v@ == head_order(),
{
    let v: Vec<Head> = vec![
        Head::Filled,
        Head::Open,
        Head::Cross,
        Head::HalfTop,
        Head::HalfBottom,
        Head::StickTop,
        Head::StickBottom,
    ];
    v
}

/// Every listed head draws a marker, and no two of them share a marker name.
pub proof fn lemma_marker_names_distinct()
    ensures
        forall|i: int| 0 <= i < head_order().len() ==> mark_of(#[trigger] head_order()[i]) is Some,
        forall|i: int, j: int|
            0 <= i < j < head_order().len() ==> (mark_of(#[trigger] head_order()[i])->0).0@
                != (mark_of(#[trigger] head_order()[j])->0).0@,
{
    reveal_strlit("arrow");
    reveal_strlit("open");
    reveal_strlit("cross");
    reveal_strlit("half-top");
    reveal_strlit("half-bottom");
    reveal_strlit("stick-top");
    reveal_strlit("stick-bottom");
    let h = head_order();
    assert forall|i: int, j: int| 0 <= i < j < h.len() implies (mark_of(#[trigger] h[i])->0).0@
        != (mark_of(#[trigger] h[j])->0).0@ by {
        let a = (mark_of(h[i])->0).0@;
        let b = (mark_of(h[j])->0).0@;
        if a == b {
            assert(a.len() == b.len());
            assert(a[0] == b[0]);
            if a.len() > 6 {
                assert(a[6] == b[6]);
            }
        }
    }
}

} // verus!
