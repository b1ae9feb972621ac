//! The stylesheet subset: block scanning, and the tokens, selectors and values a
//! stylesheet may set.

pub mod scan;
pub mod value;

use vstd::prelude::*;

use crate::text::str_eq;

verus! {

/// Stylesheet limits.
#[derive(Clone, Copy, Debug, PartialEq, Eq)]
pub struct StylesheetLimits {
    pub bytes: usize,
    pub rules: usize,
    pub declarations: usize,
    /// Selectors per list, in rules that declare a token.
    pub selectors: usize,
    pub themes: usize,
    pub role_selectors: usize,
    pub depth: usize,
    pub var_depth: usize,
    pub diagnostics: usize,
}

impl Default for StylesheetLimits {
    fn default() -> (r: Self)
        ensures
            r.bytes == 64 * 1024,
            r.rules == 512,
            r.declarations == 32,
            r.selectors == 8,
            r.themes == 16,
            r.role_selectors == 256,
            r.depth == 2,
            r.var_depth == 8,
            r.diagnostics == 100,
    {
        StylesheetLimits {
            bytes: 64 * 1024,
            rules: 512,
            declarations: 32,
            selectors: 8,
            themes: 16,
            role_selectors: 256,
            depth: 2,
            var_depth: 8,
            diagnostics: 100,
        }
    }
}

/// Which theme block a declaration belongs to.
#[derive(Clone, Debug, PartialEq, Eq, PartialOrd, Ord)]
pub enum ThemeKey {
    Root,
    Named(String),
    /// `:root:not([data-theme])` inside `@media (prefers-color-scheme: dark)`.
    AutoDark,
}

/// A theme key as plain values.
pub enum ThemeKeyView {
    Root,
    Named(Seq<char>),
    AutoDark,
}

impl View for ThemeKey {
    type V = ThemeKeyView;

    open spec fn view(&self) -> ThemeKeyView {
        match self {
            ThemeKey::Root => ThemeKeyView::Root,
            ThemeKey::Named(n) => ThemeKeyView::Named(n@),
            ThemeKey::AutoDark => ThemeKeyView::AutoDark,
        }
    }
}

/// The largest canonical palette a palette parser accepts. A compiled stylesheet is at
/// most 64 KiB, and each palette entry is shorter than the page-CSS line it comes from,
/// so one table stays under 64 KiB and a light and a dark table under 128 KiB.
pub const MAX_PALETTE_BYTES: usize = 128 * 1024;

/// The most tones one palette table holds: a compiled stylesheet has at most this many
/// role selectors (`StylesheetLimits::role_selectors`).
pub const MAX_PALETTE_TONES: usize = 256;

/// Whether two theme keys are the same key.
pub fn same_key(a: &ThemeKey, b: &ThemeKey) -> (r: bool)
    ensures
        r == (a@ == b@),
{
    match (a, b) {
        (ThemeKey::Root, ThemeKey::Root) => true,
        (ThemeKey::AutoDark, ThemeKey::AutoDark) => true,
        (ThemeKey::Named(x), ThemeKey::Named(y)) => str_eq(x.as_str(), y.as_str()),
        _ => false,
    }
}

/// The first index of `k` in `keys`, or `keys.len()`.
pub open spec fn first_index(k: ThemeKeyView, keys: Seq<ThemeKeyView>) -> int
    decreases keys.len(),
{
    if keys.len() == 0 {
        0
    } else if keys[0] == k {
        0
    } else {
        1 + first_index(k, keys.skip(1))
    }
}

/// The output order of a theme block: the root first, then named themes in order of
/// first use (an unknown name sorts with the first), then the automatic dark block.
pub open spec fn theme_rank(k: ThemeKeyView, first_use: Seq<ThemeKeyView>) -> (int, int) {
    match k {
        ThemeKeyView::Root => (0, 0),
        ThemeKeyView::Named(_) => (1, if first_index(k, first_use) < first_use.len() {
            first_index(k, first_use)
        } else {
            0
        }),
        ThemeKeyView::AutoDark => (2, 0),
    }
}

/// The sort key of a theme block.
pub fn theme_order(k: &ThemeKey, first_use: &[ThemeKey]) -> (r: (u8, usize))
    ensures
        r.0 == theme_rank(k@, first_use@.map_values(|x: ThemeKey| x@)).0,
        r.1 == theme_rank(k@, first_use@.map_values(|x: ThemeKey| x@)).1,
{
    let ghost keys = first_use@.map_values(|x: ThemeKey| x@);
    match k {
        ThemeKey::Root => (0, 0),
        ThemeKey::AutoDark => (2, 0),
        ThemeKey::Named(_) => {
            assert(keys.skip(0) =~= keys);
            let mut i: usize = 0;
            while i < first_use.len()
                invariant
                    i <= first_use@.len(),
                    keys == first_use@.map_values(|x: ThemeKey| x@),
                    k@ is Named,
                    first_index(k@, keys) == i + first_index(k@, keys.skip(i as int)),
                decreases first_use@.len() - i,
            {
                proof {
                    assert(keys.skip(i as int)[0] == keys[i as int]);
                    assert(keys.skip(i as int).skip(1) =~= keys.skip(i + 1));
                }
                if same_key(&first_use[i], k) {
                    assert(first_index(k@, keys) == i);
                    return (1, i);
                }
                i += 1;
            }
            proof {
                assert(keys.skip(i as int).len() == 0);
            }
            (1, 0)
        },
    }
}

} // verus!
