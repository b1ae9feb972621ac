//! Render options the library's writers read.

use vstd::prelude::*;

verus! {

/// How the label font reaches the reader: a linked stack, an embedded subset, or the
/// system's own sans-serif.
#[derive(Clone, Copy, Debug, PartialEq, Eq)]
pub enum FontMode {
    Link,
    Embed,
    System,
}

/// Which way a diagram's ranks run: top to bottom, bottom to top, left to right or
/// right to left.
#[derive(Clone, Copy, Debug, PartialEq, Eq)]
pub enum Direction {
    TB,
    BT,
    LR,
    RL,
}

} // verus!
