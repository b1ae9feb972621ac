//! Sequence-diagram output.

pub mod marks;
