//! Token-oriented difference of two sequences: a histogram diff that anchors on
//! rare tokens, a Myers diff it falls back to, and a postprocessor that slides
//! the resulting hunks into their conventional places.
use vstd::prelude::*;

pub mod alignment;
pub mod histogram;
pub mod laws;
pub mod lcs;
pub mod list_pool;
pub mod myers;
pub mod postprocess;
pub mod sources;
pub mod util;

pub use crate::histogram::diff;
pub use crate::postprocess::Diff;
pub use crate::sources::{byte_lines, lines};

verus! {

/// An interned token: two tokens are equal exactly when the lines that they were
/// made from are equal.
#[derive(Clone, Copy, PartialEq, Eq, Structural, Debug, Hash)]
pub struct Token(pub u32);

} // verus!
