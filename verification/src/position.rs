//! Source positions: a span of characters inside one stored source.

use vstd::prelude::*;

verus! {

/// A character range anchored to the source it came from.
#[derive(Clone, Copy, Debug, PartialEq)]
pub struct RawSpan {
    pub src_id: codespan::FileId,
    pub start: usize,
    pub end: usize,
}

} // verus!
