//! Text positions and the ranges that a highlight covers.

use vstd::prelude::*;

verus! {

/// A span of text, in bytes from the start of the file. The end is exclusive.
#[derive(Clone, Copy, Debug, PartialEq, Eq, Structural)]
pub struct TextRange {
    pub start: u32,
    pub end: u32,
}

impl TextRange {
    /// The range lies in a text of `len` bytes and does not run backwards.
    pub open spec fn within(self, len: u32) -> bool {
        self.start <= self.end && self.end <= len
    }

    /// The offset lies in the range or directly behind it, so that a cursor
    /// between two tokens touches both.
    pub open spec fn touches(self, offset: u32) -> bool {
        self.start <= offset && offset <= self.end
    }

    pub fn new(start: u32, end: u32) -> (r: TextRange)
        ensures
            r.start == start,
            r.end == end,
    {
        TextRange { start, end }
    }

    pub fn is_touched_by(&self, offset: u32) -> (r: bool)
        ensures
            r == self.touches(offset),
    {
        self.start <= offset && offset <= self.end
    }
}

/// How a reference uses the entity that it names.
#[derive(Clone, Copy, Debug, PartialEq, Eq, Structural)]
pub enum ReferenceAccess {
    Read,
    Write,
}

/// One range to highlight. `access` is set for references to a named entity
/// and absent for exit points and yield points.
#[derive(Clone, Copy, Debug, PartialEq, Eq, Structural)]
pub struct HighlightedRange {
    pub range: TextRange,
    pub access: Option<ReferenceAccess>,
}

impl HighlightedRange {
    /// A highlight of a control-flow landmark: it carries no access.
    pub open spec fn plain(range: TextRange) -> HighlightedRange {
        HighlightedRange { range, access: None }
    }

    pub fn landmark(range: TextRange) -> (r: HighlightedRange)
        ensures
            r == Self::plain(range),
    {
        HighlightedRange { range, access: None }
    }
}

/// A result as contracts speak of it: the highlights in order, or absent.
pub open spec fn shown(r: Option<Vec<HighlightedRange>>) -> Option<Seq<HighlightedRange>> {
    match r {
        Some(v) => Some(v@),
        None => None,
    }
}

} // verus!
