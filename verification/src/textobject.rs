use vstd::prelude::*;

use crate::mark::Mark;

verus! {

/// Where within the target unit (line or word) a resolved position lands.
#[derive(Copy, Clone, PartialEq, Eq, Structural, Debug)]
pub enum Anchor {
    /// The beginning of the target unit.
    Start,
    /// The end of the target unit.
    End,
    /// The same column offset as the source mark, clamped to the target.
    Same,
}

/// The granularity of a navigation request.
#[derive(Copy, Clone, PartialEq, Eq, Structural, Debug)]
pub enum Kind {
    Char,
    Line(Anchor),
    Word(Anchor),
}

impl Kind {
    /// The same granularity with the anchor replaced; `Char` has no anchor.
    pub open spec fn spec_with_anchor(self, anchor: Anchor) -> Kind {
        match self {
            Kind::Char => Kind::Char,
            Kind::Line(_) => Kind::Line(anchor),
            Kind::Word(_) => Kind::Word(anchor),
        }
    }

    /// Replace the anchor of a line or word request.
    pub fn with_anchor(self, anchor: Anchor) -> (r: Kind)
        ensures
            r == self.spec_with_anchor(anchor),
    {
        match self {
            Kind::Char => Kind::Char,
            Kind::Line(_) => Kind::Line(anchor),
            Kind::Word(_) => Kind::Word(anchor),
        }
    }
}

/// How the target position is counted: relative to a mark, or absolute.
#[derive(Copy, Clone, PartialEq, Eq, Structural, Debug)]
pub enum Offset {
    /// A count of units forward of the given mark.
    Forward(usize, Mark),
    /// A count of units backward of the given mark.
    Backward(usize, Mark),
    /// An absolute index (of a character, line, or word).
    Absolute(usize),
}

/// A navigation request: a granularity paired with an offset.
#[derive(Copy, Clone, PartialEq, Eq, Structural, Debug)]
pub struct TextObject {
    pub kind: Kind,
    pub offset: Offset,
}

} // verus!
