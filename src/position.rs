//! Line positions, match positions and hunks: the data handed over by the
//! line-oriented diff.
use vstd::prelude::*;

verus! {

/// A zero-based line number.
#[derive(Clone, Copy, Debug, PartialEq, Eq, Structural, Hash, PartialOrd, Ord)]
pub struct LineNumber(pub u32);

/// A span of text that lies on a single line.
#[derive(Clone, Copy, Debug, PartialEq, Eq, Structural, Hash)]
pub struct SingleLineSpan {
    pub line: LineNumber,
    pub start_col: u32,
    pub end_col: u32,
}

/// How a position relates to the other side of the comparison.
#[derive(Clone, Copy, Debug, PartialEq, Eq, Structural, Hash)]
pub enum MatchKind {
    /// Text that occurs on this side only.
    Novel,
    /// Text that is unchanged, with the position it has on the other side.
    Unchanged { opposite_pos: SingleLineSpan },
}

/// A single-line position tagged with its match kind.
#[derive(Clone, Copy, Debug, PartialEq, Eq, Structural, Hash)]
pub struct MatchedPos {
    pub kind: MatchKind,
    pub pos: SingleLineSpan,
}

/// A contiguous change region: the novel lines of each side.
#[derive(Clone, Debug)]
pub struct Hunk {
    pub novel_lhs: Vec<LineNumber>,
    pub novel_rhs: Vec<LineNumber>,
}

} // verus!
