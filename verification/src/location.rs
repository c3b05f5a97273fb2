use vstd::prelude::*;

verus! {

/// A position in the source text: zero-based line and column numbers.
/// Positions are ordered lexicographically by (line, column).
#[derive(Debug, Clone, Copy, PartialEq, Eq, Structural)]
pub struct Pos {
    pub line: usize,
    pub col: usize,
}

/// Strict lexicographic order on positions.
pub open spec fn pos_lt(a: Pos, b: Pos) -> bool {
    a.line < b.line || (a.line == b.line && a.col < b.col)
}

/// A source location: either a single position or a span from `beg` to `end`.
/// A well-formed span satisfies `pos_lt(beg, end)`; a pair of equal or
/// out-of-order positions degrades to a single-point location (the policy of
/// [`Loc::new_min`], used uniformly by the whole pipeline).
#[derive(Debug, Clone, Copy, PartialEq, Eq, Structural)]
pub enum Loc {
    Single { pos: Pos },
    Span { beg: Pos, end: Pos },
}

impl Loc {
    /// The begin position of a span, or the position itself.
    pub open spec fn beg_pos(self) -> Pos {
        match self {
            Loc::Single { pos } => pos,
            Loc::Span { beg, end: _ } => beg,
        }
    }

    /// The end position of a span, or the position itself.
    pub open spec fn end_pos(self) -> Pos {
        match self {
            Loc::Single { pos } => pos,
            Loc::Span { beg: _, end } => end,
        }
    }

    /// Builds a location from an ordered pair of positions, rejecting an
    /// out-of-order pair.
    pub fn new(beg: Pos, end: Pos) -> (r: Option<Self>)
        ensures
            pos_lt(beg, end) ==> r == Some(Loc::Span { beg, end }),
            beg == end ==> r == Some(Loc::Single { pos: beg }),
            pos_lt(end, beg) ==> r is None,
    {
        if beg.line < end.line || (beg.line == end.line && beg.col < end.col) {
            Some(Loc::Span { beg, end })
        } else if beg.line == end.line && beg.col == end.col {
            Some(Loc::Single { pos: beg })
        } else {
            None
        }
    }

    /// Builds a location from a pair of positions, degrading an equal or
    /// out-of-order pair to the single position `beg`.
    pub fn new_min(beg: Pos, end: Pos) -> (r: Self)
        ensures
            r == Loc::spec_new_min(beg, end),
    {
        if beg.line < end.line || (beg.line == end.line && beg.col < end.col) {
            Loc::Span { beg, end }
        } else {
            Loc::Single { pos: beg }
        }
    }

    /// What [`Loc::new_min`] returns.
    pub open spec fn spec_new_min(beg: Pos, end: Pos) -> Loc {
        if pos_lt(beg, end) {
            Loc::Span { beg, end }
        } else {
            Loc::Single { pos: beg }
        }
    }

    /// Consumes the location, returning its begin position.
    pub fn into_beg_or_pos(self) -> (r: Pos)
        ensures
            r == self.beg_pos(),
    {
        match self {
            Loc::Single { pos } => pos,
            Loc::Span { beg, end: _ } => beg,
        }
    }

    /// Consumes the location, returning its end position.
    pub fn into_end_or_pos(self) -> (r: Pos)
        ensures
            r == self.end_pos(),
    {
        match self {
            Loc::Single { pos } => pos,
            Loc::Span { beg: _, end } => end,
        }
    }

    /// Borrows the begin position.
    pub fn get_beg_or_pos(&self) -> (r: &Pos)
        ensures
            *r == self.beg_pos(),
    {
        match self {
            Loc::Single { pos } => pos,
            Loc::Span { beg, end: _ } => beg,
        }
    }

    /// Borrows the end position.
    pub fn get_end_or_pos(&self) -> (r: &Pos)
        ensures
            *r == self.end_pos(),
    {
        match self {
            Loc::Single { pos } => pos,
            Loc::Span { beg: _, end } => end,
        }
    }
}

} // verus!
