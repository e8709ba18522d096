//! Positions in a track, and the records a timeline keeps of it.

use vstd::prelude::*;

verus! {

/// A point between two frames of a track: the frames before it are those of earlier groups, and
/// those of its own group with a smaller index.
#[derive(Clone, Copy, Debug, PartialEq, Eq, Structural)]
pub struct Position {
    /// Group sequence number.
    pub group: u64,
    /// Frame index within the group.
    pub frame: u64,
}

impl Position {
    /// Whether `self` comes strictly before `other`.
    pub open spec fn lt(self, other: Position) -> bool {
        self.group < other.group || (self.group == other.group && self.frame < other.frame)
    }

    /// Whether `self` does not come after `other`.
    pub open spec fn le(self, other: Position) -> bool {
        self == other || self.lt(other)
    }

    /// The frame `frame` of the group `group`.
    pub fn new(group: u64, frame: u64) -> (r: Self)
        ensures
            r == (Position { group, frame }),
    {
        Position { group, frame }
    }

    /// The start of a group.
    pub fn group(group: u64) -> (r: Self)
        ensures
            r == (Position { group, frame: 0 }),
    {
        Position { group, frame: 0 }
    }

    /// Whether `self` comes strictly before `other`.
    pub fn before(&self, other: &Position) -> (r: bool)
        ensures
            r == self.lt(*other),
    {
        self.group < other.group || (self.group == other.group && self.frame < other.frame)
    }

    /// Whether `self` does not come after `other`.
    pub fn at_or_before(&self, other: &Position) -> (r: bool)
        ensures
            r == self.le(*other),
    {
        self.group < other.group || (self.group == other.group && self.frame <= other.frame)
    }
}

/// One committed record of a track's timeline: the object it names and the frames that object
/// holds.
#[derive(Clone, Copy, Debug, PartialEq, Eq, Structural)]
pub struct Record {
    /// The record's sequence, which names its object.
    pub sequence: u64,
    /// When the record starts, in timeline units.
    pub pts: u64,
    /// How long the record lasts, in timeline units.
    pub duration: u64,
    /// The first frame, inclusive.
    pub start: Position,
    /// The end, exclusive.
    pub end: Position,
}

impl Record {
    /// A record of the frames from `start` up to `end`.
    pub fn new(sequence: u64, pts: u64, duration: u64, start: Position, end: Position) -> (r: Self)
        ensures
            r == (Record { sequence, pts, duration, start, end }),
    {
        Record { sequence, pts, duration, start, end }
    }
}

/// Positions are in order by group, and inside a group by frame; one comes first of any two.
pub proof fn law_positions_are_ordered_by_group_then_frame(a: Position, b: Position)
    ensures
        a.group < b.group ==> a.lt(b) && !b.lt(a),
        a.group == b.group ==> (a.lt(b) <==> a.frame < b.frame),
        a.le(b) <==> a.lt(b) || a == b,
        a.lt(b) || b.lt(a) || a == b,
{
}

} // verus!
