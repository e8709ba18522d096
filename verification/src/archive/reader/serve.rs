//! Serving one group of a recorded track, frame by frame.

use super::index::Span;
use crate::archive::segment::{
    fits, gapless, groups_fit, lemma_fault_iff_unsound, span_check, GroupView, Object,
    ObjectView,
};
use crate::archive::timeline::Position;
use crate::archive::varint::VARINT_LIMIT;
use vstd::prelude::*;

verus! {

/// What a group request needs next.
#[derive(Clone, Copy, Debug, PartialEq, Eq)]
pub enum Step {
    /// Load the object of this span, checked against it.
    Load(Span),
    /// Every span is served, and the last reaches past the group or the recording ended: finish.
    Finish,
    /// Every span is served but the group may still grow: wait for a change.
    Wait,
}

/// What to do with the object of a span.
#[derive(Clone, Copy, Debug, PartialEq, Eq, Structural)]
pub enum Write {
    /// Write the frames `from..to` of the group at `group` in the object.
    Frames {
        /// Which of the object's groups.
        group: usize,
        /// The first of its frames to write.
        from: usize,
        /// One past the last of its frames to write.
        to: usize,
    },
    /// A frame between the last one written and this object is gone: abort the group.
    Abort,
}

/// One group request being answered from the records that hold the group.
#[derive(Debug)]
pub struct GroupServe {
    sequence: u64,
    next: u64,
    spans: Vec<Span>,
    at: usize,
}

/// Whether a request for `group` from frame `start` on can be answered: the earliest retained span
/// reaches back to that frame.
pub open spec fn admissible(spans: Seq<Span>, group: u64, start: u64) -> bool {
    spans.len() > 0 && spans[0].start.le(Position { group, frame: start })
}

/// Whether `span` holds nothing from `next` on.
pub open spec fn behind(span: Span, group: u64, next: u64) -> bool {
    span.end.le(Position { group, frame: next })
}

/// Whether the spans reach past the group, so it cannot grow.
pub open spec fn reaches(spans: Seq<Span>, group: u64) -> bool {
    spans.len() > 0 && spans.last().end.group > group
}

/// The index, in its group, of the first frame an object stores of its `i`-th group.
pub open spec fn first_index(o: ObjectView, i: int) -> u64 {
    if i == 0 {
        o.frame_start
    } else {
        0
    }
}

impl GroupServe {
    /// The group that is served.
    pub closed spec fn group(self) -> u64 {
        self.sequence
    }

    /// The index of the next frame to write.
    pub closed spec fn next_frame(self) -> u64 {
        self.next
    }

    /// The spans that hold the group.
    pub closed spec fn all(self) -> Seq<Span> {
        self.spans@
    }

    /// How many of the spans are done with.
    pub closed spec fn served(self) -> int {
        self.at as int
    }

    /// Whether the count of served spans is inside their number.
    pub closed spec fn wf(self) -> bool {
        self.at <= self.spans@.len()
    }

    /// Start answering a request for `group` from frame `start` on, or `None` where the earliest
    /// retained span does not reach back to that frame.
    pub fn open(spans: Vec<Span>, group: u64, start: u64) -> (r: Option<Self>)
        ensures
            r is Some <==> admissible(spans@, group, start),
            r matches Some(g) ==> g.wf() && g.group() == group && g.next_frame() == start && g.all()
                == spans@ && g.served() == 0,
    {
        if spans.len() == 0 {
            return None;
        }
        if !spans[0].start.at_or_before(&Position::new(group, start)) {
            return None;
        }
        Some(GroupServe { sequence: group, next: start, spans, at: 0 })
    }

    /// What to do next, given whether the recording ended. Spans with nothing left to write are
    /// passed over.
    pub fn poll(&mut self, ended: bool) -> (r: Step)
        requires
            old(self).wf(),
        ensures
            final(self).wf(),
            final(self).group() == old(self).group(),
            final(self).next_frame() == old(self).next_frame(),
            final(self).all() == old(self).all(),
            old(self).served() <= final(self).served() <= old(self).all().len(),
            forall|i: int|
                old(self).served() <= i < final(self).served() ==> behind(
                    #[trigger] old(self).all()[i],
                    old(self).group(),
                    old(self).next_frame(),
                ),
            match r {
                Step::Load(span) => final(self).served() < old(self).all().len() && span == old(
                    self,
                ).all()[final(self).served()] && !behind(
                    span,
                    old(self).group(),
                    old(self).next_frame(),
                ),
                Step::Finish => final(self).served() == old(self).all().len() && (ended || reaches(
                    old(self).all(),
                    old(self).group(),
                )),
                Step::Wait => final(self).served() == old(self).all().len() && !ended && !reaches(
                    old(self).all(),
                    old(self).group(),
                ),
            },
    {
        let here = Position::new(self.sequence, self.next);
        while self.at < self.spans.len()
            invariant
                self.at <= self.spans@.len(),
                here == (Position { group: self.sequence, frame: self.next }),
                self.sequence == old(self).sequence,
                self.next == old(self).next,
                self.spans@ == old(self).spans@,
                old(self).at <= self.at,
                forall|i: int|
                    old(self).at <= i < self.at ==> behind(
                        #[trigger] self.spans@[i],
                        self.sequence,
                        self.next,
                    ),
            decreases self.spans@.len() - self.at,
        {
            let span = self.spans[self.at];
            if !span.end.at_or_before(&here) {
                return Step::Load(span);
            }
            self.at = self.at + 1;
        }
        let complete: bool = self.spans.len() > 0 && self.spans[self.spans.len() - 1].end.group
            > self.sequence;
        if complete || ended {
            Step::Finish
        } else {
            Step::Wait
        }
    }

    /// What to write of the object that [`poll`](Self::poll) asked for: every frame of the group
    /// from the next one on. A span that starts past the next frame leaves a hole, which aborts.
    pub fn loaded(&mut self, object: &Object) -> (r: Write)
        requires
            old(self).wf(),
            old(self).served() < old(self).all().len(),
            ({
                let span = old(self).all()[old(self).served()];
                &&& span_check(object@, span.start, span.end) is Ok
                &&& !behind(span, old(self).group(), old(self).next_frame())
            }),
            fits(object@),
        ensures
            final(self).wf(),
            final(self).group() == old(self).group(),
            final(self).all() == old(self).all(),
            match r {
                Write::Abort => !old(self).all()[old(self).served()].start.le(
                    Position { group: old(self).group(), frame: old(self).next_frame() },
                ) && *final(self) == *old(self),
                Write::Frames { group, from, to } => {
                    let frames = object@.groups[group as int].frames;
                    let first = first_index(object@, group as int);
                    &&& old(self).all()[old(self).served()].start.le(
                        Position { group: old(self).group(), frame: old(self).next_frame() },
                    )
                    &&& group < object@.groups.len()
                    &&& object@.groups[group as int].sequence == old(self).group()
                    &&& from <= to == frames.len()
                    &&& first + from == old(self).next_frame() || (from == to && first + to <= old(
                        self,
                    ).next_frame())
                    &&& final(self).next_frame() == old(self).next_frame() + (to - from)
                    &&& final(self).served() == old(self).served() + 1
                },
            },
    {
        let span = self.spans[self.at];
        assert(self.at < self.spans.len());
        if !span.start.at_or_before(&Position::new(self.sequence, self.next)) {
            return Write::Abort;
        }
        proof {
            lemma_fault_iff_unsound(object@.groups);
        }
        let ghost groups = object@.groups;
        let distance: u64 = self.sequence - span.start.group;
        proof {
            lemma_reaches(object@, span.start, span.end, self.sequence, self.next);
        }
        assert(distance < object.groups.len());
        let group: usize = distance as usize;
        assert(groups[group as int] == object.groups@[group as int]@);
        assert(groups[group as int].sequence == self.sequence);
        let frames: usize = object.groups[group].frames.len();
        proof {
            lemma_group_fits(groups, group as int);
        }
        let first: u64 = if group == 0 {
            object.frame_start
        } else {
            0
        };
        assert(first <= self.next);
        let skip: u64 = self.next - first;
        let from: usize = if skip < frames as u64 {
            skip as usize
        } else {
            frames
        };
        self.next = self.next + (frames - from) as u64;
        self.at = self.at + 1;
        Write::Frames { group, from, to: frames }
    }

    /// Go on with the spans that hold the group now.
    pub fn resume(&mut self, spans: Vec<Span>)
        ensures
            final(self).wf(),
            final(self).group() == old(self).group(),
            final(self).next_frame() == old(self).next_frame(),
            final(self).all() == spans@,
            final(self).served() == 0,
    {
        self.spans = spans;
        self.at = 0;
    }
}

/// A checked object whose span is not behind the next frame stores the group asked for.
proof fn lemma_reaches(o: ObjectView, start: Position, end: Position, group: u64, next: u64)
    requires
        span_check(o, start, end) is Ok,
        start.le(Position { group, frame: next }),
        !end.le(Position { group, frame: next }),
    ensures
        o.groups.len() > 0,
        group - start.group < o.groups.len(),
        o.groups[group - start.group].sequence == group,
{
    let last = o.groups.last();
    assert(gapless(o.groups, start.group));
    assert(o.groups[o.groups.len() - 1].sequence == start.group + o.groups.len() - 1);
    assert(group <= last.sequence);
    assert(o.groups[group - start.group].sequence == group);
}

proof fn lemma_group_fits(groups: Seq<GroupView>, i: int)
    requires
        groups_fit(groups),
        0 <= i < groups.len(),
    ensures
        groups[i].frames.len() < VARINT_LIMIT,
    decreases groups.len(),
{
    if i < groups.len() - 1 {
        lemma_group_fits(groups.drop_last(), i);
    }
}

/// A request is answered exactly where the earliest span still held begins at or before the frame asked
/// for: what was expired before it cannot be made up.
pub proof fn law_a_request_needs_its_first_frame(spans: Seq<Span>, group: u64, start: u64)
    ensures
        admissible(spans, group, start) <==> spans.len() > 0 && (spans[0].start.group < group || (
        spans[0].start.group == group && spans[0].start.frame <= start)),
{
}

/// A span is passed over exactly where it ends at or before the next frame to write, and a group cannot
/// grow exactly where the last span reaches into a later one.
pub proof fn law_spans_are_left_behind_by_their_end(span: Span, spans: Seq<Span>, group: u64, next: u64)
    ensures
        behind(span, group, next) <==> span.end.group < group || (span.end.group == group
            && span.end.frame <= next),
        reaches(spans, group) <==> spans.len() > 0 && group < spans[spans.len() - 1].end.group,
{
}

/// An object's first group is stored from the index the object names on, every later one from its
/// first frame on.
pub proof fn law_only_the_first_group_starts_late(o: ObjectView, i: int)
    ensures
        first_index(o, 0) == o.frame_start,
        i > 0 ==> first_index(o, i) == 0,
{
}

} // verus!
