//! Recording one track: frames in, segments and records out.

use crate::archive::error::{malformed, malformed_text, message, Error, ErrorView};
use crate::archive::id::{check_id, ID_MAX};
use crate::archive::reader::serve::first_index;
use crate::archive::segment::{
    decoded, encoded, fits, gapless, law_decode_undoes_encode, sound, span_check, Frame, FrameView,
    Group, GroupView, Object, ObjectView,
};
use crate::archive::timeline::{Position, Record};
use crate::text::{decimal_text, push_decimal};
use std::collections::VecDeque;
use vstd::prelude::*;
use vstd::string::StringExecFns;

verus! {

/// A frame that arrived but was not reported yet.
#[derive(Debug)]
pub struct Pending {
    /// The frame's index in its group.
    pub index: u64,
    /// The frame.
    pub frame: Frame,
}

/// A group accepted from the source, not yet fully reported.
#[derive(Debug)]
pub struct Incoming {
    /// Group sequence number.
    pub sequence: u64,
    /// The index of the next frame to arrive.
    pub next: u64,
    /// Frames that arrived but were not reported, in order.
    pub pending: VecDeque<Pending>,
    /// No more frames will arrive.
    pub finished: bool,
}

/// A reported frame waiting for the record that holds it.
#[derive(Debug)]
pub struct Placed {
    /// Where the frame stands in its track.
    pub position: Position,
    /// The frame.
    pub frame: Frame,
}

/// What the segmenter that cuts a track into records is told, in order.
#[derive(Clone, Copy, Debug, PartialEq, Eq, Structural)]
pub enum Report {
    /// A frame arrived.
    Frame {
        /// Where the frame stands in its track.
        position: Position,
        /// Its timestamp in the track's timescale.
        timestamp: u64,
        /// Whether it is the first frame of its group.
        first: bool,
    },
    /// A group has no further frames.
    FinishGroup(u64),
}

/// The recording state of one enrolled track.
#[derive(Debug)]
pub struct Track {
    /// The track's name.
    pub name: String,
    /// A resumed track's committed end; earlier content is already stored.
    pub floor: Option<Position>,
    /// The newest accepted group; later groups must exceed it.
    pub largest: Option<u64>,
    /// The first-frame timestamp of the newest reported group; later groups must not precede it.
    pub reported: Option<u64>,
    /// Accepted groups in sequence order. Reported front first, so a later group's frames wait for
    /// every earlier accepted group to finish.
    pub accepted: Vec<Incoming>,
    /// Reported frames waiting for the record that holds them.
    pub frames: VecDeque<Placed>,
    /// Closed records waiting to be committed, oldest first.
    pub records: VecDeque<Record>,
    /// The subscription is still delivering groups.
    pub subscribed: bool,
    /// The segmenter was closed: every remaining record is queued.
    pub closed: bool,
    /// A commit is in flight.
    pub committing: bool,
}

/// What a [`Pending`] holds.
#[verifier::ext_equal]
pub struct PendingView {
    pub index: u64,
    pub frame: FrameView,
}

/// What an [`Incoming`] holds.
#[verifier::ext_equal]
pub struct IncomingView {
    pub sequence: u64,
    pub next: u64,
    pub pending: Seq<PendingView>,
    pub finished: bool,
}

/// What a [`Placed`] holds.
#[verifier::ext_equal]
pub struct PlacedView {
    pub position: Position,
    pub frame: FrameView,
}

/// What a [`Track`] holds.
#[verifier::ext_equal]
pub struct TrackView {
    pub name: Seq<char>,
    pub floor: Option<Position>,
    pub largest: Option<u64>,
    pub reported: Option<u64>,
    pub accepted: Seq<IncomingView>,
    pub frames: Seq<PlacedView>,
    pub records: Seq<Record>,
    pub subscribed: bool,
    pub closed: bool,
    pub committing: bool,
}

impl View for Pending {
    type V = PendingView;

    open spec fn view(&self) -> PendingView {
        PendingView { index: self.index, frame: self.frame@ }
    }
}

impl View for Placed {
    type V = PlacedView;

    open spec fn view(&self) -> PlacedView {
        PlacedView { position: self.position, frame: self.frame@ }
    }
}

impl View for Incoming {
    type V = IncomingView;

    open spec fn view(&self) -> IncomingView {
        IncomingView {
            sequence: self.sequence,
            next: self.next,
            pending: Seq::new(self.pending@.len(), |i: int| self.pending@[i]@),
            finished: self.finished,
        }
    }
}

impl View for Track {
    type V = TrackView;

    open spec fn view(&self) -> TrackView {
        TrackView {
            name: self.name@,
            floor: self.floor,
            largest: self.largest,
            reported: self.reported,
            accepted: Seq::new(self.accepted@.len(), |i: int| self.accepted@[i]@),
            frames: Seq::new(self.frames@.len(), |i: int| self.frames@[i]@),
            records: self.records@,
            subscribed: self.subscribed,
            closed: self.closed,
            committing: self.committing,
        }
    }
}

/// The index of the first frame recorded of a group: a resumed track goes on inside the group it
/// stopped in.
pub open spec fn first_of(group: u64, floor: Option<Position>) -> u64 {
    if floor is Some && floor->0.group == group {
        floor->0.frame
    } else {
        0
    }
}

/// The index of the next frame of an accepted group to be reported.
pub open spec fn head(group: IncomingView) -> int {
    group.next - group.pending.len()
}

/// Whether the next frame of an accepted group to be reported is the first one recorded of it.
pub open spec fn unreported(group: IncomingView, floor: Option<Position>) -> bool {
    ||| head(group) == first_of(group.sequence, floor)
    ||| group.pending.len() == 0 && group.next < first_of(group.sequence, floor)
}

/// Whether the frame at `next` is the one recorded after the frame at `position`: the next of its
/// group, or the first of a later one.
pub open spec fn follows(position: Position, next: Position, floor: Option<Position>) -> bool {
    if next.group == position.group {
        next.frame == position.frame + 1
    } else {
        next.group > position.group && next.frame == first_of(next.group, floor)
    }
}

/// Whether the frames of an accepted group come in order, without a gap up to the last that
/// arrived, and are all at or past the floor.
pub open spec fn incoming_sound(group: IncomingView, floor: Option<Position>) -> bool {
    &&& floor matches Some(f) ==> f.group <= group.sequence
    &&& forall|i: int|
        0 <= i < group.pending.len() ==> (#[trigger] group.pending[i]).index == head(group) + i
    &&& forall|i: int, j: int|
        0 <= i < j < group.pending.len() ==> (#[trigger] group.pending[i]).index < (
        #[trigger] group.pending[j]).index
    &&& forall|i: int|
        0 <= i < group.pending.len() ==> (#[trigger] group.pending[i]).index < group.next
            && group.pending[i].frame.timestamp <= ID_MAX && (floor matches Some(f) ==> f.le(
            Position { group: group.sequence, frame: group.pending[i].index },
        ))
}

/// Whether a reported frame comes before everything a still accepted group can bring.
pub open spec fn before_group(placed: PlacedView, group: IncomingView) -> bool {
    ||| placed.position.group < group.sequence
    ||| {
        &&& placed.position.group == group.sequence
        &&& placed.position.frame < group.next
        &&& forall|k: int|
            0 <= k < group.pending.len() ==> placed.position.frame < (
            #[trigger] group.pending[k]).index
    }
}

impl TrackView {
    /// Whether the reported frames follow each other without a gap inside a group, and the accepted
    /// groups go on where they stop.
    pub open spec fn chained(self) -> bool {
        &&& forall|i: int, j: int|
            0 <= i && j == i + 1 && j < self.frames.len() ==> follows(
                (#[trigger] self.frames[i]).position,
                (#[trigger] self.frames[j]).position,
                self.floor,
            )
        &&& forall|j: int|
            1 <= j < self.accepted.len() ==> unreported(#[trigger] self.accepted[j], self.floor)
        &&& self.accepted.len() > 0 && self.frames.len() > 0 ==> if self.frames.last().position.group
            == self.accepted[0].sequence {
            head(self.accepted[0]) == self.frames.last().position.frame + 1
        } else {
            unreported(self.accepted[0], self.floor)
        }
    }

    /// Whether groups and frames are in order: accepted groups ascend, reported frames ascend, and
    /// whatever was reported comes before whatever may still be.
    pub open spec fn wf(self) -> bool {
        &&& self.chained()
        &&& forall|i: int, j: int|
            0 <= i < j < self.accepted.len() ==> (#[trigger] self.accepted[i]).sequence < (
            #[trigger] self.accepted[j]).sequence
        &&& forall|i: int|
            0 <= i < self.accepted.len() ==> incoming_sound(
                #[trigger] self.accepted[i],
                self.floor,
            )
        &&& self.accepted.len() > 0 || self.frames.len() > 0 ==> self.largest is Some
        &&& forall|i: int|
            0 <= i < self.accepted.len() ==> (#[trigger] self.accepted[i]).sequence
                <= self.largest->0
        &&& self.largest matches Some(l) ==> l <= ID_MAX
        &&& forall|i: int, j: int|
            0 <= i < j < self.frames.len() ==> (#[trigger] self.frames[i]).position.lt(
                (#[trigger] self.frames[j]).position,
            )
        &&& forall|i: int|
            0 <= i < self.frames.len() ==> (#[trigger] self.frames[i]).position.group
                <= self.largest->0 && self.frames[i].frame.timestamp <= ID_MAX
        &&& forall|i: int, j: int|
            0 <= i < self.frames.len() && 0 <= j < self.accepted.len() ==> before_group(
                #[trigger] self.frames[i],
                #[trigger] self.accepted[j],
            )
        &&& forall|i: int|
            0 <= i < self.frames.len() ==> (self.floor matches Some(f) ==> f.le(
                (#[trigger] self.frames[i]).position,
            ))
    }

    /// The accepted group `sequence`, if any.
    pub open spec fn position_of(self, sequence: u64) -> Option<int> {
        if exists|i: int|
            0 <= i < self.accepted.len() && (#[trigger] self.accepted[i]).sequence == sequence {
            Some(
                choose|i: int|
                    0 <= i < self.accepted.len() && (#[trigger] self.accepted[i]).sequence
                        == sequence,
            )
        } else {
            None
        }
    }
}

/// Whether a group is refused: it was seen before, comes out of order, or is stored already.
pub open spec fn group_refused(track: TrackView, sequence: u64) -> bool {
    ||| track.largest is Some && sequence <= track.largest->0
    ||| track.floor is Some && sequence < track.floor->0.group
}

/// A group of which nothing arrived yet.
pub open spec fn fresh_group(sequence: u64) -> IncomingView {
    IncomingView { sequence, next: 0, pending: Seq::empty(), finished: false }
}

impl Track {
    /// A track about to be recorded, from `floor` on.
    pub fn new(name: String, floor: Option<Position>) -> (r: Self)
        ensures
            r@.wf(),
            r@ == (TrackView {
                name: name@,
                floor,
                largest: None,
                reported: None,
                accepted: Seq::empty(),
                frames: Seq::empty(),
                records: Seq::empty(),
                subscribed: true,
                closed: false,
                committing: false,
            }),
    {
        let track = Track {
            name,
            floor,
            largest: None,
            reported: None,
            accepted: Vec::new(),
            frames: VecDeque::new(),
            records: VecDeque::new(),
            subscribed: true,
            closed: false,
            committing: false,
        };
        assert(track@.accepted =~= Seq::empty());
        assert(track@.frames =~= Seq::empty());
        track
    }

    /// Take a group off the subscription, returning whether its frames are wanted.
    ///
    /// Fails on a sequence the recording cannot represent.
    pub fn accept_group(&mut self, sequence: u64) -> (r: Result<bool, Error>)
        requires
            old(self)@.wf(),
        ensures
            final(self)@.wf(),
            match r {
                Ok(wanted) => {
                    &&& wanted == !group_refused(old(self)@, sequence)
                    &&& wanted ==> sequence <= ID_MAX
                    &&& final(self)@ == (if wanted {
                        TrackView {
                            largest: Some(sequence),
                            accepted: old(self)@.accepted.push(fresh_group(sequence)),
                            ..old(self)@
                        }
                    } else {
                        old(self)@
                    })
                },
                Err(e) => {
                    &&& !group_refused(old(self)@, sequence)
                    &&& sequence > ID_MAX
                    &&& e@ == ErrorView::Source(
                        malformed_text(
                            old(self)@.name,
                            sequence,
                            message(ErrorView::Id(sequence)),
                        ),
                    )
                    &&& final(self)@ == old(self)@
                },
            },
    {
        let seen: bool = match self.largest {
            Some(largest) => sequence <= largest,
            None => false,
        };
        let stored: bool = match self.floor {
            Some(floor) => sequence < floor.group,
            None => false,
        };
        if seen || stored {
            return Ok(false);
        }
        if let Err(e) = check_id(sequence) {
            return Err(malformed(self.name.as_str(), sequence, e.message().as_str()));
        }
        self.largest = Some(sequence);
        let group = Incoming { sequence, next: 0, pending: VecDeque::new(), finished: false };
        let ghost shown = group@;
        self.accepted.push(group);
        proof {
            assert(shown.pending =~= Seq::empty());
            assert(self@.accepted =~= old(self)@.accepted.push(shown));
            let before = old(self)@;
            let after = self@;
            assert(after.frames =~= before.frames);
            let n = before.accepted.len() as int;
            assert(forall|i: int| 0 <= i < n ==> after.accepted[i] == before.accepted[i]);
            assert(after.accepted[n] == shown);
            assert forall|i: int, j: int|
                0 <= i < after.frames.len() && 0 <= j < after.accepted.len() implies before_group(
                #[trigger] after.frames[i],
                #[trigger] after.accepted[j],
            ) by {
                if j < n {
                    assert(before_group(before.frames[i], before.accepted[j]));
                }
            }
        }
        Ok(true)
    }

    /// Where the group `sequence` stands among the accepted ones, or how many there are.
    fn find(&self, sequence: u64) -> (r: usize)
        requires
            self@.wf(),
        ensures
            r <= self.accepted@.len(),
            r < self.accepted@.len() ==> self@.position_of(sequence) == Some(r as int)
                && self@.accepted[r as int].sequence == sequence,
            r == self.accepted@.len() ==> self@.position_of(sequence) is None,
    {
        let mut i: usize = 0;
        while i < self.accepted.len()
            invariant
                0 <= i <= self.accepted@.len(),
                self@.wf(),
                forall|j: int| 0 <= j < i ==> (#[trigger] self@.accepted[j]).sequence != sequence,
            decreases self.accepted@.len() - i,
        {
            assert(self@.accepted[i as int] == self.accepted@[i as int]@);
            if self.accepted[i].sequence == sequence {
                proof {
                    let k = choose|k: int|
                        0 <= k < self@.accepted.len() && (#[trigger] self@.accepted[k]).sequence
                            == sequence;
                    assert(self@.accepted[k].sequence == sequence);
                }
                return i;
            }
            i = i + 1;
        }
        i
    }
}

/// The accepted group after one more frame of it arrived; a frame below the floor is stored
/// already, so it is counted and left out.
pub open spec fn with_frame(
    group: IncomingView,
    floor: Option<Position>,
    timestamp: u64,
    payload: Seq<u8>,
) -> IncomingView {
    IncomingView {
        next: (group.next + 1) as u64,
        pending: if floor is Some && (Position { group: group.sequence, frame: group.next }).lt(
            floor->0,
        ) {
            group.pending
        } else {
            group.pending.push(
                PendingView { index: group.next, frame: FrameView { timestamp, payload } },
            )
        },
        ..group
    }
}

/// Replacing an accepted group by one that brings later frames keeps everything in order.
proof fn lemma_group_replaced(before: TrackView, after: TrackView, k: int)
    requires
        before.wf(),
        0 <= k < before.accepted.len(),
        after.accepted.len() == before.accepted.len(),
        forall|i: int| 0 <= i < before.accepted.len() && i != k ==> after.accepted[i]
            == before.accepted[i],
        after.accepted[k].sequence == before.accepted[k].sequence,
        incoming_sound(after.accepted[k], before.floor),
        before.accepted[k].next <= after.accepted[k].next,
        unreported(before.accepted[k], before.floor) ==> unreported(
            after.accepted[k],
            before.floor,
        ),
        before.frames.len() > 0 && before.frames.last().position.group
            == before.accepted[k].sequence ==> head(after.accepted[k]) == head(before.accepted[k]),
        forall|j: int|
            0 <= j < after.accepted[k].pending.len() ==> ((
            #[trigger] after.accepted[k].pending[j]).index >= before.accepted[k].next || exists|i:
                int|
                0 <= i < before.accepted[k].pending.len() && before.accepted[k].pending[i]
                    == after.accepted[k].pending[j]),
        after.floor == before.floor,
        after.largest == before.largest,
        after.frames == before.frames,
    ensures
        after.wf(),
{
    assert forall|i: int, j: int| 0 <= i < j < after.accepted.len() implies (
    #[trigger] after.accepted[i]).sequence < (#[trigger] after.accepted[j]).sequence by {
        assert(before.accepted[i].sequence < before.accepted[j].sequence);
    }
    assert forall|i: int| 0 <= i < after.accepted.len() implies incoming_sound(
        #[trigger] after.accepted[i],
        after.floor,
    ) && after.largest is Some && after.accepted[i].sequence <= after.largest->0 by {
        assert(incoming_sound(before.accepted[i], before.floor));
        assert(before.accepted[i].sequence <= before.largest->0);
    }
    assert forall|i: int, j: int|
        0 <= i < after.frames.len() && 0 <= j < after.accepted.len() implies before_group(
        #[trigger] after.frames[i],
        #[trigger] after.accepted[j],
    ) by {
        assert(before_group(before.frames[i], before.accepted[j]));
        if j == k && after.frames[i].position.group == after.accepted[j].sequence {
            let new = after.accepted[k];
            let old_group = before.accepted[k];
            assert forall|m: int| 0 <= m < new.pending.len() implies after.frames[i].position.frame
                < (#[trigger] new.pending[m]).index by {
                if new.pending[m].index < old_group.next {
                    let q = choose|q: int|
                        0 <= q < old_group.pending.len() && old_group.pending[q] == new.pending[m];
                    assert(after.frames[i].position.frame < old_group.pending[q].index);
                }
            }
        }
    }
}

/// Being in order depends on the groups and frames alone.
proof fn lemma_wf_depends(a: TrackView, b: TrackView)
    requires
        a.wf(),
        b.accepted == a.accepted,
        b.frames == a.frames,
        b.floor == a.floor,
        b.largest == a.largest,
    ensures
        b.wf(),
{
}

impl Track {
    /// Take a frame of the group `sequence`, returning whether more of the group is wanted. The
    /// timestamp is in the track's timescale, `None` where it does not convert.
    ///
    /// Fails on a timestamp the recording cannot represent.
    pub fn accept_frame(&mut self, sequence: u64, timestamp: Option<u64>, payload: Vec<u8>) -> (r:
        Result<bool, Error>)
        requires
            old(self)@.wf(),
            old(self)@.position_of(sequence) matches Some(k) ==> old(self)@.accepted[k].next
                < u64::MAX,
        ensures
            match old(self)@.position_of(sequence) {
                None => r == Ok::<bool, Error>(false) && final(self)@ == old(self)@,
                Some(k) => match timestamp {
                    None => r is Err && r->Err_0@ == ErrorView::Source(
                        malformed_text(old(self)@.name, sequence, message(ErrorView::Overflow)),
                    ),
                    Some(t) => if t > ID_MAX {
                        r is Err && r->Err_0@ == ErrorView::Source(
                            malformed_text(old(self)@.name, sequence, message(ErrorView::Id(t))),
                        )
                    } else {
                        &&& r == Ok::<bool, Error>(true)
                        &&& final(self)@ == (TrackView {
                            accepted: old(self)@.accepted.update(
                                k,
                                with_frame(
                                    old(self)@.accepted[k],
                                    old(self)@.floor,
                                    t,
                                    payload@,
                                ),
                            ),
                            ..old(self)@
                        })
                    },
                },
            },
            r is Err ==> final(self)@ == old(self)@,
            final(self)@.wf(),
    {
        let k: usize = self.find(sequence);
        if k == self.accepted.len() {
            return Ok(false);
        }
        let ghost before = self@;
        assert(before.accepted[k as int] == self.accepted@[k as int]@);
        let timestamp: u64 = match timestamp {
            Some(timestamp) => timestamp,
            None => {
                return Err(
                    malformed(self.name.as_str(), sequence, Error::Overflow.message().as_str()),
                );
            },
        };
        if let Err(e) = check_id(timestamp) {
            return Err(malformed(self.name.as_str(), sequence, e.message().as_str()));
        }
        let index: u64 = self.accepted[k].next;
        let stored: bool = match self.floor {
            Some(floor) => Position::new(sequence, index).before(&floor),
            None => false,
        };
        let ghost group = before.accepted[k as int];
        let ghost bytes = payload@;
        self.accepted[k].next = index + 1;
        if !stored {
            let arrived = Pending { index, frame: Frame { timestamp, payload } };
            self.accepted[k].pending.push_back(arrived);
        }
        proof {
            let after = self@;
            let new = after.accepted[k as int];
            assert(new == self.accepted@[k as int]@);
            assert(new.pending =~= with_frame(group, before.floor, timestamp, bytes).pending);
            assert(new == with_frame(group, before.floor, timestamp, bytes));
            assert(after.accepted =~= before.accepted.update(k as int, new));
            assert(after.frames =~= before.frames);
            assert(incoming_sound(group, before.floor));
            assert forall|j: int| 0 <= j < new.pending.len() implies ((
            #[trigger] new.pending[j]).index >= group.next || exists|i: int|
                0 <= i < group.pending.len() && group.pending[i] == new.pending[j]) by {
                if j < group.pending.len() {
                    assert(group.pending[j] == new.pending[j]);
                }
            }
            assert forall|i: int|
                0 <= i < new.pending.len() implies (#[trigger] new.pending[i]).index < new.next
                && new.pending[i].frame.timestamp <= ID_MAX && (before.floor matches Some(f)
                ==> f.le(Position { group: new.sequence, frame: new.pending[i].index })) by {
                if i < group.pending.len() {
                    assert(group.pending[i] == new.pending[i]);
                }
            }
            assert(incoming_sound(new, before.floor));
            lemma_group_replaced(before, after, k as int);
        }
        Ok(true)
    }

    /// Whether the group `sequence` is accepted and not yet fully reported.
    pub fn holds(&self, sequence: u64) -> (r: bool)
        requires
            self@.wf(),
        ensures
            r == (self@.position_of(sequence) is Some),
    {
        self.find(sequence) < self.accepted.len()
    }

    /// Note that no more frames of the group `sequence` will arrive. A group the network aborted
    /// keeps the frames that did.
    pub fn end_group(&mut self, sequence: u64)
        requires
            old(self)@.wf(),
        ensures
            final(self)@.wf(),
            final(self)@ == (match old(self)@.position_of(sequence) {
                None => old(self)@,
                Some(k) => TrackView {
                    accepted: old(self)@.accepted.update(
                        k,
                        IncomingView { finished: true, ..old(self)@.accepted[k] },
                    ),
                    ..old(self)@
                },
            }),
    {
        let k: usize = self.find(sequence);
        if k < self.accepted.len() {
            let ghost before = self@;
            assert(before.accepted[k as int] == self.accepted@[k as int]@);
            self.accepted[k].finished = true;
            proof {
                let after = self@;
                let new = after.accepted[k as int];
                assert(new == self.accepted@[k as int]@);
                assert(new.pending =~= before.accepted[k as int].pending);
                assert(after.accepted =~= before.accepted.update(k as int, new));
                assert(after.frames =~= before.frames);
                assert(incoming_sound(before.accepted[k as int], before.floor));
                lemma_group_replaced(before, after, k as int);
            }
        }
    }

    /// Note that the subscription delivers no more groups.
    pub fn end(&mut self)
        requires
            old(self)@.wf(),
        ensures
            final(self)@.wf(),
            final(self)@ == (TrackView { subscribed: false, ..old(self)@ }),
    {
        let ghost before = self@;
        self.subscribed = false;
        assert(self@.accepted =~= before.accepted);
        assert(self@.frames =~= before.frames);
        proof {
            lemma_wf_depends(before, self@);
        }
    }

    /// Stop reading: drop the groups that were never reported.
    pub fn remove(&mut self)
        requires
            old(self)@.wf(),
        ensures
            final(self)@.wf(),
            final(self)@ == (TrackView {
                subscribed: false,
                accepted: Seq::empty(),
                ..old(self)@
            }),
    {
        let ghost before = self@;
        self.subscribed = false;
        self.accepted = Vec::new();
        assert(self@.accepted =~= Seq::empty());
        assert(self@.frames =~= before.frames);
        proof {
            lemma_wf_depends(TrackView { accepted: Seq::empty(), ..before }, self@);
        }
    }
}

/// What a waiting frame is reported as.
pub open spec fn frame_report(sequence: u64, p: PendingView) -> Report {
    Report::Frame {
        position: Position { group: sequence, frame: p.index },
        timestamp: p.frame.timestamp,
        first: p.index == 0,
    }
}

/// What the frames of a group are reported as.
pub open spec fn frame_reports(sequence: u64, pending: Seq<PendingView>) -> Seq<Report> {
    Seq::new(pending.len(), |i: int| frame_report(sequence, pending[i]))
}

/// The frames of a group, placed in their track.
pub open spec fn placed(sequence: u64, pending: Seq<PendingView>) -> Seq<PlacedView> {
    Seq::new(
        pending.len(),
        |i: int|
            PlacedView {
                position: Position { group: sequence, frame: pending[i].index },
                frame: pending[i].frame,
            },
    )
}

/// The words for a group that starts before the one ahead of it.
pub open spec fn precedes_text(timestamp: u64, reported: u64) -> Seq<char> {
    "timestamp "@ + decimal_text(timestamp as nat) + " precedes "@ + decimal_text(reported as nat)
}

/// The newest first-frame timestamp after reporting `pending`, or why a group cannot be placed.
pub open spec fn drained(pending: Seq<PendingView>, reported: Option<u64>) -> Result<
    Option<u64>,
    Seq<char>,
>
    decreases pending.len(),
{
    if pending.len() == 0 {
        Ok(reported)
    } else if pending[0].index != 0 {
        drained(pending.skip(1), reported)
    } else if reported is Some && pending[0].frame.timestamp < reported->0 {
        Err(precedes_text(pending[0].frame.timestamp, reported->0))
    } else {
        drained(pending.skip(1), Some(pending[0].frame.timestamp))
    }
}

/// What reporting leaves behind.
#[verifier::ext_equal]
pub struct Reported {
    pub reports: Seq<Report>,
    pub placed: Seq<PlacedView>,
    pub left: Seq<IncomingView>,
    pub reported: Option<u64>,
}

/// Report the frames of the front group, then of each later group once the ones before it are
/// finished. `Err` names the group that cannot be placed, and why.
pub open spec fn report_all(accepted: Seq<IncomingView>, reported: Option<u64>) -> Result<
    Reported,
    (u64, Seq<char>),
>
    decreases accepted.len(),
{
    if accepted.len() == 0 {
        Ok(Reported { reports: Seq::empty(), placed: Seq::empty(), left: Seq::empty(), reported })
    } else {
        let group = accepted[0];
        let reports = frame_reports(group.sequence, group.pending);
        let own = placed(group.sequence, group.pending);
        match drained(group.pending, reported) {
            Err(detail) => Err((group.sequence, detail)),
            Ok(reported) => if !group.finished {
                Ok(
                    Reported {
                        reports,
                        placed: own,
                        left: seq![IncomingView { pending: Seq::empty(), ..group }] + accepted.skip(
                            1,
                        ),
                        reported,
                    },
                )
            } else {
                match report_all(accepted.skip(1), reported) {
                    Err(e) => Err(e),
                    Ok(rest) => Ok(
                        Reported {
                            reports: reports.push(Report::FinishGroup(group.sequence))
                                + rest.reports,
                            placed: own + rest.placed,
                            left: rest.left,
                            reported: rest.reported,
                        },
                    ),
                }
            },
        }
    }
}

/// `rest`, after what was reported already.
spec fn after(
    reports: Seq<Report>,
    placed: Seq<PlacedView>,
    rest: Result<Reported, (u64, Seq<char>)>,
) -> Result<Reported, (u64, Seq<char>)> {
    match rest {
        Err(e) => Err(e),
        Ok(rest) => Ok(
            Reported { reports: reports + rest.reports, placed: placed + rest.placed, ..rest },
        ),
    }
}

/// The words for a group that starts before the one ahead of it.
fn precedes(timestamp: u64, reported: u64) -> (r: String)
    ensures
        r@ == precedes_text(timestamp, reported),
{
    let mut text = String::new();
    text.append("timestamp ");
    push_decimal(&mut text, timestamp);
    text.append(" precedes ");
    push_decimal(&mut text, reported);
    assert(text@ =~= precedes_text(timestamp, reported));
    text
}

/// The track after the first waiting frame of the front group is reported.
spec fn with_first_placed(t: TrackView) -> TrackView {
    let group = t.accepted[0];
    let p = group.pending[0];
    TrackView {
        accepted: t.accepted.update(0, IncomingView { pending: group.pending.skip(1), ..group }),
        frames: t.frames.push(
            PlacedView {
                position: Position { group: group.sequence, frame: p.index },
                frame: p.frame,
            },
        ),
        ..t
    }
}

/// Reporting the first waiting frame of the front group keeps everything in order.
proof fn lemma_first_placed(t: TrackView)
    requires
        t.wf(),
        t.accepted.len() > 0,
        t.accepted[0].pending.len() > 0,
    ensures
        with_first_placed(t).wf(),
{
    let b = with_first_placed(t);
    let group = t.accepted[0];
    let p = group.pending[0];
    let new = b.accepted[0];
    let position = Position { group: group.sequence, frame: p.index };
    let n = t.frames.len() as int;
    assert(incoming_sound(group, t.floor));
    assert(forall|i: int| 0 <= i < n ==> b.frames[i] == t.frames[i]);
    assert(forall|i: int| 1 <= i < t.accepted.len() ==> b.accepted[i] == t.accepted[i]);
    assert forall|i: int| 0 <= i < new.pending.len() implies #[trigger] new.pending[i]
        == group.pending[i + 1] by {}
    assert(incoming_sound(new, t.floor));
    assert forall|i: int, j: int| 0 <= i < j < b.accepted.len() implies (
    #[trigger] b.accepted[i]).sequence < (#[trigger] b.accepted[j]).sequence by {
        assert(t.accepted[i].sequence < t.accepted[j].sequence);
    }
    assert forall|i: int| 0 <= i < b.accepted.len() implies incoming_sound(
        #[trigger] b.accepted[i],
        b.floor,
    ) && b.accepted[i].sequence <= b.largest->0 by {
        assert(incoming_sound(t.accepted[i], t.floor));
    }
    assert forall|i: int, j: int| 0 <= i < j < b.frames.len() implies (
    #[trigger] b.frames[i]).position.lt((#[trigger] b.frames[j]).position) by {
        if j == n {
            assert(before_group(t.frames[i], group));
        } else {
            assert(t.frames[i].position.lt(t.frames[j].position));
        }
    }
    assert forall|i: int| 0 <= i < b.frames.len() implies (
    #[trigger] b.frames[i]).position.group <= b.largest->0 && b.frames[i].frame.timestamp
        <= ID_MAX by {
        if i < n {
            assert(t.frames[i].position.group <= t.largest->0);
        }
    }
    assert forall|i: int, j: int|
        0 <= i < b.frames.len() && 0 <= j < b.accepted.len() implies before_group(
        #[trigger] b.frames[i],
        #[trigger] b.accepted[j],
    ) by {
        if i < n {
            assert(before_group(t.frames[i], t.accepted[j]));
            if j == 0 && t.frames[i].position.group == group.sequence {
                assert forall|k: int| 0 <= k < new.pending.len() implies t.frames[i].position.frame
                    < (#[trigger] new.pending[k]).index by {
                    assert(t.frames[i].position.frame < group.pending[k + 1].index);
                }
            }
        } else if j > 0 {
            assert(t.accepted[0].sequence < t.accepted[j].sequence);
        }
    }
}

/// Dropping the front group keeps everything in order.
proof fn lemma_front_dropped(t: TrackView, b: TrackView)
    requires
        t.wf(),
        t.accepted.len() > 0,
        b.accepted == t.accepted.skip(1),
        b.frames == t.frames,
        b.floor == t.floor,
        b.largest == t.largest,
    ensures
        b.wf(),
{
    assert forall|i: int| 0 <= i < b.accepted.len() implies #[trigger] b.accepted[i]
        == t.accepted[i + 1] by {}
    assert forall|i: int, j: int|
        0 <= i < b.frames.len() && 0 <= j < b.accepted.len() implies before_group(
        #[trigger] b.frames[i],
        #[trigger] b.accepted[j],
    ) by {
        assert(before_group(t.frames[i], t.accepted[j + 1]));
    }
}

impl Track {
    /// Report every frame that can be placed: the front group's arrivals, then each later group
    /// once the ones before it finish. Returns what the segmenter is to be told, in order.
    ///
    /// Fails on a group that starts before the previous one, which the timeline cannot place.
    #[verifier::rlimit(40)]
    pub fn report(&mut self) -> (r: Result<Vec<Report>, Error>)
        requires
            old(self)@.wf(),
        ensures
            match r {
                Ok(reports) => {
                    let all = report_all(old(self)@.accepted, old(self)@.reported);
                    &&& all is Ok
                    &&& reports@ == all->Ok_0.reports
                    &&& final(self)@ == (TrackView {
                        accepted: all->Ok_0.left,
                        reported: all->Ok_0.reported,
                        frames: old(self)@.frames + all->Ok_0.placed,
                        ..old(self)@
                    })
                    &&& final(self)@.wf()
                },
                Err(e) => {
                    let all = report_all(old(self)@.accepted, old(self)@.reported);
                    &&& all is Err
                    &&& e@ == ErrorView::Source(
                        malformed_text(old(self)@.name, all->Err_0.0, all->Err_0.1),
                    )
                },
            },
    {
        let ghost start = self@;
        let mut reports: Vec<Report> = Vec::new();
        let ghost mut done: Seq<PlacedView> = Seq::empty();
        proof {
            assert(start.frames + done =~= start.frames);
            match report_all(start.accepted, start.reported) {
                Ok(all) => {
                    assert(Seq::<Report>::empty() + all.reports =~= all.reports);
                    assert(done + all.placed =~= all.placed);
                },
                Err(e) => {},
            }
        }
        loop
            invariant_except_break
                self@.wf(),
                self@ == (TrackView {
                    accepted: self@.accepted,
                    reported: self@.reported,
                    frames: start.frames + done,
                    ..start
                }),
                report_all(start.accepted, start.reported) == after(
                    reports@,
                    done,
                    report_all(self@.accepted, self@.reported),
                ),
                start == old(self)@,
            ensures
                self@.wf(),
                self@ == (TrackView {
                    accepted: self@.accepted,
                    reported: self@.reported,
                    frames: start.frames + done,
                    ..start
                }),
                report_all(start.accepted, start.reported) == Ok::<Reported, (u64, Seq<char>)>(
                    Reported {
                        reports: reports@,
                        placed: done,
                        left: self@.accepted,
                        reported: self@.reported,
                    },
                ),
            decreases self.accepted@.len(),
        {
            if self.accepted.len() == 0 {
                proof {
                    assert(self@.accepted =~= Seq::empty());
                    assert(reports@ + Seq::<Report>::empty() =~= reports@);
                    assert(done + Seq::<PlacedView>::empty() =~= done);
                }
                break;
            }
            let sequence: u64 = self.accepted[0].sequence;
            let ghost before = self@;
            let ghost group = before.accepted[0];
            let ghost reports0 = reports@;
            let ghost done0 = done;
            let ghost mut k: int = 0;
            proof {
                assert(group == self.accepted@[0]@);
                assert(group.pending.skip(0) =~= group.pending);
                assert(frame_reports(sequence, group.pending.take(0)) =~= Seq::empty());
                assert(placed(sequence, group.pending.take(0)) =~= Seq::empty());
                assert(before.accepted.update(0, group) =~= before.accepted);
                assert(reports0 + frame_reports(sequence, group.pending.take(0)) =~= reports0);
                assert(done0 + placed(sequence, group.pending.take(0)) =~= done0);
            }
            while self.accepted[0].pending.len() > 0
                invariant
                    self.accepted@.len() == before.accepted.len() > 0,
                    before.accepted[0] == group,
                    sequence == group.sequence,
                    0 <= k <= group.pending.len(),
                    self@.wf(),
                    self@ == (TrackView {
                        accepted: before.accepted.update(
                            0,
                            IncomingView { pending: group.pending.skip(k), ..group },
                        ),
                        reported: self@.reported,
                        frames: start.frames + done,
                        ..start
                    }),
                    reports@ == reports0 + frame_reports(sequence, group.pending.take(k)),
                    done == done0 + placed(sequence, group.pending.take(k)),
                    drained(group.pending, before.reported) == drained(
                        group.pending.skip(k),
                        self@.reported,
                    ),
                    report_all(start.accepted, start.reported) == after(
                        reports0,
                        done0,
                        report_all(before.accepted, before.reported),
                    ),
                    start == old(self)@,
                decreases group.pending.len() - k,
            {
                let ghost now = self@;
                let ghost rest = group.pending.skip(k);
                let ghost listed = self.accepted@;
                proof {
                    assert(now.accepted[0] == self.accepted@[0]@);
                    assert(now.accepted[0].pending == rest);
                    assert(rest.len() == self.accepted@[0].pending@.len());
                    lemma_first_placed(now);
                    assert(rest.skip(1) =~= group.pending.skip(k + 1));
                    assert(rest[0] == group.pending[k]);
                }
                if let Some(arrived) = self.accepted[0].pending.pop_front() {
                    assert(arrived@ == rest[0]);
                    let index: u64 = arrived.index;
                    let timestamp: u64 = arrived.frame.timestamp;
                    if index == 0 {
                        if let Some(reported) = self.reported {
                            if timestamp < reported {
                                let detail = precedes(timestamp, reported);
                                return Err(
                                    malformed(self.name.as_str(), sequence, detail.as_str()),
                                );
                            }
                        }
                        self.reported = Some(timestamp);
                    }
                    let position = Position::new(sequence, index);
                    reports.push(Report::Frame { position, timestamp, first: index == 0 });
                    let held = Placed { position, frame: arrived.frame };
                    let ghost shown = held@;
                    self.frames.push_back(held);
                    proof {
                        let taken = group.pending.take(k);
                        let more = group.pending.take(k + 1);
                        assert(frame_reports(sequence, more) =~= frame_reports(sequence, taken).push(
                            frame_report(sequence, rest[0]),
                        ));
                        assert(placed(sequence, more) =~= placed(sequence, taken).push(shown));
                        done = done.push(shown);
                        assert(done =~= done0 + placed(sequence, more));
                        assert(reports@ =~= reports0 + frame_reports(sequence, more));
                        k = k + 1;
                        assert(self@.frames =~= now.frames.push(shown));
                        assert(self@.frames =~= start.frames + done);
                        assert(self.accepted@[0]@.pending =~= rest.skip(1));
                        assert(forall|j: int|
                            1 <= j < listed.len() ==> self.accepted@[j] == listed[j]);
                        assert forall|j: int| 1 <= j < listed.len() implies #[trigger]
                            self@.accepted[j] == now.accepted[j] by {}
                        assert(self@.accepted[0] == self.accepted@[0]@);
                        assert(self@.accepted =~= before.accepted.update(
                            0,
                            IncomingView { pending: group.pending.skip(k), ..group },
                        ));
                        assert(with_first_placed(now).accepted =~= self@.accepted);
                        lemma_wf_depends(with_first_placed(now), self@);
                    }
                }
            }
            proof {
                assert(self@.accepted[0] == self.accepted@[0]@);
                assert(group.pending.skip(k).len() == 0);
                assert(k == group.pending.len());
                assert(group.pending.take(k) =~= group.pending);
                assert(group.pending.skip(k) =~= Seq::empty());
                assert(drained(group.pending, before.reported) == Ok::<Option<u64>, Seq<char>>(
                    self@.reported,
                ));
            }
            let finished: bool = self.accepted[0].finished;
            if !finished {
                proof {
                    let one = Reported {
                        reports: frame_reports(sequence, group.pending),
                        placed: placed(sequence, group.pending),
                        left: seq![IncomingView { pending: Seq::empty(), ..group }]
                            + before.accepted.skip(1),
                        reported: self@.reported,
                    };
                    assert(report_all(before.accepted, before.reported) == Ok::<
                        Reported,
                        (u64, Seq<char>),
                    >(one));
                    assert(self@.accepted =~= one.left);
                }
                break;
            }
            let ghost now = self@;
            let ghost listed = self.accepted@;
            let _ = self.accepted.remove(0);
            reports.push(Report::FinishGroup(sequence));
            proof {
                assert forall|j: int| 0 <= j < self@.accepted.len() implies #[trigger]
                    self@.accepted[j] == before.accepted[j + 1] by {
                    assert(self.accepted@[j] == listed[j + 1]);
                    assert(now.accepted[j + 1] == listed[j + 1]@);
                    assert(now.accepted[j + 1] == before.accepted[j + 1]);
                }
                assert(self@.accepted =~= before.accepted.skip(1));
                assert(self@.frames =~= now.frames);
                assert(now.accepted.skip(1) =~= self@.accepted);
                lemma_front_dropped(now, self@);
                match report_all(self@.accepted, self@.reported) {
                    Ok(rest) => {
                        let own = frame_reports(sequence, group.pending).push(
                            Report::FinishGroup(sequence),
                        );
                        assert(reports@ + rest.reports =~= reports0 + (own + rest.reports));
                        assert(done + rest.placed =~= done0 + (placed(sequence, group.pending)
                            + rest.placed));
                    },
                    Err(e) => {},
                }
            }
        }
        Ok(reports)
    }
}

/// How many leading frames come before `end`.
pub open spec fn leading_before(frames: Seq<PlacedView>, end: Position) -> int
    decreases frames.len(),
{
    if frames.len() > 0 && frames[0].position.lt(end) {
        1 + leading_before(frames.skip(1), end)
    } else {
        0
    }
}

/// Frames in order, put into the groups they belong to.
pub open spec fn grouped(frames: Seq<PlacedView>) -> Seq<GroupView>
    decreases frames.len(),
{
    if frames.len() == 0 {
        Seq::empty()
    } else {
        let groups = grouped(frames.drop_last());
        let last = frames.last();
        if groups.len() > 0 && groups.last().sequence == last.position.group {
            groups.drop_last().push(
                GroupView {
                    sequence: groups.last().sequence,
                    frames: groups.last().frames.push(last.frame),
                },
            )
        } else {
            groups.push(
                GroupView { sequence: last.position.group, frames: seq![last.frame] },
            )
        }
    }
}

/// The object that `record` takes out of the waiting `frames`.
pub open spec fn record_object(frames: Seq<PlacedView>, record: Record) -> ObjectView {
    ObjectView {
        frame_start: record.start.frame,
        groups: grouped(frames.take(leading_before(frames, record.end))),
    }
}

proof fn lemma_leading_bounds(frames: Seq<PlacedView>, end: Position)
    ensures
        0 <= leading_before(frames, end) <= frames.len(),
    decreases frames.len(),
{
    if frames.len() > 0 && frames[0].position.lt(end) {
        lemma_leading_bounds(frames.skip(1), end);
    }
}

/// Any part of the waiting frames is in order as the whole is.
proof fn lemma_frames_part(t: TrackView, b: TrackView, n: int)
    requires
        t.wf(),
        0 <= n <= t.frames.len(),
        b.accepted == t.accepted,
        b.frames == t.frames.skip(n),
        b.floor == t.floor,
        b.largest == t.largest,
    ensures
        b.wf(),
{
    assert forall|i: int| 0 <= i < b.frames.len() implies #[trigger] b.frames[i]
        == t.frames[i + n] by {}
    assert forall|i: int, j: int|
        0 <= i < b.frames.len() && 0 <= j < b.accepted.len() implies before_group(
        #[trigger] b.frames[i],
        #[trigger] b.accepted[j],
    ) by {
        assert(before_group(t.frames[i + n], t.accepted[j]));
    }
}

impl Track {
    /// Close the track once nothing more can arrive, returning whether that is now: the segmenter
    /// is then to be closed too.
    pub fn settle(&mut self) -> (r: bool)
        requires
            old(self)@.wf(),
        ensures
            final(self)@.wf(),
            r == (!old(self)@.subscribed && old(self)@.accepted.len() == 0 && !old(self)@.closed),
            final(self)@ == (TrackView { closed: old(self)@.closed || r, ..old(self)@ }),
    {
        if self.subscribed || self.accepted.len() > 0 || self.closed {
            return false;
        }
        let ghost before = self@;
        self.closed = true;
        proof {
            assert(self@.accepted =~= before.accepted);
            assert(self@.frames =~= before.frames);
            lemma_wf_depends(before, self@);
        }
        true
    }

    /// Queue a record the segmenter closed.
    pub fn queue(&mut self, record: Record)
        requires
            old(self)@.wf(),
        ensures
            final(self)@.wf(),
            final(self)@ == (TrackView {
                records: old(self)@.records.push(record),
                ..old(self)@
            }),
    {
        let ghost before = self@;
        self.records.push_back(record);
        proof {
            assert(self@.accepted =~= before.accepted);
            assert(self@.frames =~= before.frames);
            lemma_wf_depends(before, self@);
        }
    }

    /// Start committing the next closed record, if no commit is in flight: the record and the
    /// object that holds its frames.
    ///
    /// Fails when the waiting frames are not exactly the record's.
    pub fn commit(&mut self) -> (r: Result<Option<(Record, Object)>, Error>)
        requires
            old(self)@.wf(),
        ensures
            match r {
                Ok(None) => (old(self)@.committing || old(self)@.records.len() == 0) && final(self)@
                    == old(self)@,
                Ok(Some((record, object))) => {
                    &&& !old(self)@.committing
                    &&& old(self)@.records.len() > 0
                    &&& record == old(self)@.records[0]
                    &&& object@ == record_object(old(self)@.frames, record)
                    &&& span_check(object@, record.start, record.end) is Ok
                    &&& final(self)@ == (TrackView {
                        records: old(self)@.records.skip(1),
                        frames: old(self)@.frames.skip(
                            leading_before(old(self)@.frames, record.end),
                        ),
                        committing: true,
                        ..old(self)@
                    })
                },
                Err(e) => {
                    let record = old(self)@.records[0];
                    &&& !old(self)@.committing
                    &&& old(self)@.records.len() > 0
                    &&& span_check(
                        record_object(old(self)@.frames, record),
                        record.start,
                        record.end,
                    ) == Err::<(), Error>(e)
                },
            },
            r is Ok ==> final(self)@.wf(),
    {
        if self.committing {
            return Ok(None);
        }
        let ghost before = self@;
        let record = match self.records.pop_front() {
            Some(record) => record,
            None => {
                assert(self@.records =~= before.records);
                assert(self@.accepted =~= before.accepted);
                assert(self@.frames =~= before.frames);
                return Ok(None);
            },
        };
        let ghost all = before.frames;
        let ghost n = leading_before(all, record.end);
        let ghost mut k: int = 0;
        let mut groups: Vec<Group> = Vec::new();
        proof {
            lemma_leading_bounds(all, record.end);
            assert(self@.frames =~= all);
            assert(all.skip(0) =~= all);
            assert(all.take(0) =~= Seq::empty());
            assert(Seq::new(groups@.len(), |i: int| groups@[i]@) =~= Seq::<GroupView>::empty());
        }
        while self.frames.len() > 0 && self.frames[0].position.before(&record.end)
            invariant
                0 <= k <= n <= all.len(),
                n == k + leading_before(all.skip(k), record.end),
                self@.frames == all.skip(k),
                Seq::new(groups@.len(), |i: int| groups@[i]@) == grouped(all.take(k)),
                self@.accepted == before.accepted,
                self@.name == before.name,
                self@.floor == before.floor,
                self@.largest == before.largest,
                self@.reported == before.reported,
                self@.records == before.records.skip(1),
                self@.subscribed == before.subscribed,
                self@.closed == before.closed,
                self@.committing == before.committing,
            decreases all.len() - k,
        {
            let ghost rest = all.skip(k);
            assert(self@.frames[0] == self.frames@[0]@);
            assert(rest.skip(1) =~= all.skip(k + 1));
            if let Some(held) = self.frames.pop_front() {
                proof {
                    assert(held@ == rest[0]);
                    assert(rest[0] == all[k]);
                    lemma_leading_bounds(all.skip(k + 1), record.end);
                    assert(all.take(k + 1).drop_last() =~= all.take(k));
                    assert(all.take(k + 1).last() == all[k]);
                }
                let ghost shown = Seq::new(groups@.len(), |i: int| groups@[i]@);
                let ghost list = groups@;
                let last: usize = groups.len();
                if last > 0 && groups[last - 1].sequence == held.position.group {
                    let ghost tail = groups@[last - 1]@;
                    assert(shown.last() == tail);
                    let ghost view = held@.frame;
                    groups[last - 1].frames.push(held.frame);
                    proof {
                        assert(groups@[last - 1]@.frames =~= tail.frames.push(view));
                        assert(forall|i: int| 0 <= i < last - 1 ==> groups@[i] == list[i]);
                    }
                } else {
                    if last > 0 {
                        assert(shown.last() == groups@[last - 1]@);
                    }
                    let ghost view = held@.frame;
                    let mut frames: Vec<Frame> = Vec::new();
                    frames.push(held.frame);
                    let group = Group { sequence: held.position.group, frames };
                    assert(group@.frames =~= seq![view]);
                    groups.push(group);
                }
                assert(Seq::new(groups@.len(), |i: int| groups@[i]@) =~= grouped(all.take(k + 1)));
                proof {
                    k = k + 1;
                }
                assert(self@.frames =~= all.skip(k));
            }
        }
        proof {
            if all.skip(k).len() > 0 {
                assert(self@.frames[0] == self.frames@[0]@);
            }
            assert(k == n);
        }
        let object = Object { frame_start: record.start.frame, groups };
        assert(object@.groups =~= grouped(all.take(n)));
        assert(object@ == record_object(all, record));
        object.check_span(record.start, record.end)?;
        self.committing = true;
        proof {
            assert(self@.frames =~= all.skip(n));
            assert(self@.accepted =~= before.accepted);
            assert(self@.records =~= before.records.skip(1));
            lemma_frames_part(before, self@, n);
        }
        Ok(Some((record, object)))
    }

    /// Note that the commit in flight is over.
    pub fn committed(&mut self)
        requires
            old(self)@.wf(),
        ensures
            final(self)@.wf(),
            final(self)@ == (TrackView { committing: false, ..old(self)@ }),
    {
        let ghost before = self@;
        self.committing = false;
        proof {
            assert(self@.accepted =~= before.accepted);
            assert(self@.frames =~= before.frames);
            lemma_wf_depends(before, self@);
        }
    }

    /// Whether the track ended and every record is durable: its timeline can be finished.
    pub fn finished(&self) -> (r: bool)
        ensures
            r == (self@.closed && self@.records.len() == 0 && !self@.committing),
    {
        self.closed && self.records.len() == 0 && !self.committing
    }
}

proof fn lemma_grouped(frames: Seq<PlacedView>)
    requires
        forall|i: int, j: int|
            0 <= i < j < frames.len() ==> (#[trigger] frames[i]).position.lt(
                (#[trigger] frames[j]).position,
            ),
        forall|i: int|
            0 <= i < frames.len() ==> (#[trigger] frames[i]).position.group <= ID_MAX
                && frames[i].frame.timestamp <= ID_MAX,
        frames.len() > 0,
    ensures
        sound(grouped(frames)),
        grouped(frames).last().sequence == frames.last().position.group,
        forall|i: int| 0 <= i < grouped(frames).len() ==> (
        #[trigger] grouped(frames)[i]).frames.len() > 0,
    decreases frames.len(),
{
    let init = frames.drop_last();
    let last = frames.last();
    let n = frames.len() - 1;
    let all = grouped(frames);
    assert(frames[n] == last);
    assert(forall|i: int| 0 <= i < init.len() ==> init[i] == frames[i]);
    if init.len() > 0 {
        lemma_grouped(init);
        let groups = grouped(init);
        let m = groups.len() - 1;
        assert(init.last() == frames[n - 1]);
        assert(frames[n - 1].position.lt(frames[n].position));
        assert(groups[m] == groups.last());
        if groups.last().sequence == last.position.group {
            assert(forall|i: int| 0 <= i < m ==> all[i] == groups[i]);
            assert(all[m].sequence == groups[m].sequence);
            assert forall|i: int, j: int| 0 <= i < j < all.len() implies (
            #[trigger] all[i]).sequence < (#[trigger] all[j]).sequence by {
                assert(groups[i].sequence < groups[j].sequence);
            }
            assert forall|i: int, k: int|
                0 <= i < all.len() && 0 <= k < all[i].frames.len() implies (
            #[trigger] all[i].frames[k]).timestamp <= ID_MAX by {
                if i < m || k < groups[m].frames.len() {
                    assert(groups[i].frames[k].timestamp <= ID_MAX);
                }
            }
        } else {
            assert(forall|i: int| 0 <= i <= m ==> all[i] == groups[i]);
            assert forall|i: int, j: int| 0 <= i < j < all.len() implies (
            #[trigger] all[i]).sequence < (#[trigger] all[j]).sequence by {
                if j == m + 1 {
                    if i < m {
                        assert(groups[i].sequence < groups[m].sequence);
                    }
                } else {
                    assert(groups[i].sequence < groups[j].sequence);
                }
            }
            assert forall|i: int, k: int|
                0 <= i < all.len() && 0 <= k < all[i].frames.len() implies (
            #[trigger] all[i].frames[k]).timestamp <= ID_MAX by {
                if i <= m {
                    assert(groups[i].frames[k].timestamp <= ID_MAX);
                }
            }
        }
    } else {
        assert(grouped(init) =~= Seq::empty());
        assert(all =~= seq![GroupView { sequence: last.position.group, frames: seq![last.frame] }]);
    }
}

/// Whatever frames a record takes, they make an object that can be stored: its groups ascend and
/// none is empty.
pub proof fn law_record_object_is_sound(track: TrackView, record: Record)
    requires
        track.wf(),
        leading_before(track.frames, record.end) > 0,
    ensures
        sound(record_object(track.frames, record).groups),
        forall|i: int|
            0 <= i < record_object(track.frames, record).groups.len() ==> (
            #[trigger] record_object(track.frames, record).groups[i]).frames.len() > 0,
{
    lemma_leading_bounds(track.frames, record.end);
    let taken = track.frames.take(leading_before(track.frames, record.end));
    assert forall|i: int| 0 <= i < taken.len() implies (#[trigger] taken[i]).position.group
        <= ID_MAX && taken[i].frame.timestamp <= ID_MAX by {
        assert(taken[i] == track.frames[i]);
    }
    lemma_grouped(taken);
}

/// Whether one of `groups` holds `placed` at its index past the first one stored.
spec fn held(groups: Seq<GroupView>, start: u64, placed: PlacedView) -> bool {
    exists|i: int| 0 <= i < groups.len() && #[trigger] holds_at(groups, i, start, placed)
}

/// Whether the group at `i` holds `placed` at its index past the first one stored.
spec fn holds_at(groups: Seq<GroupView>, i: int, start: u64, placed: PlacedView) -> bool {
    let base = if i == 0 {
        start
    } else {
        0
    };
    &&& groups[i].sequence == placed.position.group
    &&& base <= placed.position.frame < base + groups[i].frames.len()
    &&& groups[i].frames[placed.position.frame - base] == placed.frame
}

/// Frames that follow each other keep their index when they are put into groups.
proof fn lemma_indexed(frames: Seq<PlacedView>, floor: Option<Position>)
    requires
        frames.len() > 0,
        floor matches Some(f) ==> f.le(frames[0].position),
        forall|i: int, j: int|
            0 <= i && j == i + 1 && j < frames.len() ==> follows(
                (#[trigger] frames[i]).position,
                (#[trigger] frames[j]).position,
                floor,
            ),
    ensures
        forall|k: int|
            0 <= k < frames.len() ==> held(
                grouped(frames),
                frames[0].position.frame,
                #[trigger] frames[k],
            ),
        grouped(frames).len() > 0,
        frames.last().position.group >= frames[0].position.group,
        grouped(frames).last().sequence == frames.last().position.group,
        grouped(frames).len() > 1 ==> frames.last().position.group > frames[0].position.group,
        ({
            let base = if grouped(frames).len() == 1 {
                frames[0].position.frame
            } else {
                0
            };
            grouped(frames).last().frames.len() == frames.last().position.frame + 1 - base
        }),
    decreases frames.len(),
{
    let init = frames.drop_last();
    let last = frames.last();
    let n = frames.len() - 1;
    let all = grouped(frames);
    let start = frames[0].position.frame;
    if n == 0 {
        assert(grouped(init) =~= Seq::empty());
        assert(all =~= seq![GroupView { sequence: last.position.group, frames: seq![last.frame] }]);
        assert(holds_at(all, 0, start, frames[0]));
    } else {
        assert(forall|i: int| 0 <= i < n ==> init[i] == frames[i]);
        lemma_indexed(init, floor);
        let groups = grouped(init);
        let m = groups.len() - 1;
        assert(init.last() == frames[n - 1]);
        assert(follows(frames[n - 1].position, frames[n].position, floor));
        let same = groups.last().sequence == last.position.group;
        if !same {
            assert(last.position.group > frames[0].position.group);
            assert(first_of(last.position.group, floor) == 0);
        }
        assert forall|k: int| 0 <= k < frames.len() implies held(
            all,
            start,
            #[trigger] frames[k],
        ) by {
            if k < n {
                assert(held(groups, init[0].position.frame, init[k]));
                let i = choose|i: int|
                    0 <= i < groups.len() && #[trigger] holds_at(groups, i, start, init[k]);
                if same && i == m {
                    assert(all[m].frames == groups[m].frames.push(last.frame));
                } else {
                    assert(all[i] == groups[i]);
                }
                assert(holds_at(all, i, start, frames[k]));
            } else if same {
                assert(all[m].frames == groups[m].frames.push(last.frame));
                assert(holds_at(all, m, start, frames[k]));
            } else {
                assert(all[m + 1].frames == seq![last.frame]);
                assert(holds_at(all, m + 1, start, frames[k]));
            }
        }
    }
}

/// A committed frame is read back where it was recorded: the object that a record takes, once stored
/// and decoded, holds each of its frames in the frame's own group at the frame's own index.
pub proof fn law_a_recorded_frame_is_read_back(
    track: TrackView,
    record: Record,
    object: Object,
    k: int,
)
    requires
        track.wf(),
        0 <= k < leading_before(track.frames, record.end),
        track.frames[0].position == record.start,
        object@ == record_object(track.frames, record),
        span_check(object@, record.start, record.end) is Ok,
        fits(object@),
    ensures
        ({
            let placed = track.frames[k];
            let stored = decoded(encoded(object@))->Ok_0;
            let i = placed.position.group - record.start.group;
            let first = first_index(stored, i);
            &&& decoded(encoded(object@)) is Ok
            &&& span_check(stored, record.start, record.end) is Ok
            &&& 0 <= i < stored.groups.len()
            &&& stored.groups[i].sequence == placed.position.group
            &&& first <= placed.position.frame < first + stored.groups[i].frames.len()
            &&& stored.groups[i].frames[placed.position.frame - first] == placed.frame
        }),
{
    law_decode_undoes_encode(object);
    lemma_leading_bounds(track.frames, record.end);
    let n = leading_before(track.frames, record.end);
    let taken = track.frames.take(n);
    assert(forall|i: int| 0 <= i < n ==> taken[i] == track.frames[i]);
    lemma_indexed(taken, track.floor);
    let groups = object@.groups;
    assert(held(groups, taken[0].position.frame, taken[k]));
    let i = choose|i: int|
        0 <= i < groups.len() && #[trigger] holds_at(
            groups,
            i,
            taken[0].position.frame,
            taken[k],
        );
    assert(gapless(groups, record.start.group));
    assert(groups[i].sequence == record.start.group + i);
}

/// Whether `frames` hold this frame at this position.
pub open spec fn among(frames: Seq<PlacedView>, position: Position, frame: FrameView) -> bool {
    frames.contains(PlacedView { position, frame })
}

/// Whether this frame waits at this position in one of the accepted groups.
pub open spec fn waits(accepted: Seq<IncomingView>, position: Position, frame: FrameView) -> bool {
    exists|i: int| 0 <= i < accepted.len() && #[trigger] waits_in(accepted[i], position, frame)
}

/// Whether this frame waits at this position in an accepted group.
pub open spec fn waits_in(group: IncomingView, position: Position, frame: FrameView) -> bool {
    group.sequence == position.group && group.pending.contains(
        PendingView { index: position.frame, frame },
    )
}

/// Whether a track holds this frame at this position, reported or not.
pub open spec fn keeps(track: TrackView, position: Position, frame: FrameView) -> bool {
    among(track.frames, position, frame) || waits(track.accepted, position, frame)
}

proof fn lemma_placed_among(group: IncomingView, position: Position, frame: FrameView)
    ensures
        among(placed(group.sequence, group.pending), position, frame) <==> waits_in(
            group,
            position,
            frame,
        ),
{
    let p = PendingView { index: position.frame, frame };
    let q = PlacedView { position, frame };
    let all = placed(group.sequence, group.pending);
    if waits_in(group, position, frame) {
        let i = choose|i: int| 0 <= i < group.pending.len() && group.pending[i] == p;
        assert(all[i] == q);
    }
    if among(all, position, frame) {
        let i = choose|i: int| 0 <= i < all.len() && all[i] == q;
        assert(group.pending[i] == p);
    }
}

/// What is held among two runs of frames is held in one or the other.
pub proof fn lemma_keeps_sum(
    a: Seq<PlacedView>,
    b: Seq<PlacedView>,
    position: Position,
    frame: FrameView,
)
    ensures
        among(a + b, position, frame) <==> among(a, position, frame) || among(b, position, frame),
{
    lemma_among_sum(a, b, position, frame);
}

proof fn lemma_among_sum(
    a: Seq<PlacedView>,
    b: Seq<PlacedView>,
    position: Position,
    frame: FrameView,
)
    ensures
        among(a + b, position, frame) <==> among(a, position, frame) || among(b, position, frame),
{
    let q = PlacedView { position, frame };
    if (a + b).contains(q) {
        let i = choose|i: int| 0 <= i < (a + b).len() && (a + b)[i] == q;
        if i < a.len() {
            assert(a[i] == q);
        } else {
            assert(b[i - a.len()] == q);
        }
    }
    if a.contains(q) {
        let i = choose|i: int| 0 <= i < a.len() && a[i] == q;
        assert((a + b)[i] == q);
    }
    if b.contains(q) {
        let i = choose|i: int| 0 <= i < b.len() && b[i] == q;
        assert((a + b)[a.len() + i] == q);
    }
}

proof fn lemma_waits_front(accepted: Seq<IncomingView>, position: Position, frame: FrameView)
    requires
        accepted.len() > 0,
    ensures
        waits(accepted, position, frame) <==> waits_in(accepted[0], position, frame) || waits(
            accepted.skip(1),
            position,
            frame,
        ),
{
    let rest = accepted.skip(1);
    if waits(accepted, position, frame) {
        let i = choose|i: int|
            0 <= i < accepted.len() && #[trigger] waits_in(accepted[i], position, frame);
        if i > 0 {
            assert(waits_in(rest[i - 1], position, frame));
        }
    }
    if waits(rest, position, frame) {
        let i = choose|i: int| 0 <= i < rest.len() && #[trigger] waits_in(rest[i], position, frame);
        assert(waits_in(accepted[i + 1], position, frame));
    }
}

/// Reporting moves frames and changes none: a frame waited before exactly where it is placed now, or
/// waits still.
pub proof fn law_reporting_keeps_every_frame(
    accepted: Seq<IncomingView>,
    reported: Option<u64>,
    position: Position,
    frame: FrameView,
)
    ensures
        report_all(accepted, reported) matches Ok(all) ==> (waits(accepted, position, frame)
            <==> among(all.placed, position, frame) || waits(all.left, position, frame)),
    decreases accepted.len(),
{
    if report_all(accepted, reported) is Ok && accepted.len() > 0 {
        let all = report_all(accepted, reported)->Ok_0;
        let group = accepted[0];
        let own = placed(group.sequence, group.pending);
        lemma_placed_among(group, position, frame);
        lemma_waits_front(accepted, position, frame);
        let now = drained(group.pending, reported)->Ok_0;
        if group.finished {
            law_reporting_keeps_every_frame(accepted.skip(1), now, position, frame);
            let rest = report_all(accepted.skip(1), now)->Ok_0;
            lemma_among_sum(own, rest.placed, position, frame);
        } else {
            lemma_waits_front(all.left, position, frame);
            assert(all.left.skip(1) =~= accepted.skip(1));
            assert(!waits_in(all.left[0], position, frame));
        }
    }
}

/// The frames that the segmenter is told of.
pub open spec fn told_frames(reports: Seq<Report>) -> Seq<(Position, u64, bool)>
    decreases reports.len(),
{
    if reports.len() == 0 {
        Seq::empty()
    } else {
        match reports.last() {
            Report::Frame { position, timestamp, first } => told_frames(reports.drop_last()).push(
                (position, timestamp, first),
            ),
            Report::FinishGroup(_) => told_frames(reports.drop_last()),
        }
    }
}

/// The groups that the segmenter is told have ended.
pub open spec fn told_ends(reports: Seq<Report>) -> Seq<u64>
    decreases reports.len(),
{
    if reports.len() == 0 {
        Seq::empty()
    } else {
        match reports.last() {
            Report::Frame { .. } => told_ends(reports.drop_last()),
            Report::FinishGroup(group) => told_ends(reports.drop_last()).push(group),
        }
    }
}

proof fn lemma_told_sum(a: Seq<Report>, b: Seq<Report>)
    ensures
        told_frames(a + b) == told_frames(a) + told_frames(b),
        told_ends(a + b) == told_ends(a) + told_ends(b),
    decreases b.len(),
{
    if b.len() == 0 {
        assert(a + b =~= a);
        assert(told_frames(a) + told_frames(b) =~= told_frames(a));
        assert(told_ends(a) + told_ends(b) =~= told_ends(a));
    } else {
        lemma_told_sum(a, b.drop_last());
        assert((a + b).drop_last() =~= a + b.drop_last());
        assert((a + b).last() == b.last());
        assert(told_frames(a + b) =~= told_frames(a) + told_frames(b));
        assert(told_ends(a + b) =~= told_ends(a) + told_ends(b));
    }
}

/// What the segmenter is told of frames in their places.
pub open spec fn announced(frames: Seq<PlacedView>) -> Seq<(Position, u64, bool)> {
    Seq::new(
        frames.len(),
        |i: int|
            (frames[i].position, frames[i].frame.timestamp, frames[i].position.frame == 0),
    )
}

proof fn lemma_told_group(sequence: u64, pending: Seq<PendingView>)
    ensures
        told_frames(frame_reports(sequence, pending)) == announced(placed(sequence, pending)),
        told_ends(frame_reports(sequence, pending)) == Seq::<u64>::empty(),
    decreases pending.len(),
{
    if pending.len() > 0 {
        let init = pending.drop_last();
        lemma_told_group(sequence, init);
        let all = frame_reports(sequence, pending);
        assert(all.drop_last() =~= frame_reports(sequence, init));
        assert(announced(placed(sequence, pending)) =~= announced(placed(sequence, init)).push(
            announced(placed(sequence, pending)).last(),
        ));
    } else {
        assert(frame_reports(sequence, pending) =~= Seq::empty());
        assert(announced(placed(sequence, pending)) =~= Seq::empty());
    }
}

/// The segmenter is told of exactly the frames that are placed, in order, each with its position and
/// timestamp and whether it is its group's first; and of the end of exactly the groups that are done
/// with. Those are the finished ones up to the first that is not, which is left without the frames it
/// brought; the groups behind it are left as they are.
pub proof fn law_the_segmenter_is_told_what_is_placed(
    accepted: Seq<IncomingView>,
    reported: Option<u64>,
)
    ensures
        report_all(accepted, reported) matches Ok(all) ==> {
            let n = accepted.len() - all.left.len();
            &&& told_frames(all.reports) == announced(all.placed)
            &&& 0 <= n <= accepted.len()
            &&& told_ends(all.reports) == Seq::new(n as nat, |i: int| accepted[i].sequence)
            &&& forall|i: int| 0 <= i < n ==> (#[trigger] accepted[i]).finished
            &&& n < accepted.len() ==> {
                &&& !accepted[n].finished
                &&& all.left[0].pending.len() == 0
                &&& all.left[0].sequence == accepted[n].sequence
                &&& all.left[0].next == accepted[n].next
                &&& !all.left[0].finished
                &&& all.left.skip(1) == accepted.skip(n + 1)
            }
        },
    decreases accepted.len(),
{
    if report_all(accepted, reported) is Ok {
        let all = report_all(accepted, reported)->Ok_0;
        let n = accepted.len() - all.left.len();
        if accepted.len() == 0 {
            assert(announced(all.placed) =~= Seq::empty());
            assert(told_ends(all.reports) =~= Seq::new(n as nat, |i: int| accepted[i].sequence));
        } else {
            let group = accepted[0];
            let own = placed(group.sequence, group.pending);
            let reports = frame_reports(group.sequence, group.pending);
            lemma_told_group(group.sequence, group.pending);
            let now = drained(group.pending, reported)->Ok_0;
            if group.finished {
                law_the_segmenter_is_told_what_is_placed(accepted.skip(1), now);
                let rest = report_all(accepted.skip(1), now)->Ok_0;
                let front = reports.push(Report::FinishGroup(group.sequence));
                assert(front.drop_last() =~= reports);
                lemma_told_sum(front, rest.reports);
                assert(announced(own + rest.placed) =~= announced(own) + announced(rest.placed));
                assert(told_ends(all.reports) =~= Seq::new(n as nat, |i: int| accepted[i].sequence));
                assert forall|i: int| 0 <= i < n implies (#[trigger] accepted[i]).finished by {
                    if i > 0 {
                        assert(accepted.skip(1)[i - 1].finished);
                    }
                }
                if n < accepted.len() {
                    assert(accepted.skip(1)[n - 1] == accepted[n]);
                    assert(accepted.skip(1).skip(n) =~= accepted.skip(n + 1));
                }
            } else {
                assert(told_ends(all.reports) =~= Seq::new(n as nat, |i: int| accepted[i].sequence));
                assert(all.left.skip(1) =~= accepted.skip(1));
            }
        }
    }
}

/// Whether the first frame of each group is stamped no earlier than that of the groups before it, and
/// than `reported`.
pub open spec fn starts_in_order(accepted: Seq<IncomingView>, reported: Option<u64>) -> bool {
    &&& forall|i: int|
        0 <= i < accepted.len() && (#[trigger] accepted[i]).pending.len() > 0
            && accepted[i].pending[0].index == 0 && reported is Some ==> reported->0
            <= accepted[i].pending[0].frame.timestamp
    &&& forall|i: int, j: int|
        0 <= i < j < accepted.len() && (#[trigger] accepted[i]).pending.len() > 0 && (
        #[trigger] accepted[j]).pending.len() > 0 && accepted[i].pending[0].index == 0
            && accepted[j].pending[0].index == 0 ==> accepted[i].pending[0].frame.timestamp
            <= accepted[j].pending[0].frame.timestamp
}

/// Frames past the first of their group say nothing of where the group starts.
proof fn lemma_drained_tail(pending: Seq<PendingView>, reported: Option<u64>)
    requires
        forall|i: int| 0 <= i < pending.len() ==> (#[trigger] pending[i]).index > 0,
    ensures
        drained(pending, reported) == Ok::<Option<u64>, Seq<char>>(reported),
    decreases pending.len(),
{
    if pending.len() > 0 {
        assert(pending[0].index > 0);
        let rest = pending.skip(1);
        assert forall|i: int| 0 <= i < rest.len() implies (#[trigger] rest[i]).index > 0 by {
            assert(rest[i] == pending[i + 1]);
        }
        lemma_drained_tail(rest, reported);
    }
}

proof fn lemma_drained(group: IncomingView, floor: Option<Position>, reported: Option<u64>)
    requires
        incoming_sound(group, floor),
    ensures
        ({
            let starts = group.pending.len() > 0 && group.pending[0].index == 0;
            let t = group.pending[0].frame.timestamp;
            let result = drained(group.pending, reported);
            &&& !starts ==> result == Ok::<Option<u64>, Seq<char>>(reported)
            &&& starts && (reported is None || reported->0 <= t) ==> result == Ok::<
                Option<u64>,
                Seq<char>,
            >(Some(t))
            &&& starts && reported is Some && t < reported->0 ==> result is Err
        }),
{
    let pending = group.pending;
    if pending.len() > 0 {
        let rest = pending.skip(1);
        assert forall|i: int| 0 <= i < rest.len() implies (#[trigger] rest[i]).index > 0 by {
            assert(rest[i] == pending[i + 1]);
            assert(pending[0].index < pending[i + 1].index);
        }
        if pending[0].index == 0 {
            lemma_drained_tail(rest, Some(pending[0].frame.timestamp));
        } else {
            assert forall|i: int| 0 <= i < pending.len() implies (#[trigger] pending[i]).index > 0 by {
                if i > 0 {
                    assert(pending[0].index < pending[i].index);
                }
            }
            lemma_drained_tail(pending, reported);
        }
    } else {
        assert(pending =~= Seq::empty());
    }
}

/// Groups that start in order can be placed.
pub proof fn law_groups_that_start_in_order_are_placed(
    accepted: Seq<IncomingView>,
    floor: Option<Position>,
    reported: Option<u64>,
)
    requires
        forall|i: int| 0 <= i < accepted.len() ==> incoming_sound(#[trigger] accepted[i], floor),
        starts_in_order(accepted, reported),
    ensures
        report_all(accepted, reported) is Ok,
    decreases accepted.len(),
{
    if accepted.len() > 0 {
        let group = accepted[0];
        assert(incoming_sound(group, floor));
        lemma_drained(group, floor, reported);
        let rest = accepted.skip(1);
        assert(forall|i: int| 0 <= i < rest.len() ==> rest[i] == accepted[i + 1]);
        let now = drained(group.pending, reported)->Ok_0;
        assert(starts_in_order(rest, now));
        law_groups_that_start_in_order_are_placed(rest, floor, now);
    }
}

/// A group that starts before the one ahead of it is never placed, and the newest start is remembered.
pub proof fn law_placed_groups_start_in_order(
    accepted: Seq<IncomingView>,
    floor: Option<Position>,
    reported: Option<u64>,
    k: int,
)
    requires
        forall|i: int| 0 <= i < accepted.len() ==> incoming_sound(#[trigger] accepted[i], floor),
        report_all(accepted, reported) is Ok,
        0 <= k < report_all(accepted, reported)->Ok_0.placed.len(),
    ensures
        ({
            let all = report_all(accepted, reported)->Ok_0;
            let p = all.placed[k];
            &&& reported is Some ==> all.reported is Some && reported->0 <= all.reported->0
            &&& p.position.frame == 0 ==> {
                &&& reported is Some ==> reported->0 <= p.frame.timestamp
                &&& all.reported is Some
                &&& p.frame.timestamp <= all.reported->0
            }
        }),
    decreases accepted.len(),
{
    let all = report_all(accepted, reported)->Ok_0;
    let group = accepted[0];
    assert(incoming_sound(group, floor));
    lemma_drained(group, floor, reported);
    let own = placed(group.sequence, group.pending);
    let now = drained(group.pending, reported)->Ok_0;
    if k < own.len() {
        assert(all.placed[k] == own[k]);
        if k > 0 {
            assert(group.pending[0].index < group.pending[k].index);
        }
    }
    if group.finished {
        let rest = accepted.skip(1);
        assert(forall|i: int| 0 <= i < rest.len() ==> rest[i] == accepted[i + 1]);
        let after = report_all(rest, now)->Ok_0;
        if k >= own.len() {
            assert(all.placed[k] == after.placed[k - own.len()]);
            law_placed_groups_start_in_order(rest, floor, now, k - own.len());
        } else {
            lemma_reported_grows(rest, floor, now);
        }
    }
}

proof fn lemma_reported_grows(
    accepted: Seq<IncomingView>,
    floor: Option<Position>,
    reported: Option<u64>,
)
    requires
        forall|i: int| 0 <= i < accepted.len() ==> incoming_sound(#[trigger] accepted[i], floor),
        report_all(accepted, reported) is Ok,
    ensures
        reported is Some ==> report_all(accepted, reported)->Ok_0.reported is Some && reported->0
            <= report_all(accepted, reported)->Ok_0.reported->0,
    decreases accepted.len(),
{
    if accepted.len() > 0 {
        let group = accepted[0];
        assert(incoming_sound(group, floor));
        lemma_drained(group, floor, reported);
        if group.finished {
            let rest = accepted.skip(1);
            assert(forall|i: int| 0 <= i < rest.len() ==> rest[i] == accepted[i + 1]);
            lemma_reported_grows(rest, floor, drained(group.pending, reported)->Ok_0);
        }
    }
}

/// A record takes exactly the frames that come before its end.
pub proof fn law_a_record_takes_the_frames_before_its_end(track: TrackView, end: Position, k: int)
    requires
        track.wf(),
        0 <= k < track.frames.len(),
    ensures
        ({
            let p = track.frames[k].position;
            k < leading_before(track.frames, end) <==> p.group < end.group || (p.group == end.group
                && p.frame < end.frame)
        }),
{
    lemma_leading(track.frames, end, k);
}

proof fn lemma_leading(frames: Seq<PlacedView>, end: Position, k: int)
    requires
        0 <= k < frames.len(),
        forall|i: int, j: int|
            0 <= i < j < frames.len() ==> (#[trigger] frames[i]).position.lt(
                (#[trigger] frames[j]).position,
            ),
    ensures
        k < leading_before(frames, end) <==> frames[k].position.lt(end),
        0 <= leading_before(frames, end) <= frames.len(),
    decreases frames.len(),
{
    lemma_leading_bounds(frames, end);
    if k > 0 {
        assert(frames[0].position.lt(frames[k].position));
    }
    if frames[0].position.lt(end) {
        let rest = frames.skip(1);
        assert(forall|i: int| 0 <= i < rest.len() ==> rest[i] == frames[i + 1]);
        if k > 0 {
            lemma_leading(rest, end, k - 1);
        } else {
            lemma_leading_bounds(rest, end);
        }
    }
}

/// The frames of groups in order, each with its group.
pub open spec fn flat(groups: Seq<GroupView>) -> Seq<(u64, FrameView)>
    decreases groups.len(),
{
    if groups.len() == 0 {
        Seq::empty()
    } else {
        flat(groups.drop_last()) + Seq::new(
            groups.last().frames.len(),
            |i: int| (groups.last().sequence, groups.last().frames[i]),
        )
    }
}

/// Putting frames into groups leaves none out, adds none and changes none: group by group they are
/// the same frames, in the same order, each in its own group.
pub proof fn law_grouping_keeps_every_frame(frames: Seq<PlacedView>)
    ensures
        flat(grouped(frames)) == Seq::new(
            frames.len(),
            |i: int| (frames[i].position.group, frames[i].frame),
        ),
    decreases frames.len(),
{
    let expected = Seq::new(frames.len(), |i: int| (frames[i].position.group, frames[i].frame));
    if frames.len() == 0 {
        assert(flat(grouped(frames)) =~= expected);
    } else {
        let init = frames.drop_last();
        law_grouping_keeps_every_frame(init);
        let before = grouped(init);
        let all = grouped(frames);
        let last = frames.last();
        let shorter = Seq::new(init.len(), |i: int| (init[i].position.group, init[i].frame));
        assert(expected =~= shorter.push((last.position.group, last.frame)));
        if before.len() > 0 && before.last().sequence == last.position.group {
            assert(all.drop_last() =~= before.drop_last());
            let tail = Seq::new(
                before.last().frames.len(),
                |i: int| (before.last().sequence, before.last().frames[i]),
            );
            let longer = Seq::new(
                all.last().frames.len(),
                |i: int| (all.last().sequence, all.last().frames[i]),
            );
            assert(longer =~= tail.push((last.position.group, last.frame)));
            assert(flat(all) =~= flat(before).push((last.position.group, last.frame)));
        } else {
            assert(all.drop_last() =~= before);
            assert(flat(all) =~= flat(before).push((last.position.group, last.frame)));
        }
    }
}

/// A committed object starts where its record does, and holds the frames before the record's end and
/// no others.
pub proof fn law_an_object_holds_what_its_record_takes(frames: Seq<PlacedView>, record: Record)
    ensures
        record_object(frames, record).frame_start == record.start.frame,
        ({
            let n = leading_before(frames, record.end);
            flat(record_object(frames, record).groups) == Seq::new(
                n as nat,
                |i: int| (frames[i].position.group, frames[i].frame),
            )
        }),
{
    lemma_leading_bounds(frames, record.end);
    let n = leading_before(frames, record.end);
    let taken = frames.take(n);
    law_grouping_keeps_every_frame(taken);
    assert(Seq::new(taken.len(), |i: int| (taken[i].position.group, taken[i].frame)) =~= Seq::new(
        n as nat,
        |i: int| (frames[i].position.group, frames[i].frame),
    ));
}

} // verus!
