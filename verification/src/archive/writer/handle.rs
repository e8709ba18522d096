//! What the reads of a recording bring, and what is read next.

use super::track::{
    announced, fresh_group, group_refused, incoming_sound, keeps,
    law_groups_that_start_in_order_are_placed, law_reporting_keeps_every_frame,
    law_the_segmenter_is_told_what_is_placed, lemma_keeps_sum, report_all, starts_in_order,
    told_frames, waits, waits_in, with_frame, IncomingView, PendingView, Report, Track, TrackView,
};
use crate::archive::segment::FrameView;
use crate::archive::timeline::Position;
use crate::archive::error::{malformed_text, message, Error, ErrorView};
use crate::archive::id::ID_MAX;
use crate::text::same;
use vstd::prelude::*;

verus! {

/// What one read of a track brought.
#[derive(Debug)]
pub enum Arrival {
    /// The subscription delivered the group with this sequence number.
    Group(u64),
    /// The subscription ended, by itself or with an error.
    Ended,
    /// A group delivered its next frame.
    Frame {
        /// The group.
        sequence: u64,
        /// The frame's timestamp in the track's timescale, `None` where it does not convert.
        timestamp: Option<u64>,
        /// The frame's bytes.
        payload: Vec<u8>,
    },
    /// A group ended. One the network aborted keeps the frames that arrived.
    GroupEnded(u64),
}

/// What to do after a read was handled.
#[derive(Debug)]
pub struct Next {
    /// Read the next group of the track.
    pub group: bool,
    /// Read the next frame of the group.
    pub frame: bool,
    /// What to tell the segmenter, in order.
    pub reports: Vec<Report>,
}

/// What handling a read leads to.
#[verifier::ext_equal]
pub struct Handled {
    pub track: TrackView,
    pub group: bool,
    pub frame: bool,
    pub reports: Seq<Report>,
}

/// Report what can be placed, and go on reading frames where `frame` says so.
pub open spec fn reporting(track: TrackView, frame: bool) -> Result<Handled, ErrorView> {
    match report_all(track.accepted, track.reported) {
        Ok(all) => Ok(
            Handled {
                track: TrackView {
                    accepted: all.left,
                    reported: all.reported,
                    frames: track.frames + all.placed,
                    ..track
                },
                group: false,
                frame,
                reports: all.reports,
            },
        ),
        Err((sequence, detail)) => Err(
            ErrorView::Source(malformed_text(track.name, sequence, detail)),
        ),
    }
}

/// A read that changes nothing and leads to no other.
pub open spec fn unmoved(track: TrackView) -> Handled {
    Handled { track, group: false, frame: false, reports: Seq::empty() }
}

/// What a read of `track` leads to, or why the recording cannot represent it.
pub open spec fn handled(track: TrackView, arrival: Arrival) -> Result<Handled, ErrorView> {
    match arrival {
        Arrival::Group(sequence) => if group_refused(track, sequence) {
            Ok(Handled { group: true, ..unmoved(track) })
        } else if sequence > ID_MAX {
            Err(
                ErrorView::Source(
                    malformed_text(track.name, sequence, message(ErrorView::Id(sequence))),
                ),
            )
        } else {
            Ok(
                Handled {
                    track: TrackView {
                        largest: Some(sequence),
                        accepted: track.accepted.push(fresh_group(sequence)),
                        ..track
                    },
                    group: true,
                    frame: true,
                    reports: Seq::empty(),
                },
            )
        },
        Arrival::Ended => Ok(unmoved(TrackView { subscribed: false, ..track })),
        Arrival::Frame { sequence, timestamp, payload } => match track.position_of(sequence) {
            None => Ok(unmoved(track)),
            Some(k) => match timestamp {
                None => Err(
                    ErrorView::Source(
                        malformed_text(track.name, sequence, message(ErrorView::Overflow)),
                    ),
                ),
                Some(t) => if t > ID_MAX {
                    Err(
                        ErrorView::Source(
                            malformed_text(track.name, sequence, message(ErrorView::Id(t))),
                        ),
                    )
                } else {
                    reporting(
                        TrackView {
                            accepted: track.accepted.update(
                                k,
                                with_frame(track.accepted[k], track.floor, t, payload@),
                            ),
                            ..track
                        },
                        true,
                    )
                },
            },
        },
        Arrival::GroupEnded(sequence) => match track.position_of(sequence) {
            None => Ok(unmoved(track)),
            Some(k) => reporting(
                TrackView {
                    accepted: track.accepted.update(
                        k,
                        IncomingView { finished: true, ..track.accepted[k] },
                    ),
                    ..track
                },
                false,
            ),
        },
    }
}

/// Whether the indices of a group's frames are used up.
pub open spec fn exhausted(track: TrackView, arrival: Arrival) -> bool {
    match arrival {
        Arrival::Frame { sequence, .. } => match track.position_of(sequence) {
            Some(k) => track.accepted[k].next == u64::MAX,
            None => false,
        },
        _ => false,
    }
}

impl Track {
    /// Handle what a read brought. Fails on input the recording cannot represent.
    pub fn handle(&mut self, arrival: Arrival) -> (r: Result<Next, Error>)
        requires
            old(self)@.wf(),
            !exhausted(old(self)@, arrival),
        ensures
            match handled(old(self)@, arrival) {
                Ok(h) => {
                    &&& r is Ok
                    &&& r->Ok_0.group == h.group
                    &&& r->Ok_0.frame == h.frame
                    &&& r->Ok_0.reports@ == h.reports
                    &&& final(self)@ == h.track
                    &&& final(self)@.wf()
                },
                Err(e) => r is Err && r->Err_0@ == e,
            },
    {
        match arrival {
            Arrival::Group(sequence) => {
                let wanted: bool = self.accept_group(sequence)?;
                let next = Next { group: true, frame: wanted, reports: Vec::new() };
                assert(next.reports@ =~= Seq::<Report>::empty());
                Ok(next)
            },
            Arrival::Ended => {
                self.end();
                let next = Next { group: false, frame: false, reports: Vec::new() };
                assert(next.reports@ =~= Seq::<Report>::empty());
                Ok(next)
            },
            Arrival::Frame { sequence, timestamp, payload } => {
                let wanted: bool = self.accept_frame(sequence, timestamp, payload)?;
                if !wanted {
                    let next = Next { group: false, frame: false, reports: Vec::new() };
                    assert(next.reports@ =~= Seq::<Report>::empty());
                    return Ok(next);
                }
                let reports = self.report()?;
                Ok(Next { group: false, frame: true, reports })
            },
            Arrival::GroupEnded(sequence) => {
                let known: bool = self.holds(sequence);
                if !known {
                    let next = Next { group: false, frame: false, reports: Vec::new() };
                    assert(next.reports@ =~= Seq::<Report>::empty());
                    return Ok(next);
                }
                self.end_group(sequence);
                let reports = self.report()?;
                Ok(Next { group: false, frame: false, reports })
            },
        }
    }
}

/// Whether `i` is the track called `name`.
pub open spec fn is_track(tracks: Seq<Track>, i: int, name: Seq<char>) -> bool {
    0 <= i < tracks.len() && tracks[i]@.name == name
}

/// Whether every track is in order and no two share a name.
pub open spec fn tracks_sound(tracks: Seq<Track>) -> bool {
    &&& forall|i: int| 0 <= i < tracks.len() ==> (#[trigger] tracks[i])@.wf()
    &&& forall|i: int, j: int|
        0 <= i < j < tracks.len() ==> (#[trigger] tracks[i])@.name != (#[trigger] tracks[j])@.name
}

fn find_track(tracks: &Vec<Track>, name: &str) -> (r: usize)
    ensures
        r <= tracks@.len(),
        r < tracks@.len() ==> tracks@[r as int]@.name == name@,
        forall|j: int| 0 <= j < r ==> (#[trigger] tracks@[j])@.name != name@,
{
    let mut i: usize = 0;
    while i < tracks.len()
        invariant
            0 <= i <= tracks@.len(),
            forall|j: int| 0 <= j < i ==> (#[trigger] tracks@[j])@.name != name@,
        decreases tracks@.len() - i,
    {
        if same(tracks[i].name.as_str(), name) {
            return i;
        }
        i = i + 1;
    }
    i
}

/// Handle what a read of the track `name` brought. A track that is gone already ignores it; the
/// other tracks are left alone.
pub fn handle(tracks: &mut Vec<Track>, name: &str, arrival: Arrival) -> (r: Result<Next, Error>)
    requires
        tracks_sound(old(tracks)@),
        forall|i: int|
            #[trigger] is_track(old(tracks)@, i, name@) ==> !exhausted(old(tracks)@[i]@, arrival),
    ensures
        final(tracks)@.len() == old(tracks)@.len(),
        r is Ok ==> tracks_sound(final(tracks)@),
        forall|i: int|
            0 <= i < old(tracks)@.len() && old(tracks)@[i]@.name != name@ ==> (
            #[trigger] final(tracks)@[i])@ == old(tracks)@[i]@,
        (forall|i: int| !(#[trigger] is_track(old(tracks)@, i, name@))) ==> r is Ok
            && !r->Ok_0.group && !r->Ok_0.frame && r->Ok_0.reports@ == Seq::<Report>::empty(),
        forall|i: int| #[trigger]
            is_track(old(tracks)@, i, name@) ==> match handled(old(tracks)@[i]@, arrival) {
                Ok(h) => {
                    &&& r is Ok
                    &&& r->Ok_0.group == h.group
                    &&& r->Ok_0.frame == h.frame
                    &&& r->Ok_0.reports@ == h.reports
                    &&& final(tracks)@[i]@ == h.track
                },
                Err(e) => r is Err && r->Err_0@ == e,
            },
{
    let ghost before = tracks@;
    let i: usize = find_track(tracks, name);
    if i == tracks.len() {
        assert forall|j: int| !(#[trigger] is_track(before, j, name@)) by {}
        let next = Next { group: false, frame: false, reports: Vec::new() };
        assert(next.reports@ =~= Seq::<Report>::empty());
        return Ok(next);
    }
    assert(is_track(before, i as int, name@));
    let r = tracks[i].handle(arrival);
    proof {
        assert forall|j: int| #[trigger] is_track(before, j, name@) implies j == i by {
            if j < i {
                assert(before[j]@.name != name@);
            } else if j > i {
                assert(before[i as int]@.name != before[j]@.name);
            }
        }
        let after = tracks@;
        assert(forall|j: int| 0 <= j < after.len() && j != i ==> after[j] == before[j]);
        if r is Ok {
            lemma_name_kept(before[i as int]@, arrival);
            assert forall|j: int| 0 <= j < after.len() implies (#[trigger] after[j])@.wf() by {
                assert(before[j]@.wf());
            }
            assert forall|a: int, b: int| 0 <= a < b < after.len() implies (
            #[trigger] after[a])@.name != (#[trigger] after[b])@.name by {
                assert(before[a]@.name != before[b]@.name);
            }
        }
    }
    r
}

/// Handling a read keeps the track's name.
proof fn lemma_name_kept(track: TrackView, arrival: Arrival)
    requires
        handled(track, arrival) is Ok,
    ensures
        handled(track, arrival)->Ok_0.track.name == track.name,
{
}

/// What reporting does to the frames a track holds: nothing.
proof fn lemma_reporting(track: TrackView, frame: bool, position: Position, f: FrameView)
    requires
        reporting(track, frame) is Ok,
    ensures
        keeps(reporting(track, frame)->Ok_0.track, position, f) <==> keeps(track, position, f),
{
    law_reporting_keeps_every_frame(track.accepted, track.reported, position, f);
    let all = report_all(track.accepted, track.reported)->Ok_0;
    lemma_keeps_sum(track.frames, all.placed, position, f);
}

/// A frame that arrives is kept as it arrived: at the next index of its group, with its timestamp and
/// every byte of its payload, however long. Only one below the floor, which is stored already, is left
/// out. No other frame is added, lost or changed.
pub proof fn law_an_arriving_frame_is_kept_as_it_arrived(
    track: TrackView,
    sequence: u64,
    timestamp: u64,
    payload: Vec<u8>,
    k: int,
    position: Position,
    frame: FrameView,
)
    requires
        track.wf(),
        0 <= k < track.accepted.len(),
        track.accepted[k].sequence == sequence,
        track.accepted[k].next < u64::MAX,
        handled(
            track,
            Arrival::Frame { sequence, timestamp: Some(timestamp), payload },
        ) is Ok,
    ensures
        ({
            let after = handled(
                track,
                Arrival::Frame { sequence, timestamp: Some(timestamp), payload },
            )->Ok_0.track;
            let index = track.accepted[k].next;
            let stored = track.floor matches Some(floor) && (sequence < floor.group || (sequence
                == floor.group && index < floor.frame));
            let arrived = position.group == sequence && position.frame == index && frame.timestamp
                == timestamp && frame.payload == payload@;
            keeps(after, position, frame) <==> keeps(track, position, frame) || (arrived && !stored)
        }),
{
    let arrival = Arrival::Frame { sequence, timestamp: Some(timestamp), payload };
    let j = track.position_of(sequence)->0;
    assert(track.accepted[k].sequence == sequence);
    assert(j == k) by {
        if j < k {
            assert(track.accepted[j].sequence < track.accepted[k].sequence);
        } else if k < j {
            assert(track.accepted[k].sequence < track.accepted[j].sequence);
        }
    }
    let group = track.accepted[k];
    let new = with_frame(group, track.floor, timestamp, payload@);
    let mid = TrackView { accepted: track.accepted.update(k, new), ..track };
    lemma_reporting(mid, true, position, frame);
    let p = PendingView { index: position.frame, frame };
    let stored = track.floor matches Some(floor) && (sequence < floor.group || (sequence
        == floor.group && group.next < floor.frame));
    let arrived = position.group == sequence && position.frame == group.next && frame.timestamp
        == timestamp && frame.payload == payload@;
    if arrived {
        assert(frame == (FrameView { timestamp, payload: payload@ }));
    }
    assert(waits_in(new, position, frame) <==> waits_in(group, position, frame) || (arrived
        && !stored)) by {
        if !stored {
            let last = new.pending.last();
            assert(new.pending =~= group.pending.push(last));
            if waits_in(group, position, frame) {
                let i = choose|i: int| 0 <= i < group.pending.len() && group.pending[i] == p;
                assert(new.pending[i] == p);
            }
            if waits_in(new, position, frame) {
                let i = choose|i: int| 0 <= i < new.pending.len() && new.pending[i] == p;
                if i < group.pending.len() {
                    assert(group.pending[i] == p);
                }
            }
            if arrived {
                assert(new.pending[group.pending.len() as int] == p);
            }
        }
    }
    if waits(track.accepted, position, frame) {
        let i = choose|i: int|
            0 <= i < track.accepted.len() && #[trigger] waits_in(track.accepted[i], position, frame);
        assert(waits_in(mid.accepted[i], position, frame));
    }
    if waits(mid.accepted, position, frame) {
        let i = choose|i: int|
            0 <= i < mid.accepted.len() && #[trigger] waits_in(mid.accepted[i], position, frame);
        if i != k {
            assert(waits_in(track.accepted[i], position, frame));
        }
    }
    if arrived && !stored {
        assert(waits_in(mid.accepted[k], position, frame));
    }
}

/// A group's end, a new group and the end of a subscription leave every frame where it is.
pub proof fn law_other_arrivals_keep_every_frame(
    track: TrackView,
    arrival: Arrival,
    position: Position,
    frame: FrameView,
)
    requires
        track.wf(),
        !(arrival is Frame),
        handled(track, arrival) is Ok,
    ensures
        keeps(handled(track, arrival)->Ok_0.track, position, frame) <==> keeps(
            track,
            position,
            frame,
        ),
{
    let after = handled(track, arrival)->Ok_0.track;
    match arrival {
        Arrival::Group(sequence) => {
            if !group_refused(track, sequence) {
                let n = track.accepted.len() as int;
                if waits(track.accepted, position, frame) {
                    let i = choose|i: int|
                        0 <= i < n && #[trigger] waits_in(track.accepted[i], position, frame);
                    assert(waits_in(after.accepted[i], position, frame));
                }
                if waits(after.accepted, position, frame) {
                    let i = choose|i: int|
                        0 <= i < after.accepted.len() && #[trigger] waits_in(
                            after.accepted[i],
                            position,
                            frame,
                        );
                    if i < n {
                        assert(waits_in(track.accepted[i], position, frame));
                    }
                }
            }
        },
        Arrival::GroupEnded(sequence) => {
            if let Some(k) = track.position_of(sequence) {
                let new = IncomingView { finished: true, ..track.accepted[k] };
                let mid = TrackView { accepted: track.accepted.update(k, new), ..track };
                lemma_reporting(mid, false, position, frame);
                if waits(track.accepted, position, frame) {
                    let i = choose|i: int|
                        0 <= i < track.accepted.len() && #[trigger] waits_in(
                            track.accepted[i],
                            position,
                            frame,
                        );
                    assert(waits_in(mid.accepted[i], position, frame));
                }
                if waits(mid.accepted, position, frame) {
                    let i = choose|i: int|
                        0 <= i < mid.accepted.len() && #[trigger] waits_in(
                            mid.accepted[i],
                            position,
                            frame,
                        );
                    assert(waits_in(track.accepted[i], position, frame));
                }
            }
        },
        _ => {},
    }
}

/// A group is taken, and its frames read, exactly where it is newer than every group before and not
/// stored already; the next group is read either way. A sequence past 2^53 - 1 ends the recording.
pub proof fn law_new_groups_are_taken_and_others_skipped(track: TrackView, sequence: u64)
    requires
        track.wf(),
    ensures
        ({
            let skipped = (track.largest matches Some(l) && sequence <= l) || (
            track.floor matches Some(f) && sequence < f.group);
            match handled(track, Arrival::Group(sequence)) {
                Ok(h) => {
                    &&& h.group
                    &&& h.reports.len() == 0
                    &&& h.frame == !skipped
                    &&& skipped ==> h.track == track
                    &&& !skipped ==> {
                        let n = track.accepted.len() as int;
                        &&& sequence < 0x20_0000_0000_0000
                        &&& h.track.largest == Some(sequence)
                        &&& h.track.accepted.len() == n + 1
                        &&& h.track.accepted.take(n) == track.accepted
                        &&& h.track.accepted[n].sequence == sequence
                        &&& h.track.accepted[n].next == 0
                        &&& h.track.accepted[n].pending.len() == 0
                        &&& !h.track.accepted[n].finished
                        &&& h.track.frames == track.frames
                        &&& h.track.records == track.records
                        &&& h.track.floor == track.floor
                        &&& h.track.subscribed == track.subscribed
                    }
                },
                Err(_) => !skipped && sequence >= 0x20_0000_0000_0000,
            }
        }),
{
    if let Ok(h) = handled(track, Arrival::Group(sequence)) {
        if h.frame {
            assert(h.track.accepted.take(track.accepted.len() as int) =~= track.accepted);
        }
    }
}

/// A frame is read on after as long as its group is recorded, and counts as one of its group whether
/// it is stored already or not. One of a group that is not recorded is dropped, and its group is not
/// read on.
pub proof fn law_each_frame_counts_once(
    track: TrackView,
    sequence: u64,
    timestamp: Option<u64>,
    payload: Vec<u8>,
)
    requires
        track.wf(),
    ensures
        ({
            let arrival = Arrival::Frame { sequence, timestamp, payload };
            match track.position_of(sequence) {
                None => handled(track, arrival) == Ok::<Handled, ErrorView>(unmoved(track)),
                Some(k) => {
                    &&& timestamp is None ==> handled(track, arrival) is Err
                    &&& timestamp is Some && timestamp->0 >= 0x20_0000_0000_0000 ==> handled(
                        track,
                        arrival,
                    ) is Err
                    &&& track.accepted[k].next < u64::MAX ==> (handled(track, arrival) matches Ok(
                        h,
                    ) ==> {
                        &&& h.frame
                        &&& !h.group
                        &&& h.track.accepted.len() > 0 ==> forall|i: int|
                            0 <= i < h.track.accepted.len() && (
                            #[trigger] h.track.accepted[i]).sequence == sequence
                                ==> h.track.accepted[i].next == track.accepted[k].next + 1
                        &&& h.track.largest == track.largest
                        &&& h.track.records == track.records
                        &&& h.track.floor == track.floor
                        &&& h.track.name == track.name
                        &&& h.track.subscribed == track.subscribed
                        &&& told_frames(h.reports) == announced(
                            h.track.frames.skip(track.frames.len() as int),
                        )
                    })
                },
            }
        }),
{
    let arrival = Arrival::Frame { sequence, timestamp, payload };
    if let Some(k) = track.position_of(sequence) {
        if handled(track, arrival) is Ok && track.accepted[k].next < u64::MAX {
            let h = handled(track, arrival)->Ok_0;
            let new = with_frame(track.accepted[k], track.floor, timestamp->0, payload@);
            let mid = track.accepted.update(k, new);
            let all = report_all(mid, track.reported)->Ok_0;
            law_the_segmenter_is_told_what_is_placed(mid, track.reported);
            let n = mid.len() - all.left.len();
            assert forall|i: int|
                0 <= i < h.track.accepted.len() && (#[trigger] h.track.accepted[i]).sequence
                    == sequence implies h.track.accepted[i].next == track.accepted[k].next + 1 by {
                if i > 0 {
                    assert(all.left.skip(1)[i - 1] == mid.skip(n + 1)[i - 1]);
                    assert(all.left[i] == mid[n + i]);
                }
                let m = n + i;
                if m < k {
                    assert(track.accepted[m].sequence < track.accepted[k].sequence);
                } else if k < m {
                    assert(track.accepted[k].sequence < track.accepted[m].sequence);
                }
            }
            assert((track.frames + all.placed).skip(track.frames.len() as int) =~= all.placed);
        }
    }
}

/// The end of a group asks for no further read and tells the segmenter of what can be placed now; the
/// end of a subscription asks for none either, and is remembered. Nothing else changes.
pub proof fn law_ends_are_remembered(track: TrackView, sequence: u64)
    requires
        track.wf(),
    ensures
        handled(track, Arrival::Ended) is Ok,
        ({
            let h = handled(track, Arrival::Ended)->Ok_0;
            &&& !h.group && !h.frame && h.reports.len() == 0
            &&& !h.track.subscribed
            &&& h.track.accepted == track.accepted
            &&& h.track.frames == track.frames
            &&& h.track.records == track.records
            &&& h.track.name == track.name
            &&& h.track.floor == track.floor
            &&& h.track.largest == track.largest
            &&& h.track.reported == track.reported
            &&& h.track.closed == track.closed
            &&& h.track.committing == track.committing
        }),
        handled(track, Arrival::GroupEnded(sequence)) matches Ok(h) ==> {
            &&& !h.group && !h.frame
            &&& h.track.subscribed == track.subscribed
            &&& h.track.records == track.records
            &&& h.track.name == track.name
            &&& h.track.floor == track.floor
            &&& h.track.largest == track.largest
            &&& h.track.closed == track.closed
            &&& h.track.committing == track.committing
            &&& h.track.frames.take(track.frames.len() as int) == track.frames
            &&& told_frames(h.reports) == announced(
                h.track.frames.skip(track.frames.len() as int),
            )
            &&& forall|i: int|
                0 <= i < h.track.accepted.len() && (#[trigger] h.track.accepted[i]).sequence
                    == sequence ==> h.track.accepted[i].finished
            &&& h.track.accepted.len() > 0 && track.position_of(sequence) is Some
                ==> !h.track.accepted[0].finished
        },
{
    if handled(track, Arrival::GroupEnded(sequence)) is Ok {
        let h = handled(track, Arrival::GroupEnded(sequence))->Ok_0;
        match track.position_of(sequence) {
            None => {
                assert(h.track.frames.take(track.frames.len() as int) =~= track.frames);
                assert(announced(h.track.frames.skip(track.frames.len() as int)) =~= Seq::empty());
            },
            Some(k) => {
                let new = IncomingView { finished: true, ..track.accepted[k] };
                let mid = track.accepted.update(k, new);
                let all = report_all(mid, track.reported)->Ok_0;
                law_the_segmenter_is_told_what_is_placed(mid, track.reported);
                let n = mid.len() - all.left.len();
                assert((track.frames + all.placed).skip(track.frames.len() as int) =~= all.placed);
                assert((track.frames + all.placed).take(track.frames.len() as int) =~= track.frames);
                assert forall|i: int|
                    0 <= i < h.track.accepted.len() && (#[trigger] h.track.accepted[i]).sequence
                        == sequence implies h.track.accepted[i].finished by {
                    let m = n + i;
                    if i > 0 {
                        assert(all.left.skip(1)[i - 1] == mid.skip(n + 1)[i - 1]);
                        assert(all.left[i] == mid[m]);
                    }
                    if m < k {
                        assert(track.accepted[m].sequence < track.accepted[k].sequence);
                    } else if k < m {
                        assert(track.accepted[k].sequence < track.accepted[m].sequence);
                    }
                }
            },
        }
    }
}

/// A frame of a recorded group is taken where its timestamp is below two to the power of 53 and the
/// groups with it start in order, and a group's end wherever they do.
pub proof fn law_arrivals_in_order_are_taken(
    track: TrackView,
    sequence: u64,
    timestamp: u64,
    payload: Vec<u8>,
    k: int,
)
    requires
        track.wf(),
        0 <= k < track.accepted.len(),
        track.accepted[k].sequence == sequence,
        track.accepted[k].next < u64::MAX,
        timestamp < 0x20_0000_0000_0000,
    ensures
        starts_in_order(
            track.accepted.update(
                k,
                with_frame(track.accepted[k], track.floor, timestamp, payload@),
            ),
            track.reported,
        ) ==> handled(
            track,
            Arrival::Frame { sequence, timestamp: Some(timestamp), payload },
        ) is Ok,
        starts_in_order(track.accepted, track.reported) ==> handled(
            track,
            Arrival::GroupEnded(sequence),
        ) is Ok,
{
    let j = track.position_of(sequence)->0;
    assert(track.accepted[k].sequence == sequence);
    assert(j == k) by {
        if j < k {
            assert(track.accepted[j].sequence < track.accepted[k].sequence);
        } else if k < j {
            assert(track.accepted[k].sequence < track.accepted[j].sequence);
        }
    }
    let group = track.accepted[k];
    let new = with_frame(group, track.floor, timestamp, payload@);
    assert(incoming_sound(group, track.floor));
    assert(incoming_sound(new, track.floor)) by {
        if track.floor is Some && (Position { group: group.sequence, frame: group.next }).lt(
            track.floor->0,
        ) {
            assert(group.pending.len() == 0) by {
                if group.pending.len() > 0 {
                    assert(group.pending[0].index < group.next);
                }
            }
        }
    }
    let mid = track.accepted.update(k, new);
    assert forall|i: int| 0 <= i < mid.len() implies incoming_sound(
        #[trigger] mid[i],
        track.floor,
    ) by {
        if i != k {
            assert(incoming_sound(track.accepted[i], track.floor));
        }
    }
    if starts_in_order(mid, track.reported) {
        law_groups_that_start_in_order_are_placed(mid, track.floor, track.reported);
    }
    let ended = track.accepted.update(k, IncomingView { finished: true, ..group });
    assert forall|i: int| 0 <= i < ended.len() implies incoming_sound(
        #[trigger] ended[i],
        track.floor,
    ) by {
        assert(incoming_sound(track.accepted[i], track.floor));
    }
    if starts_in_order(track.accepted, track.reported) {
        assert(forall|i: int| 0 <= i < ended.len() ==> (#[trigger] ended[i]).pending
            == track.accepted[i].pending);
        assert(starts_in_order(ended, track.reported));
        law_groups_that_start_in_order_are_placed(ended, track.floor, track.reported);
    }
}

} // verus!
