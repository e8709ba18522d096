//! Committing a segment: the object first, its record after it.

use super::retention::{expire, expired_count, Retention};
use super::track::{Track, TrackView};
use crate::archive::error::{Error, ErrorView};
use crate::archive::id::{check_id, ID_MAX};
use crate::archive::path::{key_fault, Key, KeyView};
use crate::archive::recover::Resume;
use crate::archive::segment::{Frame, FrameView, Group, GroupView, Object};
use crate::archive::timeline::{Position, Record};
use std::collections::VecDeque;
use vstd::prelude::*;

verus! {

/// A record numbered by the window rather than by the segmenter, so a record that was dropped
/// leaves no hole.
pub fn number(record: Record, next: u64) -> (r: Record)
    ensures
        r == (Record { sequence: next, ..record }),
{
    Record {
        sequence: next,
        pts: record.pts,
        duration: record.duration,
        start: record.start,
        end: record.end,
    }
}

/// What follows an attempt to store a record's object.
#[derive(Clone, Copy, Debug, PartialEq, Eq, Structural)]
pub enum Stored {
    /// The object is durable: advertise the record.
    Advertise,
    /// The object was not stored. A timeline only advertises durable objects, so the record is
    /// dropped; its key may have landed anyway and is cleared for the next record.
    Drop,
}

/// Judge an attempt to store a record's object.
pub fn judge_stored(durable: bool) -> (r: Stored)
    ensures
        r == (if durable {
            Stored::Advertise
        } else {
            Stored::Drop
        }),
{
    if durable {
        Stored::Advertise
    } else {
        Stored::Drop
    }
}

/// Append a durable record to the window, and take out the records that expire: with no retention
/// nothing does.
pub fn advertise(
    window: &mut VecDeque<Record>,
    retention: &Option<Retention>,
    record: Record,
) -> (r: Vec<Record>)
    ensures
        ({
            let all = old(window)@.push(record);
            let n = match *retention {
                Some(retention) => expired_count(all, retention.target()),
                None => 0,
            };
            r@ == all.take(n) && final(window)@ == all.skip(n)
        }),
{
    window.push_back(record);
    match retention {
        Some(retention) => expire(retention, window),
        None => {
            let none: Vec<Record> = Vec::new();
            assert(none@ =~= window@.take(0));
            assert(window@ =~= window@.skip(0));
            none
        },
    }
}

/// Name the objects of expired records, so they can be deleted.
pub fn expired_keys(name: &str, expired: &Vec<Record>) -> (r: Result<Vec<Key>, Error>)
    ensures
        match r {
            Ok(keys) => {
                &&& keys@.len() == expired@.len()
                &&& forall|i: int|
                    0 <= i < keys@.len() ==> (#[trigger] keys@[i])@ == (KeyView::Segments {
                        track: name@,
                        segment: expired@[i].sequence,
                    }) && key_fault(keys@[i]@) is None
            },
            Err(e) => exists|i: int|
                #![trigger expired@[i]]
                0 <= i < expired@.len() && key_fault(
                    KeyView::Segments { track: name@, segment: expired@[i].sequence },
                ) == Some(e@) && forall|j: int|
                    0 <= j < i ==> key_fault(
                        KeyView::Segments {
                            track: name@,
                            segment: (#[trigger] expired@[j]).sequence,
                        },
                    ) is None,
        },
{
    let mut keys: Vec<Key> = Vec::new();
    let mut i: usize = 0;
    while i < expired.len()
        invariant
            0 <= i <= expired@.len(),
            keys@.len() == i,
            forall|j: int|
                0 <= j < i ==> (#[trigger] keys@[j])@ == (KeyView::Segments {
                    track: name@,
                    segment: expired@[j].sequence,
                }) && key_fault(keys@[j]@) is None,
        decreases expired@.len() - i,
    {
        assert forall|j: int| 0 <= j < i implies key_fault(
            KeyView::Segments { track: name@, segment: (#[trigger] expired@[j]).sequence },
        ) is None by {
            assert(key_fault(keys@[j]@) is None);
        }
        match Key::segments(name.to_owned(), expired[i].sequence) {
            Ok(key) => {
                keys.push(key);
            },
            Err(e) => {
                assert(expired@[i as int] == expired@[i as int]);
                return Err(e);
            },
        }
        i = i + 1;
    }
    Ok(keys)
}

/// A complete timeline group read back from its track.
#[derive(Debug)]
pub struct ReadGroup {
    /// The group's sequence on the live timeline track.
    pub sequence: u64,
    /// Its frames' payloads, in order.
    pub payloads: Vec<Vec<u8>>,
}

/// What a timeline group is stored as: at the record's content time, numbered after the groups of
/// the recording that was resumed.
pub open spec fn stored_group(group: ReadGroup, timestamp: u64, offset: u64) -> GroupView {
    GroupView {
        sequence: (group.sequence + offset) as u64,
        frames: Seq::new(
            group.payloads@.len(),
            |i: int| FrameView { timestamp, payload: group.payloads@[i]@ },
        ),
    }
}

/// Why a timeline group cannot be stored, if it cannot. A timestamp is `None` where it does not
/// convert to the timeline's timescale.
pub open spec fn stored_fault(group: ReadGroup, timestamp: Option<u64>, offset: u64) -> Option<
    ErrorView,
> {
    if group.payloads@.len() > 0 && timestamp is None {
        Some(ErrorView::Overflow)
    } else if group.payloads@.len() > 0 && timestamp->0 > ID_MAX {
        Some(ErrorView::Id(timestamp->0))
    } else if group.sequence + offset > u64::MAX {
        Some(ErrorView::Overflow)
    } else if group.sequence + offset > ID_MAX {
        Some(ErrorView::Id((group.sequence + offset) as u64))
    } else {
        None
    }
}

/// Store one timeline group.
fn store_group(group: ReadGroup, timestamp: Option<u64>, offset: u64) -> (r: Result<Group, Error>)
    ensures
        match r {
            Ok(stored) => stored_fault(group, timestamp, offset) is None && stored@ == stored_group(
                group,
                match timestamp {
                    Some(t) => t,
                    None => 0,
                },
                offset,
            ),
            Err(e) => stored_fault(group, timestamp, offset) == Some(e@),
        },
{
    let ghost given = group;
    let mut frames: Vec<Frame> = Vec::new();
    let ReadGroup { sequence, payloads } = group;
    let mut rest = payloads;
    let stamp: u64 = if rest.len() > 0 {
        match timestamp {
            None => {
                return Err(Error::Overflow);
            },
            Some(timestamp) => check_id(timestamp)?,
        }
    } else {
        0
    };
    let ghost n = rest@.len();
    let mut at: VecDeque<Vec<u8>> = VecDeque::new();
    while rest.len() > 0
        invariant
            given.payloads@.len() == n,
            rest@.len() + at@.len() == n,
            forall|i: int| 0 <= i < rest@.len() ==> rest@[i] == given.payloads@[i],
            forall|i: int| 0 <= i < at@.len() ==> at@[i] == given.payloads@[rest@.len() + i],
        decreases rest@.len(),
    {
        let ghost before = at@;
        if let Some(payload) = rest.pop() {
            at.push_front(payload);
            assert forall|i: int| 0 <= i < at@.len() implies at@[i] == given.payloads@[rest@.len()
                + i] by {
                if i > 0 {
                    assert(at@[i] == before[i - 1]);
                }
            }
        }
    }
    while at.len() > 0
        invariant
            given.payloads@.len() == n,
            at@.len() + frames@.len() == n,
            forall|i: int| 0 <= i < at@.len() ==> at@[i] == given.payloads@[frames@.len() + i],
            forall|i: int|
                0 <= i < frames@.len() ==> (#[trigger] frames@[i])@ == (FrameView {
                    timestamp: stamp,
                    payload: given.payloads@[i]@,
                }),
        decreases at@.len(),
    {
        let ghost before = at@;
        if let Some(payload) = at.pop_front() {
            assert(payload == before[0]);
            frames.push(Frame { timestamp: stamp, payload });
            assert forall|i: int| 0 <= i < at@.len() implies at@[i] == given.payloads@[frames@.len()
                + i] by {
                assert(at@[i] == before[i + 1]);
            }
        }
    }
    let numbered: u64 = match sequence.checked_add(offset) {
        Some(numbered) => numbered,
        None => {
            return Err(Error::Overflow);
        },
    };
    let stored = Group { sequence: check_id(numbered)?, frames };
    assert(stored@.frames =~= stored_group(
        given,
        match timestamp {
            Some(t) => t,
            None => 0,
        },
        offset,
    ).frames);
    Ok(stored)
}

/// Collect the timeline groups completed since the last record into an object stamped at the
/// record's content time.
pub fn timeline_object(groups: Vec<ReadGroup>, timestamp: Option<u64>, offset: u64) -> (r: Result<
    Object,
    Error,
>)
    ensures
        match r {
            Ok(object) => {
                &&& object@.frame_start == 0
                &&& object@.groups.len() == groups@.len()
                &&& forall|i: int|
                    0 <= i < groups@.len() ==> stored_fault(
                        #[trigger] groups@[i],
                        timestamp,
                        offset,
                    ) is None && object@.groups[i] == stored_group(
                        groups@[i],
                        match timestamp {
                            Some(t) => t,
                            None => 0,
                        },
                        offset,
                    )
            },
            Err(e) => exists|i: int|
                0 <= i < groups@.len() && stored_fault(#[trigger] groups@[i], timestamp, offset)
                    == Some(e@) && forall|j: int|
                    0 <= j < i ==> stored_fault(#[trigger] groups@[j], timestamp, offset) is None,
        },
{
    let ghost given = groups@;
    let mut rest = groups;
    let mut at: VecDeque<ReadGroup> = VecDeque::new();
    while rest.len() > 0
        invariant
            rest@.len() + at@.len() == given.len(),
            forall|i: int| 0 <= i < rest@.len() ==> rest@[i] == given[i],
            forall|i: int| 0 <= i < at@.len() ==> at@[i] == given[rest@.len() + i],
        decreases rest@.len(),
    {
        let ghost before = at@;
        if let Some(group) = rest.pop() {
            at.push_front(group);
            assert forall|i: int| 0 <= i < at@.len() implies at@[i] == given[rest@.len() + i] by {
                if i > 0 {
                    assert(at@[i] == before[i - 1]);
                }
            }
        }
    }
    let mut stored: Vec<Group> = Vec::new();
    let ghost stamp = match timestamp {
        Some(t) => t,
        None => 0,
    };
    while at.len() > 0
        invariant
            given == groups@,
            at@.len() + stored@.len() == given.len(),
            stamp == (match timestamp {
                Some(t) => t,
                None => 0,
            }),
            forall|i: int| 0 <= i < at@.len() ==> at@[i] == given[stored@.len() + i],
            forall|i: int|
                0 <= i < stored@.len() ==> stored_fault(#[trigger] given[i], timestamp, offset)
                    is None && stored@[i]@ == stored_group(given[i], stamp, offset),
        decreases at@.len(),
    {
        let ghost before = at@;
        let ghost k = stored@.len() as int;
        if let Some(group) = at.pop_front() {
            assert(group == before[0]);
            assert(group == given[k]);
            match store_group(group, timestamp, offset) {
                Ok(one) => stored.push(one),
                Err(e) => {
                    assert(stored_fault(given[k], timestamp, offset) == Some(e@));
                    return Err(e);
                },
            }
            assert forall|i: int| 0 <= i < at@.len() implies at@[i] == given[stored@.len() + i] by {
                assert(at@[i] == before[i + 1]);
            }
        }
    }
    let object = Object::new(stored);
    assert forall|i: int| 0 <= i < given.len() implies stored_fault(
        #[trigger] given[i],
        timestamp,
        offset,
    ) is None && object@.groups[i] == stored_group(given[i], stamp, offset) by {
        assert(object@.groups[i] == object.groups@[i]@);
    }
    Ok(object)
}

/// Where a track's recording continues.
#[derive(Debug)]
pub struct Begin {
    /// The track's recording state.
    pub track: Track,
    /// The committed records still in the timeline window, oldest first.
    pub window: VecDeque<Record>,
    /// The number the segmenter gives its next record.
    pub next: u64,
    /// Added to the timeline track's group sequences.
    pub offset: u64,
}

/// Begin to record `name`: from nothing, or after the newest record of a resumed timeline.
pub fn begin(name: String, resume: Option<Resume>) -> (r: Begin)
    ensures
        r.track@.wf(),
        r.track@ == (TrackView {
            name: name@,
            floor: match resume {
                Some(resume) => if resume.records@.len() == 0 {
                    None::<Position>
                } else {
                    Some(resume.records@.last().end)
                },
                None => None::<Position>,
            },
            largest: None,
            reported: None,
            accepted: Seq::empty(),
            frames: Seq::empty(),
            records: Seq::empty(),
            subscribed: true,
            closed: false,
            committing: false,
        }),
        match resume {
            Some(resume) => {
                &&& r.window@ == resume.records@
                &&& r.next == resume.end
                &&& r.offset == resume.sequence
            },
            None => r.window@.len() == 0 && r.next == 0 && r.offset == 0,
        },
{
    match resume {
        None => Begin {
            track: Track::new(name, None),
            window: VecDeque::new(),
            next: 0,
            offset: 0,
        },
        Some(resume) => {
            let floor = resume.floor();
            let mut window: VecDeque<Record> = VecDeque::new();
            let mut i: usize = 0;
            while i < resume.records.len()
                invariant
                    0 <= i <= resume.records@.len(),
                    window@ == resume.records@.take(i as int),
                decreases resume.records@.len() - i,
            {
                window.push_back(resume.records[i]);
                assert(window@ =~= resume.records@.take(i + 1));
                i = i + 1;
            }
            assert(window@ =~= resume.records@);
            Begin {
                track: Track::new(name, floor),
                window,
                next: resume.end,
                offset: resume.sequence,
            }
        },
    }
}

/// A timeline group is stored with its payloads as they were read, in order, each at the record's
/// content time, and numbered behind the groups of the recording that was resumed.
pub proof fn law_a_timeline_group_is_stored_as_it_was_read(
    group: ReadGroup,
    timestamp: u64,
    offset: u64,
    i: int,
)
    requires
        group.sequence + offset <= u64::MAX,
        0 <= i < group.payloads@.len(),
    ensures
        ({
            let stored = stored_group(group, timestamp, offset);
            &&& stored.sequence == group.sequence + offset
            &&& stored.frames.len() == group.payloads@.len()
            &&& stored.frames[i].payload == group.payloads@[i]@
            &&& stored.frames[i].timestamp == timestamp
        }),
{
}

/// A timeline group is stored exactly where its number, and the content time of its frames if it has
/// any, are at most 2^53 - 1.
pub proof fn law_a_timeline_group_is_stored_where_it_is_in_range(
    group: ReadGroup,
    timestamp: Option<u64>,
    offset: u64,
)
    ensures
        stored_fault(group, timestamp, offset) is None <==> group.sequence + offset
            < 0x20_0000_0000_0000 && (group.payloads@.len() > 0 ==> timestamp is Some
            && timestamp->0 < 0x20_0000_0000_0000),
{
}

} // verus!
