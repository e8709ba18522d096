//! The envelope that holds a run of groups in one object.

use super::error::Error;
use super::id::{check_id, ID_MAX};
use super::timeline::Position;
use super::varint::{
    after_varint, leading_varint, lemma_leading_varint_bound, lemma_varint_roundtrip, read_varint,
    starts_with_varint, varint, write_varint, VARINT_LIMIT,
};
use vstd::prelude::*;
use vstd::slice::{slice_subrange, slice_to_vec};

verus! {

/// The version every segment object starts with.
pub const SEGMENT_VERSION: u64 = 2;

/// One frame's timestamp and original payload.
#[derive(Clone, Debug, PartialEq, Eq)]
pub struct Frame {
    /// Absolute timestamp in the track's timescale.
    pub timestamp: u64,
    /// Original frame payload, with any compression it had.
    pub payload: Vec<u8>,
}

/// One group's stored frames, in sequence order.
#[derive(Clone, Debug, PartialEq, Eq)]
pub struct Group {
    /// Group sequence number.
    pub sequence: u64,
    /// Frames in their original order within the group.
    pub frames: Vec<Frame>,
}

/// A versioned group and frame table, followed by the frames' payloads.
#[derive(Clone, Debug, PartialEq, Eq)]
pub struct Object {
    /// The index of the first group's first stored frame within that group; later groups start at
    /// frame zero.
    pub frame_start: u64,
    /// Groups in strictly ascending sequence order.
    pub groups: Vec<Group>,
}

/// What a [`Frame`] holds.
#[verifier::ext_equal]
pub struct FrameView {
    pub timestamp: u64,
    pub payload: Seq<u8>,
}

/// What a [`Group`] holds.
#[verifier::ext_equal]
pub struct GroupView {
    pub sequence: u64,
    pub frames: Seq<FrameView>,
}

/// What an [`Object`] holds.
#[verifier::ext_equal]
pub struct ObjectView {
    pub frame_start: u64,
    pub groups: Seq<GroupView>,
}

impl View for Frame {
    type V = FrameView;

    open spec fn view(&self) -> FrameView {
        FrameView { timestamp: self.timestamp, payload: self.payload@ }
    }
}

impl View for Group {
    type V = GroupView;

    open spec fn view(&self) -> GroupView {
        GroupView {
            sequence: self.sequence,
            frames: Seq::new(self.frames@.len(), |i: int| self.frames@[i]@),
        }
    }
}

impl View for Object {
    type V = ObjectView;

    open spec fn view(&self) -> ObjectView {
        ObjectView {
            frame_start: self.frame_start,
            groups: Seq::new(self.groups@.len(), |i: int| self.groups@[i]@),
        }
    }
}

/// The first timestamp outside the id range, if any.
pub open spec fn frames_fault(frames: Seq<FrameView>) -> Option<Error>
    decreases frames.len(),
{
    if frames.len() == 0 {
        None
    } else if frames_fault(frames.drop_last()) is Some {
        frames_fault(frames.drop_last())
    } else if frames.last().timestamp > ID_MAX {
        Some(Error::Id(frames.last().timestamp))
    } else {
        None
    }
}

/// What is wrong with `group` when it follows `before`, which is sound.
pub open spec fn group_fault(before: Seq<GroupView>, group: GroupView) -> Option<Error> {
    if group.sequence > ID_MAX {
        Some(Error::Id(group.sequence))
    } else if before.len() > 0 && group.sequence <= before.last().sequence {
        Some(Error::Sequence)
    } else {
        frames_fault(group.frames)
    }
}

/// What is wrong with the first unsound group, if any: an id or a timestamp out of range, or a
/// sequence that does not ascend.
pub open spec fn groups_fault(groups: Seq<GroupView>) -> Option<Error>
    decreases groups.len(),
{
    if groups.len() == 0 {
        None
    } else if groups_fault(groups.drop_last()) is Some {
        groups_fault(groups.drop_last())
    } else {
        group_fault(groups.drop_last(), groups.last())
    }
}

/// What is wrong with an object's groups, if anything.
pub open spec fn object_fault(groups: Seq<GroupView>) -> Option<Error> {
    if groups.len() == 0 {
        Some(Error::Empty)
    } else {
        groups_fault(groups)
    }
}

/// Whether an object's groups can be stored: there is one, ids and timestamps are in range, and
/// sequences strictly ascend.
pub open spec fn sound(groups: Seq<GroupView>) -> bool {
    &&& groups.len() > 0
    &&& forall|i: int| 0 <= i < groups.len() ==> (#[trigger] groups[i]).sequence <= ID_MAX
    &&& forall|i: int, j: int|
        0 <= i < j < groups.len() ==> (#[trigger] groups[i]).sequence < (
        #[trigger] groups[j]).sequence
    &&& forall|i: int, k: int|
        0 <= i < groups.len() && 0 <= k < groups[i].frames.len()
            ==> (#[trigger] groups[i].frames[k]).timestamp <= ID_MAX
}

proof fn lemma_frames_fault_none(frames: Seq<FrameView>)
    ensures
        frames_fault(frames) is None <==> forall|k: int|
            0 <= k < frames.len() ==> (#[trigger] frames[k]).timestamp <= ID_MAX,
    decreases frames.len(),
{
    if frames.len() > 0 {
        let init = frames.drop_last();
        lemma_frames_fault_none(init);
        if frames_fault(frames) is None {
            assert forall|k: int| 0 <= k < frames.len() implies (#[trigger] frames[k]).timestamp
                <= ID_MAX by {
                if k < init.len() {
                    assert(init[k] == frames[k]);
                }
            }
        } else if frames_fault(init) is Some {
            let k = choose|k: int| 0 <= k < init.len() && (#[trigger] init[k]).timestamp > ID_MAX;
            assert(frames[k] == init[k]);
        } else {
            assert(frames[frames.len() - 1].timestamp > ID_MAX);
        }
    }
}

proof fn lemma_groups_fault_none(groups: Seq<GroupView>)
    requires
        groups.len() > 0,
    ensures
        groups_fault(groups) is None <==> sound(groups),
    decreases groups.len(),
{
    let init = groups.drop_last();
    let last = groups.last();
    let n = groups.len() - 1;
    lemma_frames_fault_none(last.frames);
    if init.len() > 0 {
        lemma_groups_fault_none(init);
    }
    assert(forall|i: int| 0 <= i < init.len() ==> init[i] == groups[i]);
    if groups_fault(groups) is None {
        assert(init.len() > 0 ==> sound(init));
        assert(group_fault(init, last) is None);
        assert forall|i: int, j: int| 0 <= i < j < groups.len() implies (
        #[trigger] groups[i]).sequence < (#[trigger] groups[j]).sequence by {
            if j < n {
                assert(init[i].sequence < init[j].sequence);
            } else {
                assert(init[n - 1].sequence < last.sequence);
                if i < n - 1 {
                    assert(init[i].sequence < init[n - 1].sequence);
                }
            }
        }
        assert forall|i: int| 0 <= i < groups.len() implies (#[trigger] groups[i]).sequence
            <= ID_MAX by {
            if i < n {
                assert(init[i].sequence <= ID_MAX);
            }
        }
        assert forall|i: int, k: int|
            0 <= i < groups.len() && 0 <= k < groups[i].frames.len() implies (
        #[trigger] groups[i].frames[k]).timestamp <= ID_MAX by {
            if i < n {
                assert(init[i].frames[k].timestamp <= ID_MAX);
            }
        }
    }
    if sound(groups) {
        if init.len() > 0 {
            assert forall|i: int, k: int|
                0 <= i < init.len() && 0 <= k < init[i].frames.len() implies (
            #[trigger] init[i].frames[k]).timestamp <= ID_MAX by {
                assert(groups[i].frames[k].timestamp <= ID_MAX);
            }
            assert(sound(init));
            assert(groups[n - 1].sequence < groups[n].sequence);
        }
        assert(groups[n].sequence <= ID_MAX);
        assert forall|k: int| 0 <= k < last.frames.len() implies (
        #[trigger] last.frames[k]).timestamp <= ID_MAX by {
            assert(groups[n].frames[k].timestamp <= ID_MAX);
        }
        assert(groups_fault(init) is None);
        assert(group_fault(init, last) is None);
    }
}

/// An object has no fault exactly when it can be stored.
pub proof fn lemma_fault_iff_unsound(groups: Seq<GroupView>)
    ensures
        object_fault(groups) is None <==> sound(groups),
{
    if groups.len() > 0 {
        lemma_groups_fault_none(groups);
    }
}

/// Errors of a group stay errors of everything that starts with it.
proof fn lemma_groups_fault_prefix(groups: Seq<GroupView>, i: int)
    requires
        0 <= i <= groups.len(),
        groups_fault(groups.take(i)) is Some,
    ensures
        groups_fault(groups) == groups_fault(groups.take(i)),
    decreases groups.len() - i,
{
    if i < groups.len() {
        assert(groups.take(i + 1).drop_last() =~= groups.take(i));
        lemma_groups_fault_prefix(groups, i + 1);
    } else {
        assert(groups.take(i) =~= groups);
    }
}

proof fn lemma_frames_fault_prefix(frames: Seq<FrameView>, i: int)
    requires
        0 <= i <= frames.len(),
        frames_fault(frames.take(i)) is Some,
    ensures
        frames_fault(frames) == frames_fault(frames.take(i)),
    decreases frames.len() - i,
{
    if i < frames.len() {
        assert(frames.take(i + 1).drop_last() =~= frames.take(i));
        lemma_frames_fault_prefix(frames, i + 1);
    } else {
        assert(frames.take(i) =~= frames);
    }
}

/// Refuse an empty object, ids and timestamps out of range, and sequences that do not ascend.
pub fn validate(groups: &Vec<Group>) -> (r: Result<(), Error>)
    ensures
        match r {
            Ok(_) => object_fault(Seq::new(groups@.len(), |i: int| groups@[i]@)) is None,
            Err(e) => object_fault(Seq::new(groups@.len(), |i: int| groups@[i]@)) == Some(e),
        },
{
    if groups.len() == 0 {
        return Err(Error::Empty);
    }
    let ghost all = Seq::new(groups@.len(), |i: int| groups@[i]@);
    let mut prev: Option<u64> = None;
    let mut i: usize = 0;
    assert(all.take(0) =~= Seq::<GroupView>::empty());
    while i < groups.len()
        invariant
            0 <= i <= groups@.len(),
            groups@.len() > 0,
            all == Seq::new(groups@.len(), |i: int| groups@[i]@),
            groups_fault(all.take(i as int)) is None,
            i == 0 ==> prev is None,
            i > 0 ==> prev == Some(all[i - 1].sequence),
        decreases groups@.len() - i,
    {
        let group = &groups[i];
        let ghost before = all.take(i as int);
        let ghost here = all.take(i + 1);
        proof {
            assert(here.drop_last() =~= before);
            assert(here.last() == group@);
            if group_fault(before, group@) is Some {
                assert(groups_fault(here) is Some);
                lemma_groups_fault_prefix(all, i + 1);
            }
        }
        check_id(group.sequence)?;
        if let Some(previous) = prev {
            if group.sequence <= previous {
                return Err(Error::Sequence);
            }
        }
        prev = Some(group.sequence);
        let mut k: usize = 0;
        let ghost frames = group@.frames;
        assert(frames.take(0) =~= Seq::<FrameView>::empty());
        while k < group.frames.len()
            invariant
                0 <= k <= group.frames@.len(),
                frames == group@.frames,
                frames_fault(frames.take(k as int)) is None,
                groups@.len() > 0,
                all == Seq::new(groups@.len(), |i: int| groups@[i]@),
                frames_fault(frames) is Some ==> groups_fault(all) == frames_fault(frames),
            decreases group.frames@.len() - k,
        {
            let frame = &group.frames[k];
            proof {
                assert(frames.take(k + 1).drop_last() =~= frames.take(k as int));
                assert(frames.take(k + 1).last() == frame@);
                if frame.timestamp > ID_MAX {
                    lemma_frames_fault_prefix(frames, k + 1);
                }
            }
            check_id(frame.timestamp)?;
            k = k + 1;
        }
        assert(frames.take(k as int) =~= frames);
        i = i + 1;
    }
    assert(all.take(i as int) =~= all);
    Ok(())
}

/// The payloads of `frames`, one after another.
pub open spec fn frames_payload(frames: Seq<FrameView>) -> Seq<u8>
    decreases frames.len(),
{
    if frames.len() == 0 {
        Seq::empty()
    } else {
        frames_payload(frames.drop_last()) + frames.last().payload
    }
}

/// The payloads of all frames of `groups`, one after another.
pub open spec fn groups_payload(groups: Seq<GroupView>) -> Seq<u8>
    decreases groups.len(),
{
    if groups.len() == 0 {
        Seq::empty()
    } else {
        groups_payload(groups.drop_last()) + frames_payload(groups.last().frames)
    }
}

/// The table entries of `frames`, the first of whose payloads starts at `base`: for each frame
/// its timestamp, where its payload starts, and how long it is.
pub open spec fn frames_table(frames: Seq<FrameView>, base: nat) -> Seq<u8>
    decreases frames.len(),
{
    if frames.len() == 0 {
        Seq::empty()
    } else {
        frames_table(frames.drop_last(), base) + varint(frames.last().timestamp) + varint(
            (base + frames_payload(frames.drop_last()).len()) as u64,
        ) + varint(frames.last().payload.len() as u64)
    }
}

/// How `group` is numbered when it follows `before`: the first group by its sequence, a later one
/// by the number of sequences it skips.
pub open spec fn group_delta(before: Seq<GroupView>, group: GroupView) -> u64 {
    if before.len() == 0 {
        group.sequence
    } else {
        (group.sequence - before.last().sequence - 1) as u64
    }
}

/// The table entry of `group` when it follows `before`.
pub open spec fn group_table(before: Seq<GroupView>, group: GroupView) -> Seq<u8> {
    varint(group_delta(before, group)) + varint(group.frames.len() as u64) + frames_table(
        group.frames,
        groups_payload(before).len(),
    )
}

/// The table entries of `groups`.
pub open spec fn groups_table(groups: Seq<GroupView>) -> Seq<u8>
    decreases groups.len(),
{
    if groups.len() == 0 {
        Seq::empty()
    } else {
        groups_table(groups.drop_last()) + group_table(groups.drop_last(), groups.last())
    }
}

/// What comes before the table entries.
pub open spec fn header(o: ObjectView) -> Seq<u8> {
    varint(SEGMENT_VERSION) + varint(o.frame_start) + varint(o.groups.len() as u64)
}

/// The bytes of an object: a header, one table entry per group, and all payloads.
pub open spec fn encoded(o: ObjectView) -> Seq<u8> {
    header(o) + groups_table(o.groups) + groups_payload(o.groups)
}

/// Whether every offset and length in the entries of `frames` can be written.
pub open spec fn frames_fit(frames: Seq<FrameView>, base: nat) -> bool
    decreases frames.len(),
{
    frames.len() > 0 ==> {
        &&& frames_fit(frames.drop_last(), base)
        &&& base + frames_payload(frames.drop_last()).len() < VARINT_LIMIT
        &&& frames.last().payload.len() < VARINT_LIMIT
    }
}

/// Whether every count, offset and length in the entries of `groups` can be written.
pub open spec fn groups_fit(groups: Seq<GroupView>) -> bool
    decreases groups.len(),
{
    groups.len() > 0 ==> {
        &&& groups_fit(groups.drop_last())
        &&& groups.last().frames.len() < VARINT_LIMIT
        &&& frames_fit(groups.last().frames, groups_payload(groups.drop_last()).len())
    }
}

/// Whether every number in an object's table is below 2^62.
pub open spec fn fits(o: ObjectView) -> bool {
    &&& o.frame_start < VARINT_LIMIT
    &&& o.groups.len() < VARINT_LIMIT
    &&& groups_fit(o.groups)
}

proof fn lemma_frames_fit_prefix(frames: Seq<FrameView>, base: nat, i: int)
    requires
        0 <= i <= frames.len(),
        frames_fit(frames, base),
    ensures
        frames_fit(frames.take(i), base),
    decreases frames.len() - i,
{
    if i < frames.len() {
        lemma_frames_fit_prefix(frames, base, i + 1);
        assert(frames.take(i + 1).drop_last() =~= frames.take(i));
    } else {
        assert(frames.take(i) =~= frames);
    }
}

proof fn lemma_groups_fit_prefix(groups: Seq<GroupView>, i: int)
    requires
        0 <= i <= groups.len(),
        groups_fit(groups),
    ensures
        groups_fit(groups.take(i)),
    decreases groups.len() - i,
{
    if i < groups.len() {
        lemma_groups_fit_prefix(groups, i + 1);
        assert(groups.take(i + 1).drop_last() =~= groups.take(i));
    } else {
        assert(groups.take(i) =~= groups);
    }
}

/// The table entry of one group, and its payloads, appended to what the groups before it gave.
fn encode_group(group: &Group, delta: u64, table: &mut Vec<u8>, payload: &mut Vec<u8>) -> (r: Result<
    (),
    Error,
>)
    requires
        frames_fault(group@.frames) is None,
        delta < VARINT_LIMIT,
    ensures
        match r {
            Ok(_) => {
                &&& group@.frames.len() < VARINT_LIMIT
                &&& frames_fit(group@.frames, old(payload)@.len())
                &&& final(table)@ == old(table)@ + (varint(delta) + varint(
                    group@.frames.len() as u64,
                ) + frames_table(group@.frames, old(payload)@.len()))
                &&& final(payload)@ == old(payload)@ + frames_payload(group@.frames)
            },
            Err(e) => {
                &&& e == Error::Overflow
                &&& !(group@.frames.len() < VARINT_LIMIT && frames_fit(
                    group@.frames,
                    old(payload)@.len(),
                ))
            },
        },
{
    let ghost frames = group@.frames;
    let ghost base = payload@.len();
    proof {
        lemma_frames_fault_none(frames);
    }
    write_varint(table, delta)?;
    write_varint(table, group.frames.len() as u64)?;
    let ghost head = varint(delta) + varint(frames.len() as u64);
    let ghost start = old(table)@;
    assert(table@ =~= start + head);
    let mut k: usize = 0;
    assert(frames.take(0) =~= Seq::<FrameView>::empty());
    assert(table@ =~= start + head + frames_table(frames.take(0), base));
    assert(payload@ =~= old(payload)@ + frames_payload(frames.take(0)));
    while k < group.frames.len()
        invariant
            0 <= k <= group.frames@.len(),
            frames == group@.frames,
            frames.len() < VARINT_LIMIT,
            base == old(payload)@.len(),
            start == old(table)@,
            forall|j: int| 0 <= j < frames.len() ==> (#[trigger] frames[j]).timestamp <= ID_MAX,
            table@ == start + head + frames_table(frames.take(k as int), base),
            payload@ == old(payload)@ + frames_payload(frames.take(k as int)),
            frames_fit(frames.take(k as int), base),
        decreases group.frames@.len() - k,
    {
        let frame = &group.frames[k];
        let ghost before = frames.take(k as int);
        let ghost here = frames.take(k + 1);
        let ghost table0 = table@;
        proof {
            assert(here.drop_last() =~= before);
            assert(here.last() == frame@);
            assert(frames[k as int].timestamp <= ID_MAX);
            if frames_fit(frames, base) {
                lemma_frames_fit_prefix(frames, base, k + 1);
            }
        }
        let offset: u64 = payload.len() as u64;
        let length: u64 = frame.payload.len() as u64;
        write_varint(table, frame.timestamp)?;
        write_varint(table, offset)?;
        write_varint(table, length)?;
        payload.extend_from_slice(&frame.payload);
        assert(payload@ =~= old(payload)@ + frames_payload(here));
        assert(table@ =~= start + head + frames_table(here, base));
        k = k + 1;
    }
    assert(frames.take(k as int) =~= frames);
    assert(table@ =~= start + (head + frames_table(frames, base)));
    Ok(())
}

impl Object {
    /// An object whose first group starts at frame zero.
    pub fn new(groups: Vec<Group>) -> (r: Self)
        ensures
            r.frame_start == 0,
            r.groups == groups,
    {
        Object { frame_start: 0, groups }
    }

    /// Encode the binary envelope. The first sequence is absolute; a later one is written as the
    /// number of sequences it skips.
    pub fn encode(&self) -> (r: Result<Vec<u8>, Error>)
        ensures
            match r {
                Ok(bytes) => object_fault(self@.groups) is None && fits(self@) && bytes@ == encoded(
                    self@,
                ),
                Err(e) => if object_fault(self@.groups) is Some {
                    object_fault(self@.groups) == Some(e)
                } else {
                    !fits(self@) && e == Error::Overflow
                },
            },
    {
        validate(&self.groups)?;
        let ghost all = self@.groups;
        proof {
            lemma_groups_fault_none(all);
        }
        let mut table: Vec<u8> = Vec::new();
        write_varint(&mut table, SEGMENT_VERSION)?;
        write_varint(&mut table, self.frame_start)?;
        write_varint(&mut table, self.groups.len() as u64)?;
        let mut payload: Vec<u8> = Vec::new();
        let mut prev: Option<u64> = None;
        let mut i: usize = 0;
        assert(all.take(0) =~= Seq::<GroupView>::empty());
        assert(table@ =~= header(self@) + groups_table(all.take(0)));
        while i < self.groups.len()
            invariant
                0 <= i <= self.groups@.len(),
                all == self@.groups,
                object_fault(all) is None,
                sound(all),
                self.frame_start < VARINT_LIMIT,
                all.len() < VARINT_LIMIT,
                i == 0 ==> prev is None,
                i > 0 ==> prev == Some(all[i - 1].sequence),
                table@ == header(self@) + groups_table(all.take(i as int)),
                payload@ == groups_payload(all.take(i as int)),
                groups_fit(all.take(i as int)),
            decreases self.groups@.len() - i,
        {
            let group = &self.groups[i];
            let ghost before = all.take(i as int);
            let ghost here = all.take(i + 1);
            let ghost table0 = table@;
            proof {
                assert(here.drop_last() =~= before);
                assert(here.last() == group@);
                assert(all[i as int] == group@);
                if i > 0 {
                    assert(before.last() == all[i - 1]);
                    assert(all[i - 1].sequence < all[i as int].sequence);
                }
                assert(forall|k: int|
                    0 <= k < group@.frames.len() ==> (#[trigger] group@.frames[k])
                        == all[i as int].frames[k]);
                lemma_frames_fault_none(group@.frames);
                if groups_fit(all) {
                    lemma_groups_fit_prefix(all, i + 1);
                }
            }
            let delta: u64 = match prev {
                None => group.sequence,
                Some(previous) => group.sequence - previous - 1,
            };
            prev = Some(group.sequence);
            encode_group(group, delta, &mut table, &mut payload)?;
            assert(table@ =~= header(self@) + groups_table(here));
            i = i + 1;
        }
        assert(all.take(i as int) =~= all);
        table.extend_from_slice(&payload);
        assert(table@ =~= encoded(self@));
        Ok(table)
    }
}

/// A frame's table entry.
#[derive(Clone, Copy, Debug)]
pub struct Entry {
    /// Absolute timestamp in the track's timescale.
    pub timestamp: u64,
    /// Where the payload starts.
    pub offset: u64,
    /// How long the payload is.
    pub length: u64,
}

/// A group's table entry.
#[derive(Debug)]
pub struct GroupEntry {
    /// Group sequence number.
    pub sequence: u64,
    /// The group's frames, in order.
    pub frames: Vec<Entry>,
}

/// What a [`GroupEntry`] holds.
#[verifier::ext_equal]
pub struct GroupEntryView {
    pub sequence: u64,
    pub frames: Seq<Entry>,
}

impl View for GroupEntry {
    type V = GroupEntryView;

    open spec fn view(&self) -> GroupEntryView {
        GroupEntryView { sequence: self.sequence, frames: self.frames@ }
    }
}

/// The integer at the front of `s`, and what follows it.
pub open spec fn parse_varint(s: Seq<u8>) -> Result<(u64, Seq<u8>), Error> {
    if starts_with_varint(s) {
        Ok((leading_varint(s) as u64, after_varint(s)))
    } else {
        Err(Error::Table)
    }
}

/// The count at the front of `s`, and what follows it: no more than can follow at `min` bytes
/// each.
pub open spec fn parse_count(s: Seq<u8>, min: nat) -> Result<(nat, Seq<u8>), Error> {
    match parse_varint(s) {
        Err(e) => Err(e),
        Ok((n, rest)) => if n > usize::MAX {
            Err(Error::Overflow)
        } else if n > rest.len() / min {
            Err(Error::Table)
        } else {
            Ok((n as nat, rest))
        },
    }
}

/// The frame entry at the front of `s`, and what follows it.
pub open spec fn parse_frame(s: Seq<u8>) -> Result<(Entry, Seq<u8>), Error> {
    match parse_varint(s) {
        Err(e) => Err(e),
        Ok((timestamp, after_timestamp)) => if timestamp > ID_MAX {
            Err(Error::Id(timestamp))
        } else {
            match parse_varint(after_timestamp) {
                Err(e) => Err(e),
                Ok((offset, after_offset)) => match parse_varint(after_offset) {
                    Err(e) => Err(e),
                    Ok((length, rest)) => Ok((Entry { timestamp, offset, length }, rest)),
                },
            }
        },
    }
}

/// The first `n` frame entries of `s`, and what follows them.
pub open spec fn parse_frames(s: Seq<u8>, n: nat) -> Result<(Seq<Entry>, Seq<u8>), Error>
    decreases n,
{
    if n == 0 {
        Ok((Seq::empty(), s))
    } else {
        match parse_frames(s, (n - 1) as nat) {
            Err(e) => Err(e),
            Ok((frames, rest)) => match parse_frame(rest) {
                Err(e) => Err(e),
                Ok((frame, rest)) => Ok((frames.push(frame), rest)),
            },
        }
    }
}

/// The sequence that `delta` names after the groups `before`.
pub open spec fn sequence_after(before: Seq<GroupEntryView>, delta: u64) -> int {
    if before.len() == 0 {
        delta as int
    } else {
        before.last().sequence + 1 + delta
    }
}

/// The group entry at the front of `s` when it follows `before`, and what follows it.
pub open spec fn parse_group(before: Seq<GroupEntryView>, s: Seq<u8>) -> Result<
    (GroupEntryView, Seq<u8>),
    Error,
> {
    match parse_varint(s) {
        Err(e) => Err(e),
        Ok((delta, after_delta)) => if sequence_after(before, delta) > ID_MAX {
            Err(Error::Id(sequence_after(before, delta) as u64))
        } else {
            match parse_count(after_delta, 3) {
                Err(e) => Err(e),
                Ok((n, after_count)) => match parse_frames(after_count, n) {
                    Err(e) => Err(e),
                    Ok((frames, rest)) => Ok(
                        (
                            GroupEntryView {
                                sequence: sequence_after(before, delta) as u64,
                                frames,
                            },
                            rest,
                        ),
                    ),
                },
            }
        },
    }
}

/// The first `n` group entries of `s`, and what follows them.
pub open spec fn parse_groups(s: Seq<u8>, n: nat) -> Result<(Seq<GroupEntryView>, Seq<u8>), Error>
    decreases n,
{
    if n == 0 {
        Ok((Seq::empty(), s))
    } else {
        match parse_groups(s, (n - 1) as nat) {
            Err(e) => Err(e),
            Ok((groups, rest)) => match parse_group(groups, rest) {
                Err(e) => Err(e),
                Ok((group, rest)) => Ok((groups.push(group), rest)),
            },
        }
    }
}

/// The frames that `entries` cut out of `payload` when the first starts at `at` and each starts
/// where the one before it ends, and where the last ends. `None` where an entry does not.
pub open spec fn place_frames(entries: Seq<Entry>, at: nat, payload: Seq<u8>) -> Option<
    (Seq<FrameView>, nat),
>
    decreases entries.len(),
{
    if entries.len() == 0 {
        Some((Seq::empty(), at))
    } else {
        match place_frames(entries.drop_last(), at, payload) {
            None => None,
            Some((frames, end)) => {
                let entry = entries.last();
                if entry.offset != end || end + entry.length > payload.len() {
                    None
                } else {
                    Some(
                        (
                            frames.push(
                                FrameView {
                                    timestamp: entry.timestamp,
                                    payload: payload.subrange(
                                        end as int,
                                        (end + entry.length) as int,
                                    ),
                                },
                            ),
                            (end + entry.length) as nat,
                        ),
                    )
                }
            },
        }
    }
}

/// The groups that `entries` cut out of `payload` from its start, and where the last frame ends.
pub open spec fn place_groups(entries: Seq<GroupEntryView>, payload: Seq<u8>) -> Option<
    (Seq<GroupView>, nat),
>
    decreases entries.len(),
{
    if entries.len() == 0 {
        Some((Seq::empty(), 0))
    } else {
        match place_groups(entries.drop_last(), payload) {
            None => None,
            Some((groups, end)) => match place_frames(entries.last().frames, end, payload) {
                None => None,
                Some((frames, end)) => Some(
                    (groups.push(GroupView { sequence: entries.last().sequence, frames }), end),
                ),
            },
        }
    }
}

/// The object whose table entries are `entries`: their frames tile `payload` exactly.
pub open spec fn assembled(frame_start: u64, entries: Seq<GroupEntryView>, payload: Seq<u8>) -> Result<
    ObjectView,
    Error,
> {
    match place_groups(entries, payload) {
        Some((groups, end)) => if end == payload.len() {
            Ok(ObjectView { frame_start, groups })
        } else {
            Err(Error::Table)
        },
        None => Err(Error::Table),
    }
}

/// The object that `s` holds, or what is wrong with it.
pub open spec fn decoded(s: Seq<u8>) -> Result<ObjectView, Error> {
    match parse_varint(s) {
        Err(e) => Err(e),
        Ok((version, after_version)) => if version != SEGMENT_VERSION {
            Err(Error::Version(version))
        } else {
            match parse_varint(after_version) {
                Err(e) => Err(e),
                Ok((frame_start, after_start)) => match parse_count(after_start, 2) {
                    Err(e) => Err(e),
                    Ok((n, after_count)) => if n == 0 {
                        Err(Error::Empty)
                    } else {
                        match parse_groups(after_count, n) {
                            Err(e) => Err(e),
                            Ok((entries, payload)) => assembled(frame_start, entries, payload),
                        }
                    },
                },
            }
        },
    }
}

proof fn lemma_parse_frames_err(s: Seq<u8>, i: nat, n: nat)
    requires
        i <= n,
        parse_frames(s, i) is Err,
    ensures
        parse_frames(s, n) == parse_frames(s, i),
    decreases n - i,
{
    if i < n {
        lemma_parse_frames_err(s, i + 1, n);
    }
}

proof fn lemma_parse_groups_err(s: Seq<u8>, i: nat, n: nat)
    requires
        i <= n,
        parse_groups(s, i) is Err,
    ensures
        parse_groups(s, n) == parse_groups(s, i),
    decreases n - i,
{
    if i < n {
        lemma_parse_groups_err(s, i + 1, n);
    }
}

proof fn lemma_place_frames_none(entries: Seq<Entry>, at: nat, payload: Seq<u8>, i: int)
    requires
        0 <= i <= entries.len(),
        place_frames(entries.take(i), at, payload) is None,
    ensures
        place_frames(entries, at, payload) is None,
    decreases entries.len() - i,
{
    if i < entries.len() {
        assert(entries.take(i + 1).drop_last() =~= entries.take(i));
        lemma_place_frames_none(entries, at, payload, i + 1);
    } else {
        assert(entries.take(i) =~= entries);
    }
}

proof fn lemma_place_groups_none(entries: Seq<GroupEntryView>, payload: Seq<u8>, i: int)
    requires
        0 <= i <= entries.len(),
        place_groups(entries.take(i), payload) is None,
    ensures
        place_groups(entries, payload) is None,
    decreases entries.len() - i,
{
    if i < entries.len() {
        assert(entries.take(i + 1).drop_last() =~= entries.take(i));
        lemma_place_groups_none(entries, payload, i + 1);
    } else {
        assert(entries.take(i) =~= entries);
    }
}

/// Take a count off the front of `buf`, refusing one that could not fit at `min_entry` bytes each.
pub fn read_count(buf: &mut &[u8], min_entry: usize) -> (r: Result<usize, Error>)
    requires
        min_entry > 0,
    ensures
        match r {
            Ok(n) => parse_count(old(buf)@, min_entry as nat) == Ok::<(nat, Seq<u8>), Error>(
                (n as nat, final(buf)@),
            ),
            Err(e) => parse_count(old(buf)@, min_entry as nat) == Err::<(nat, Seq<u8>), Error>(e),
        },
{
    proof {
        if starts_with_varint(buf@) {
            lemma_leading_varint_bound(buf@);
        }
    }
    let n: u64 = read_varint(buf)?;
    if n > usize::MAX as u64 {
        return Err(Error::Overflow);
    }
    let n: usize = n as usize;
    if n > buf.len() / min_entry {
        return Err(Error::Table);
    }
    Ok(n)
}

/// Take one frame entry off the front of `buf`.
fn read_frame(buf: &mut &[u8]) -> (r: Result<Entry, Error>)
    ensures
        match r {
            Ok(entry) => parse_frame(old(buf)@) == Ok::<(Entry, Seq<u8>), Error>(
                (entry, final(buf)@),
            ),
            Err(e) => parse_frame(old(buf)@) == Err::<(Entry, Seq<u8>), Error>(e),
        },
{
    proof {
        let s = buf@;
        if starts_with_varint(s) {
            lemma_leading_varint_bound(s);
            let s = after_varint(s);
            if starts_with_varint(s) {
                lemma_leading_varint_bound(s);
                let s = after_varint(s);
                if starts_with_varint(s) {
                    lemma_leading_varint_bound(s);
                }
            }
        }
    }
    let timestamp: u64 = check_id(read_varint(buf)?)?;
    let offset: u64 = read_varint(buf)?;
    let length: u64 = read_varint(buf)?;
    Ok(Entry { timestamp, offset, length })
}

/// Take one group entry off the front of `buf`; `prev` is the sequence before it.
fn read_group(buf: &mut &[u8], prev: Option<u64>, Ghost(before): Ghost<Seq<GroupEntryView>>) -> (r:
    Result<GroupEntry, Error>)
    requires
        prev == (if before.len() == 0 {
            None::<u64>
        } else {
            Some(before.last().sequence)
        }),
        prev matches Some(p) ==> p <= ID_MAX,
    ensures
        match r {
            Ok(entry) => parse_group(before, old(buf)@) == Ok::<(GroupEntryView, Seq<u8>), Error>(
                (entry@, final(buf)@),
            ),
            Err(e) => parse_group(before, old(buf)@) == Err::<(GroupEntryView, Seq<u8>), Error>(e),
        },
{
    proof {
        if starts_with_varint(buf@) {
            lemma_leading_varint_bound(buf@);
        }
    }
    let delta: u64 = read_varint(buf)?;
    let sequence: u64 = match prev {
        None => check_id(delta)?,
        Some(previous) => check_id(previous + 1 + delta)?,
    };
    let frame_count: usize = read_count(buf, 3)?;
    let ghost start = buf@;
    let mut frames: Vec<Entry> = Vec::new();
    let mut k: usize = 0;
    while k < frame_count
        invariant
            0 <= k <= frame_count,
            parse_frames(start, k as nat) == Ok::<(Seq<Entry>, Seq<u8>), Error>((frames@, buf@)),
            parse_group(before, old(buf)@) == (match parse_frames(start, frame_count as nat) {
                Err(e) => Err::<(GroupEntryView, Seq<u8>), Error>(e),
                Ok((frames, rest)) => Ok((GroupEntryView { sequence, frames }, rest)),
            }),
        decreases frame_count - k,
    {
        proof {
            if parse_frames(start, (k + 1) as nat) is Err {
                lemma_parse_frames_err(start, (k + 1) as nat, frame_count as nat);
            }
        }
        let frame = read_frame(buf)?;
        frames.push(frame);
        k = k + 1;
    }
    Ok(GroupEntry { sequence, frames })
}

/// Cut the frames of one group out of `payload`, the first starting at `expected`.
fn cut_frames(entries: &Vec<Entry>, expected: usize, payload: &[u8]) -> (r: Result<
    (Vec<Frame>, usize),
    Error,
>)
    requires
        expected <= payload@.len(),
    ensures
        match r {
            Ok((frames, end)) => place_frames(entries@, expected as nat, payload@) == Some(
                (Seq::new(frames@.len(), |i: int| frames@[i]@), end as nat),
            ) && end <= payload@.len(),
            Err(e) => place_frames(entries@, expected as nat, payload@) is None && e
                == Error::Table,
        },
{
    let mut frames: Vec<Frame> = Vec::new();
    let mut end: usize = expected;
    let mut k: usize = 0;
    assert(entries@.take(0) =~= Seq::<Entry>::empty());
    assert(Seq::new(frames@.len(), |i: int| frames@[i]@) =~= Seq::<FrameView>::empty());
    while k < entries.len()
        invariant
            0 <= k <= entries@.len(),
            end <= payload@.len(),
            place_frames(entries@.take(k as int), expected as nat, payload@) == Some(
                (Seq::new(frames@.len(), |i: int| frames@[i]@), end as nat),
            ),
        decreases entries@.len() - k,
    {
        let entry = &entries[k];
        proof {
            assert(entries@.take(k + 1).drop_last() =~= entries@.take(k as int));
            if place_frames(entries@.take(k + 1), expected as nat, payload@) is None {
                lemma_place_frames_none(entries@, expected as nat, payload@, k + 1);
            }
        }
        if entry.offset != end as u64 || entry.length > (payload.len() - end) as u64 {
            return Err(Error::Table);
        }
        let stop: usize = end + entry.length as usize;
        let ghost done = Seq::new(frames@.len(), |i: int| frames@[i]@);
        let frame = Frame {
            timestamp: entry.timestamp,
            payload: slice_to_vec(slice_subrange(payload, end, stop)),
        };
        let ghost shown = frame@;
        frames.push(frame);
        assert(Seq::new(frames@.len(), |i: int| frames@[i]@) =~= done.push(shown));
        end = stop;
        k = k + 1;
    }
    assert(entries@.take(k as int) =~= entries@);
    Ok((frames, end))
}

impl Object {
    /// Decode a complete table before cutting any payload, and refuse an unknown version.
    pub fn decode(bytes: &[u8]) -> (r: Result<Self, Error>)
        ensures
            match r {
                Ok(o) => decoded(bytes@) == Ok::<ObjectView, Error>(o@),
                Err(e) => decoded(bytes@) == Err::<ObjectView, Error>(e),
            },
    {
        let mut buf: &[u8] = bytes;
        proof {
            if starts_with_varint(buf@) {
                lemma_leading_varint_bound(buf@);
                if starts_with_varint(after_varint(buf@)) {
                    lemma_leading_varint_bound(after_varint(buf@));
                }
            }
        }
        let version: u64 = read_varint(&mut buf)?;
        if version != SEGMENT_VERSION {
            return Err(Error::Version(version));
        }
        let frame_start: u64 = read_varint(&mut buf)?;
        let group_count: usize = read_count(&mut buf, 2)?;
        if group_count == 0 {
            return Err(Error::Empty);
        }
        let ghost start = buf@;
        let mut entries: Vec<GroupEntry> = Vec::new();
        let mut prev: Option<u64> = None;
        let mut i: usize = 0;
        let ghost mut shown: Seq<GroupEntryView> = Seq::empty();
        while i < group_count
            invariant
                0 <= i <= group_count,
                shown == Seq::new(entries@.len(), |i: int| entries@[i]@),
                shown.len() == i,
                prev == (if shown.len() == 0 {
                    None::<u64>
                } else {
                    Some(shown.last().sequence)
                }),
                prev matches Some(p) ==> p <= ID_MAX,
                parse_groups(start, i as nat) == Ok::<(Seq<GroupEntryView>, Seq<u8>), Error>(
                    (shown, buf@),
                ),
                decoded(bytes@) == (match parse_groups(start, group_count as nat) {
                    Err(e) => Err::<ObjectView, Error>(e),
                    Ok((entries, payload)) => assembled(frame_start, entries, payload),
                }),
            decreases group_count - i,
        {
            proof {
                if parse_groups(start, (i + 1) as nat) is Err {
                    lemma_parse_groups_err(start, (i + 1) as nat, group_count as nat);
                }
            }
            let entry = read_group(&mut buf, prev, Ghost(shown))?;
            prev = Some(entry.sequence);
            proof {
                shown = shown.push(entry@);
            }
            entries.push(entry);
            assert(shown =~= Seq::new(entries@.len(), |i: int| entries@[i]@));
            i = i + 1;
        }
        let payload: &[u8] = buf;
        let mut expected: usize = 0;
        let mut groups: Vec<Group> = Vec::new();
        let mut j: usize = 0;
        assert(shown.take(0) =~= Seq::<GroupEntryView>::empty());
        assert(Seq::new(groups@.len(), |i: int| groups@[i]@) =~= Seq::<GroupView>::empty());
        while j < entries.len()
            invariant
                0 <= j <= entries@.len(),
                shown == Seq::new(entries@.len(), |i: int| entries@[i]@),
                expected <= payload@.len(),
                place_groups(shown.take(j as int), payload@) == Some(
                    (Seq::new(groups@.len(), |i: int| groups@[i]@), expected as nat),
                ),
                decoded(bytes@) == assembled(frame_start, shown, payload@),
            decreases entries@.len() - j,
        {
            let entry = &entries[j];
            proof {
                assert(shown.take(j + 1).drop_last() =~= shown.take(j as int));
                if place_groups(shown.take(j + 1), payload@) is None {
                    lemma_place_groups_none(shown, payload@, j + 1);
                }
            }
            let (frames, end) = cut_frames(&entry.frames, expected, payload)?;
            let ghost done = Seq::new(groups@.len(), |i: int| groups@[i]@);
            let group = Group { sequence: entry.sequence, frames };
            let ghost view = group@;
            groups.push(group);
            assert(Seq::new(groups@.len(), |i: int| groups@[i]@) =~= done.push(view));
            expected = end;
            j = j + 1;
        }
        assert(shown.take(j as int) =~= shown);
        if expected != payload.len() {
            return Err(Error::Table);
        }
        Ok(Object { frame_start, groups })
    }
}

/// The entries that `frames` get when the first payload starts at `base`.
spec fn entries_of(frames: Seq<FrameView>, base: nat) -> Seq<Entry>
    decreases frames.len(),
{
    if frames.len() == 0 {
        Seq::empty()
    } else {
        entries_of(frames.drop_last(), base).push(
            Entry {
                timestamp: frames.last().timestamp,
                offset: (base + frames_payload(frames.drop_last()).len()) as u64,
                length: frames.last().payload.len() as u64,
            },
        )
    }
}

/// The entries that `groups` get.
spec fn group_entries_of(groups: Seq<GroupView>) -> Seq<GroupEntryView>
    decreases groups.len(),
{
    if groups.len() == 0 {
        Seq::empty()
    } else {
        group_entries_of(groups.drop_last()).push(
            GroupEntryView {
                sequence: groups.last().sequence,
                frames: entries_of(groups.last().frames, groups_payload(groups.drop_last()).len()),
            },
        )
    }
}

proof fn lemma_frames_table_len(frames: Seq<FrameView>, base: nat)
    ensures
        frames_table(frames, base).len() >= 3 * frames.len(),
    decreases frames.len(),
{
    if frames.len() > 0 {
        lemma_frames_table_len(frames.drop_last(), base);
    }
}

proof fn lemma_groups_table_len(groups: Seq<GroupView>)
    ensures
        groups_table(groups).len() >= 2 * groups.len(),
    decreases groups.len(),
{
    if groups.len() > 0 {
        lemma_groups_table_len(groups.drop_last());
    }
}

/// A value that was written is read back, with what follows it.
proof fn lemma_parse_written(v: u64, rest: Seq<u8>)
    requires
        v < VARINT_LIMIT,
    ensures
        parse_varint(varint(v) + rest) == Ok::<(u64, Seq<u8>), Error>((v, rest)),
{
    lemma_varint_roundtrip(v, rest);
}

proof fn lemma_parse_entry(entry: Entry, tail: Seq<u8>)
    requires
        entry.timestamp <= ID_MAX,
        entry.offset < VARINT_LIMIT,
        entry.length < VARINT_LIMIT,
    ensures
        parse_frame(
            varint(entry.timestamp) + (varint(entry.offset) + (varint(entry.length) + tail)),
        ) == Ok::<(Entry, Seq<u8>), Error>((entry, tail)),
{
    lemma_parse_written(entry.timestamp, varint(entry.offset) + (varint(entry.length) + tail));
    lemma_parse_written(entry.offset, varint(entry.length) + tail);
    lemma_parse_written(entry.length, tail);
}

proof fn lemma_regroup(a: Seq<u8>, b: Seq<u8>, c: Seq<u8>, d: Seq<u8>, tail: Seq<u8>)
    ensures
        a + b + c + d + tail == a + (b + (c + (d + tail))),
        a + (b + c + d) + tail == a + (b + (c + (d + tail))),
{
    assert(a + b + c + d + tail =~= a + (b + (c + (d + tail))));
    assert(a + (b + c + d) + tail =~= a + (b + (c + (d + tail))));
}

proof fn lemma_parse_frames_table(frames: Seq<FrameView>, base: nat, tail: Seq<u8>)
    requires
        frames_fault(frames) is None,
        frames_fit(frames, base),
    ensures
        parse_frames(frames_table(frames, base) + tail, frames.len()) == Ok::<
            (Seq<Entry>, Seq<u8>),
            Error,
        >((entries_of(frames, base), tail)),
    decreases frames.len(),
{
    if frames.len() == 0 {
        assert(frames_table(frames, base) + tail =~= tail);
    } else {
        let init = frames.drop_last();
        let last = frames.last();
        let entry = Entry {
            timestamp: last.timestamp,
            offset: (base + frames_payload(init).len()) as u64,
            length: last.payload.len() as u64,
        };
        let t = varint(entry.timestamp);
        let o = varint(entry.offset);
        let l = varint(entry.length);
        lemma_parse_frames_table(init, base, t + (o + (l + tail)));
        lemma_regroup(frames_table(init, base), t, o, l, tail);
        lemma_parse_entry(entry, tail);
    }
}

proof fn lemma_group_entries_last(groups: Seq<GroupView>)
    ensures
        group_entries_of(groups).len() == groups.len(),
        groups.len() > 0 ==> group_entries_of(groups).last().sequence == groups.last().sequence,
    decreases groups.len(),
{
    if groups.len() > 0 {
        lemma_group_entries_last(groups.drop_last());
    }
}

/// The entry of a group is read back from what was written of it.
proof fn lemma_parse_group_entry(
    before: Seq<GroupEntryView>,
    delta: u64,
    frames: Seq<FrameView>,
    base: nat,
    tail: Seq<u8>,
)
    requires
        delta < VARINT_LIMIT,
        sequence_after(before, delta) <= ID_MAX,
        frames_fault(frames) is None,
        frames_fit(frames, base),
        frames.len() < VARINT_LIMIT,
        frames.len() <= usize::MAX,
    ensures
        parse_group(
            before,
            varint(delta) + (varint(frames.len() as u64) + (frames_table(frames, base) + tail)),
        ) == Ok::<(GroupEntryView, Seq<u8>), Error>(
            (
                GroupEntryView {
                    sequence: sequence_after(before, delta) as u64,
                    frames: entries_of(frames, base),
                },
                tail,
            ),
        ),
{
    let after_count = frames_table(frames, base) + tail;
    let after_delta = varint(frames.len() as u64) + after_count;
    lemma_parse_written(delta, after_delta);
    lemma_parse_written(frames.len() as u64, after_count);
    lemma_frames_table_len(frames, base);
    assert(frames.len() <= after_count.len() / 3);
    lemma_parse_frames_table(frames, base, tail);
}

proof fn lemma_parse_groups_table(groups: Seq<GroupView>, tail: Seq<u8>)
    requires
        groups_fault(groups) is None,
        groups_fit(groups),
        forall|i: int| 0 <= i < groups.len() ==> (#[trigger] groups[i]).frames.len() <= usize::MAX,
    ensures
        parse_groups(groups_table(groups) + tail, groups.len()) == Ok::<
            (Seq<GroupEntryView>, Seq<u8>),
            Error,
        >((group_entries_of(groups), tail)),
    decreases groups.len(),
{
    if groups.len() == 0 {
        assert(groups_table(groups) + tail =~= tail);
    } else {
        let init = groups.drop_last();
        let last = groups.last();
        let base = groups_payload(init).len();
        let delta = group_delta(init, last);
        let table = frames_table(last.frames, base);
        let count = varint(last.frames.len() as u64);
        assert(groups[groups.len() - 1] == last);
        assert forall|i: int| 0 <= i < init.len() implies (#[trigger] init[i]).frames.len()
            <= usize::MAX by {
            assert(init[i] == groups[i]);
        }
        lemma_parse_groups_table(init, varint(delta) + (count + (table + tail)));
        lemma_regroup(groups_table(init), varint(delta), count, table, tail);
        lemma_group_entries_last(init);
        assert(sequence_after(group_entries_of(init), delta) == last.sequence);
        lemma_parse_group_entry(group_entries_of(init), delta, last.frames, base, tail);
    }
}

proof fn lemma_place_entries(frames: Seq<FrameView>, base: nat, payload: Seq<u8>)
    requires
        frames_fit(frames, base),
        base + frames_payload(frames).len() <= payload.len(),
        payload.subrange(base as int, (base + frames_payload(frames).len()) as int)
            == frames_payload(frames),
    ensures
        place_frames(entries_of(frames, base), base, payload) == Some(
            (frames, (base + frames_payload(frames).len()) as nat),
        ),
    decreases frames.len(),
{
    if frames.len() == 0 {
        assert(frames =~= Seq::empty());
    } else {
        let init = frames.drop_last();
        let last = frames.last();
        let all = frames_payload(frames);
        let front = frames_payload(init);
        let end = (base + front.len()) as int;
        let whole = payload.subrange(base as int, (base + all.len()) as int);
        assert(payload.subrange(base as int, end) =~= front) by {
            assert(whole.take(front.len() as int) =~= front);
            assert(payload.subrange(base as int, end) =~= whole.take(front.len() as int));
        }
        lemma_place_entries(init, base, payload);
        assert(payload.subrange(end, end + last.payload.len()) =~= last.payload) by {
            assert(whole.skip(front.len() as int) =~= last.payload);
            assert(payload.subrange(end, end + last.payload.len()) =~= whole.skip(
                front.len() as int,
            ));
        }
        let entries = entries_of(frames, base);
        assert(entries.drop_last() =~= entries_of(init, base));
        assert(init.push(last) =~= frames);
    }
}

proof fn lemma_place_group_entries(groups: Seq<GroupView>, payload: Seq<u8>)
    requires
        groups_fit(groups),
        groups_payload(groups).len() <= payload.len(),
        payload.take(groups_payload(groups).len() as int) == groups_payload(groups),
    ensures
        place_groups(group_entries_of(groups), payload) == Some(
            (groups, groups_payload(groups).len()),
        ),
    decreases groups.len(),
{
    if groups.len() == 0 {
        assert(groups =~= Seq::empty());
    } else {
        let init = groups.drop_last();
        let last = groups.last();
        let front = groups_payload(init);
        let own = frames_payload(last.frames);
        let all = groups_payload(groups);
        assert(all == front + own);
        assert(payload.take(front.len() as int) =~= front) by {
            assert(all.take(front.len() as int) =~= front);
            assert(payload.take(all.len() as int).take(front.len() as int) =~= payload.take(
                front.len() as int,
            ));
        }
        lemma_place_group_entries(init, payload);
        assert(payload.subrange(front.len() as int, all.len() as int) =~= own) by {
            assert(all.skip(front.len() as int) =~= own);
            assert(payload.subrange(front.len() as int, all.len() as int) =~= payload.take(
                all.len() as int,
            ).skip(front.len() as int));
        }
        lemma_place_entries(last.frames, front.len(), payload);
        let entries = group_entries_of(groups);
        assert(entries.drop_last() =~= group_entries_of(init));
        assert(init.push(last) =~= groups);
    }
}

/// An object's bytes, with each part of the header in front of everything after it.
proof fn lemma_header_parts(v: ObjectView)
    ensures
        encoded(v) == varint(SEGMENT_VERSION) + (varint(v.frame_start) + (varint(
            v.groups.len() as u64,
        ) + (groups_table(v.groups) + groups_payload(v.groups)))),
{
    let one = varint(SEGMENT_VERSION);
    let two = varint(v.frame_start);
    let three = varint(v.groups.len() as u64);
    let four = groups_table(v.groups);
    let five = groups_payload(v.groups);
    assert(one + two + three + four + five =~= one + (two + (three + (four + five))));
}

/// The groups of an object are read back from the table and payloads that were written of them.
proof fn lemma_groups_read_back(frame_start: u64, groups: Seq<GroupView>)
    requires
        groups_fault(groups) is None,
        groups_fit(groups),
        forall|i: int| 0 <= i < groups.len() ==> (#[trigger] groups[i]).frames.len() <= usize::MAX,
    ensures
        parse_groups(groups_table(groups) + groups_payload(groups), groups.len()) == Ok::<
            (Seq<GroupEntryView>, Seq<u8>),
            Error,
        >((group_entries_of(groups), groups_payload(groups))),
        assembled(frame_start, group_entries_of(groups), groups_payload(groups)) == Ok::<
            ObjectView,
            Error,
        >(ObjectView { frame_start, groups }),
{
    let payload = groups_payload(groups);
    lemma_parse_groups_table(groups, payload);
    assert(payload.take(payload.len() as int) =~= payload);
    lemma_place_group_entries(groups, payload);
}

/// Decoding an encoded object gives the object back.
pub proof fn law_decode_undoes_encode(o: Object)
    requires
        object_fault(o@.groups) is None,
        fits(o@),
    ensures
        decoded(encoded(o@)) == Ok::<ObjectView, Error>(o@),
{
    let v = o@;
    let n = v.groups.len();
    assert(n == o.groups.len());
    assert forall|i: int| 0 <= i < n implies (#[trigger] v.groups[i]).frames.len()
        <= usize::MAX by {
        assert(v.groups[i].frames.len() == o.groups@[i].frames.len());
    }
    let after_count = groups_table(v.groups) + groups_payload(v.groups);
    let after_start = varint(n as u64) + after_count;
    let after_version = varint(v.frame_start) + after_start;
    lemma_header_parts(v);
    lemma_parse_written(SEGMENT_VERSION, after_version);
    lemma_parse_written(v.frame_start, after_start);
    lemma_parse_written(n as u64, after_count);
    lemma_groups_table_len(v.groups);
    assert(n <= after_count.len() / 2);
    assert(parse_count(after_start, 2) == Ok::<(nat, Seq<u8>), Error>((n, after_count)));
    lemma_groups_read_back(v.frame_start, v.groups);
}

proof fn lemma_parsed_frames(s: Seq<u8>, n: nat)
    requires
        parse_frames(s, n) is Ok,
    ensures
        parse_frames(s, n)->Ok_0.0.len() == n,
        forall|k: int|
            #![trigger parse_frames(s, n)->Ok_0.0[k]]
            0 <= k < n ==> {
                let entry = parse_frames(s, n)->Ok_0.0[k];
                entry.timestamp <= ID_MAX && entry.offset < VARINT_LIMIT && entry.length
                    < VARINT_LIMIT
            },
    decreases n,
{
    if n > 0 {
        lemma_parsed_frames(s, (n - 1) as nat);
        let s = parse_frames(s, (n - 1) as nat)->Ok_0.1;
        lemma_leading_varint_bound(s);
        lemma_leading_varint_bound(after_varint(s));
        lemma_leading_varint_bound(after_varint(after_varint(s)));
    }
}

/// What is known of every group entry that parsed.
spec fn entry_sound(entry: GroupEntryView) -> bool {
    &&& entry.sequence <= ID_MAX
    &&& entry.frames.len() < VARINT_LIMIT
    &&& forall|k: int|
        0 <= k < entry.frames.len() ==> (#[trigger] entry.frames[k]).timestamp <= ID_MAX
            && entry.frames[k].offset < VARINT_LIMIT && entry.frames[k].length < VARINT_LIMIT
}

proof fn lemma_parsed_groups(s: Seq<u8>, n: nat)
    requires
        parse_groups(s, n) is Ok,
    ensures
        parse_groups(s, n)->Ok_0.0.len() == n,
        forall|i: int|
            0 <= i < n ==> entry_sound(#[trigger] parse_groups(s, n)->Ok_0.0[i]),
        forall|i: int, j: int|
            0 <= i < j < n ==> (#[trigger] parse_groups(s, n)->Ok_0.0[i]).sequence < (
            #[trigger] parse_groups(s, n)->Ok_0.0[j]).sequence,
    decreases n,
{
    if n > 0 {
        lemma_parsed_groups(s, (n - 1) as nat);
        let (before, s1) = parse_groups(s, (n - 1) as nat)->Ok_0;
        let groups = parse_groups(s, n)->Ok_0.0;
        lemma_leading_varint_bound(s1);
        let s2 = after_varint(s1);
        lemma_leading_varint_bound(s2);
        lemma_parsed_frames(after_varint(s2), leading_varint(s2) as nat);
        assert(groups =~= before.push(groups.last()));
        assert(entry_sound(groups.last()));
        if before.len() > 0 {
            assert(before[before.len() - 1] == before.last());
        }
        assert forall|i: int, j: int| 0 <= i < j < n implies (#[trigger] groups[i]).sequence < (
        #[trigger] groups[j]).sequence by {
            if j == n - 1 {
                assert(before[i].sequence <= before.last().sequence);
            } else {
                assert(before[i].sequence < before[j].sequence);
            }
        }
    }
}

proof fn lemma_placed_frames(entries: Seq<Entry>, at: nat, payload: Seq<u8>)
    requires
        place_frames(entries, at, payload) is Some,
        forall|k: int|
            0 <= k < entries.len() ==> (#[trigger] entries[k]).timestamp <= ID_MAX
                && entries[k].offset < VARINT_LIMIT && entries[k].length < VARINT_LIMIT,
    ensures
        ({
            let (frames, end) = place_frames(entries, at, payload)->0;
            &&& frames.len() == entries.len()
            &&& frames_fault(frames) is None
            &&& frames_fit(frames, at)
            &&& end == at + frames_payload(frames).len()
        }),
    decreases entries.len(),
{
    if entries.len() > 0 {
        let init = entries.drop_last();
        assert(forall|k: int| 0 <= k < init.len() ==> init[k] == entries[k]);
        lemma_placed_frames(init, at, payload);
        let (front, end) = place_frames(init, at, payload)->0;
        let (frames, _) = place_frames(entries, at, payload)->0;
        assert(frames.drop_last() =~= front);
        assert(entries[entries.len() - 1] == entries.last());
    }
}

proof fn lemma_placed_groups(entries: Seq<GroupEntryView>, payload: Seq<u8>)
    requires
        place_groups(entries, payload) is Some,
        forall|i: int| 0 <= i < entries.len() ==> entry_sound(#[trigger] entries[i]),
        forall|i: int, j: int|
            0 <= i < j < entries.len() ==> (#[trigger] entries[i]).sequence < (
            #[trigger] entries[j]).sequence,
    ensures
        ({
            let (groups, end) = place_groups(entries, payload)->0;
            &&& groups.len() == entries.len()
            &&& groups_fault(groups) is None
            &&& groups_fit(groups)
            &&& end == groups_payload(groups).len()
            &&& groups.len() > 0 ==> groups.last().sequence == entries.last().sequence
        }),
    decreases entries.len(),
{
    if entries.len() > 0 {
        let init = entries.drop_last();
        assert(forall|k: int| 0 <= k < init.len() ==> init[k] == entries[k]);
        lemma_placed_groups(init, payload);
        let (front, end) = place_groups(init, payload)->0;
        let (groups, _) = place_groups(entries, payload)->0;
        let n = entries.len() - 1;
        assert(entry_sound(entries[n]));
        lemma_placed_frames(entries[n].frames, end, payload);
        assert(groups.drop_last() =~= front);
        if n > 0 {
            assert(entries[n - 1].sequence < entries[n].sequence);
        }
    }
}

/// Whatever decodes is an object that can be stored: its ids and timestamps are in range, its
/// sequences ascend, and encoding it again succeeds.
pub proof fn law_decoded_is_sound(s: Seq<u8>)
    requires
        decoded(s) is Ok,
    ensures
        sound(decoded(s)->Ok_0.groups),
        object_fault(decoded(s)->Ok_0.groups) is None,
        fits(decoded(s)->Ok_0),
{
    lemma_leading_varint_bound(s);
    let s1 = after_varint(s);
    lemma_leading_varint_bound(s1);
    let s2 = after_varint(s1);
    lemma_leading_varint_bound(s2);
    let n = leading_varint(s2) as nat;
    let start = after_varint(s2);
    lemma_parsed_groups(start, n);
    let (entries, payload) = parse_groups(start, n)->Ok_0;
    lemma_placed_groups(entries, payload);
    lemma_fault_iff_unsound(decoded(s)->Ok_0.groups);
}

/// Where the first stored frame stands.
pub open spec fn first_position(o: ObjectView) -> Position {
    Position { group: o.groups[0].sequence, frame: o.frame_start }
}

/// Whether `groups` are numbered without a gap from `first`, none of them empty.
pub open spec fn gapless(groups: Seq<GroupView>, first: u64) -> bool {
    forall|i: int|
        0 <= i < groups.len() ==> (#[trigger] groups[i]).sequence == first + i
            && groups[i].frames.len() > 0
}

/// The index, within the last group, of the frame after the last stored one.
pub open spec fn stop_frame(o: ObjectView) -> int {
    (if o.groups.len() == 1 {
        o.frame_start as int
    } else {
        0
    }) + o.groups.last().frames.len()
}

/// Whether `end` is where the stored frames stop: inside the last group, or at the group after it.
pub open spec fn ends_at(o: ObjectView, end: Position) -> bool {
    if end.frame == 0 {
        end.group == o.groups.last().sequence + 1
    } else {
        end.group == o.groups.last().sequence && end.frame == stop_frame(o)
    }
}

/// Whether an object holds exactly the frames from `start` up to `end`, or what is wrong with it.
pub open spec fn span_check(o: ObjectView, start: Position, end: Position) -> Result<(), Error> {
    match object_fault(o.groups) {
        Some(e) => Err(e),
        None => if first_position(o) != start || !gapless(o.groups, start.group) {
            Err(Error::Span)
        } else if stop_frame(o) > u64::MAX {
            Err(Error::Overflow)
        } else if !ends_at(o, end) {
            Err(Error::Span)
        } else {
            Ok(())
        },
    }
}

impl Object {
    /// The position of the first stored frame.
    pub fn start(&self) -> (r: Result<Position, Error>)
        ensures
            match r {
                Ok(p) => object_fault(self@.groups) is None && p == first_position(self@),
                Err(e) => object_fault(self@.groups) == Some(e),
            },
    {
        validate(&self.groups)?;
        assert(self@.groups[0] == self.groups@[0]@);
        Ok(Position::new(self.groups[0].sequence, self.frame_start))
    }

    /// Require this object to hold exactly the frames `start..end` of a record, with no group
    /// missing or empty.
    pub fn check_span(&self, start: Position, end: Position) -> (r: Result<(), Error>)
        ensures
            r == span_check(self@, start, end),
    {
        let first = self.start()?;
        if first != start {
            return Err(Error::Span);
        }
        let ghost all = self@.groups;
        proof {
            lemma_groups_fault_none(all);
        }
        let mut i: usize = 0;
        while i < self.groups.len()
            invariant
                0 <= i <= self.groups@.len(),
                all == self@.groups,
                sound(all),
                object_fault(all) is None,
                first_position(self@) == start,
                forall|j: int|
                    0 <= j < i ==> (#[trigger] all[j]).sequence == start.group + j
                        && all[j].frames.len() > 0,
            decreases self.groups@.len() - i,
        {
            let group = &self.groups[i];
            assert(all[i as int] == group@);
            assert(all[i as int].sequence <= ID_MAX);
            let expected: bool = group.sequence >= start.group && group.sequence - start.group
                == i as u64;
            if !expected || group.frames.len() == 0 {
                assert(!gapless(all, start.group));
                return Err(Error::Span);
            }
            i = i + 1;
        }
        assert(gapless(all, start.group));
        let last = &self.groups[self.groups.len() - 1];
        assert(all.last() == last@);
        assert(all[all.len() - 1].sequence <= ID_MAX);
        let first_frame: u64 = if self.groups.len() == 1 {
            self.frame_start
        } else {
            0
        };
        let stop: u64 = match first_frame.checked_add(last.frames.len() as u64) {
            Some(stop) => stop,
            None => {
                return Err(Error::Overflow);
            },
        };
        let exact: bool = if end.frame == 0 {
            end.group == last.sequence + 1
        } else {
            end.group == last.sequence && end.frame == stop
        };
        if !exact {
            return Err(Error::Span);
        }
        Ok(())
    }
}

/// An object is written as the version, where its first group starts, how many groups it has, their
/// entries and all payloads.
pub proof fn law_an_object_is_written_part_by_part(o: ObjectView)
    ensures
        encoded(o) == varint(2) + varint(o.frame_start) + varint(o.groups.len() as u64)
            + groups_table(o.groups) + groups_payload(o.groups),
{
}

/// A group's entry is how many groups are missing between it and the one before, or its own number
/// where it is the first, then how many frames it has, and their entries. Its frames' payloads follow
/// those of the groups before.
pub proof fn law_a_group_entry_follows_the_ones_before(groups: Seq<GroupView>, group: GroupView)
    requires
        groups.len() > 0 ==> groups.last().sequence < group.sequence,
    ensures
        groups_table(groups.push(group)) == groups_table(groups) + (varint(
            if groups.len() == 0 {
                group.sequence
            } else {
                (group.sequence - groups[groups.len() - 1].sequence - 1) as u64
            },
        ) + varint(group.frames.len() as u64) + frames_table(
            group.frames,
            groups_payload(groups).len(),
        )),
        groups_payload(groups.push(group)) == groups_payload(groups) + frames_payload(group.frames),
        groups_table(Seq::<GroupView>::empty()) == Seq::<u8>::empty(),
        groups_payload(Seq::<GroupView>::empty()) == Seq::<u8>::empty(),
{
    assert(groups.push(group).drop_last() =~= groups);
}

/// A frame's entry is its timestamp, where its payload starts, which is where those before it end, and
/// how long it is. Its payload follows theirs, byte for byte.
pub proof fn law_a_frame_entry_follows_the_ones_before(
    frames: Seq<FrameView>,
    frame: FrameView,
    base: nat,
)
    ensures
        frames_table(frames.push(frame), base) == frames_table(frames, base) + varint(
            frame.timestamp,
        ) + varint((base + frames_payload(frames).len()) as u64) + varint(
            frame.payload.len() as u64,
        ),
        frames_payload(frames.push(frame)) == frames_payload(frames) + frame.payload,
        frames_table(Seq::<FrameView>::empty(), base) == Seq::<u8>::empty(),
        frames_payload(Seq::<FrameView>::empty()) == Seq::<u8>::empty(),
{
    assert(frames.push(frame).drop_last() =~= frames);
}

/// A decoded object starts with version 2, and then says where its first group starts and how many
/// groups follow. Any other version is refused and named.
pub proof fn law_a_decoded_object_starts_with_its_header(s: Seq<u8>)
    ensures
        decoded(s) matches Ok(o) ==> {
            let s1 = after_varint(s);
            let s2 = after_varint(s1);
            &&& starts_with_varint(s) && leading_varint(s) == 2
            &&& starts_with_varint(s1) && leading_varint(s1) == o.frame_start
            &&& starts_with_varint(s2) && leading_varint(s2) == o.groups.len()
            &&& o.groups.len() > 0
        },
        starts_with_varint(s) && leading_varint(s) != 2 ==> decoded(s) == Err::<ObjectView, Error>(
            Error::Version(leading_varint(s) as u64),
        ),
        !starts_with_varint(s) ==> decoded(s) == Err::<ObjectView, Error>(Error::Table),
{
    if starts_with_varint(s) {
        lemma_leading_varint_bound(s);
    }
    if decoded(s) is Ok {
        let s1 = after_varint(s);
        let s2 = after_varint(s1);
        lemma_leading_varint_bound(s1);
        lemma_leading_varint_bound(s2);
        let n = leading_varint(s2) as nat;
        let start = after_varint(s2);
        lemma_parsed_groups(start, n);
        let (entries, payload) = parse_groups(start, n)->Ok_0;
        lemma_placed_groups(entries, payload);
    }
}

/// The frames that entries cut out of a payload are its bytes, one after another without a gap.
proof fn lemma_frames_tile(entries: Seq<Entry>, at: nat, payload: Seq<u8>)
    requires
        place_frames(entries, at, payload) is Some,
        at <= payload.len(),
    ensures
        ({
            let (frames, end) = place_frames(entries, at, payload)->0;
            &&& at <= end <= payload.len()
            &&& frames_payload(frames) == payload.subrange(at as int, end as int)
        }),
    decreases entries.len(),
{
    if entries.len() > 0 {
        lemma_frames_tile(entries.drop_last(), at, payload);
        let (front, mid) = place_frames(entries.drop_last(), at, payload)->0;
        let (frames, end) = place_frames(entries, at, payload)->0;
        assert(frames.drop_last() =~= front);
        assert(payload.subrange(at as int, end as int) =~= payload.subrange(at as int, mid as int)
            + payload.subrange(mid as int, end as int));
    } else {
        assert(payload.subrange(at as int, at as int) =~= Seq::empty());
    }
}

proof fn lemma_groups_tile(entries: Seq<GroupEntryView>, payload: Seq<u8>)
    requires
        place_groups(entries, payload) is Some,
    ensures
        ({
            let (groups, end) = place_groups(entries, payload)->0;
            &&& 0 <= end <= payload.len()
            &&& groups_payload(groups) == payload.take(end as int)
        }),
    decreases entries.len(),
{
    if entries.len() > 0 {
        lemma_groups_tile(entries.drop_last(), payload);
        let (front, mid) = place_groups(entries.drop_last(), payload)->0;
        let (groups, end) = place_groups(entries, payload)->0;
        lemma_frames_tile(entries.last().frames, mid, payload);
        assert(groups.drop_last() =~= front);
        assert(payload.take(end as int) =~= payload.take(mid as int) + payload.subrange(
            mid as int,
            end as int,
        ));
    } else {
        assert(payload.take(0) =~= Seq::empty());
    }
}

proof fn lemma_tail(s: Seq<u8>, n: nat)
    requires
        parse_frames(s, n) is Ok,
    ensures
        exists|k: int| 0 <= k <= s.len() && parse_frames(s, n)->Ok_0.1 == #[trigger] s.skip(k),
    decreases n,
{
    if n == 0 {
        assert(s.skip(0) =~= s);
    } else {
        lemma_tail(s, (n - 1) as nat);
        let r = parse_frames(s, (n - 1) as nat)->Ok_0.1;
        let k = choose|k: int| 0 <= k <= s.len() && r == #[trigger] s.skip(k);
        let a = varint_width_of(r);
        let r1 = after_varint(r);
        let b = varint_width_of(r1);
        let r2 = after_varint(r1);
        let c = varint_width_of(r2);
        assert(after_varint(r2) =~= s.skip(k + a + b + c));
    }
}

spec fn varint_width_of(s: Seq<u8>) -> int {
    s.len() - after_varint(s).len()
}

proof fn lemma_groups_tail(s: Seq<u8>, n: nat)
    requires
        parse_groups(s, n) is Ok,
    ensures
        exists|k: int| 0 <= k <= s.len() && parse_groups(s, n)->Ok_0.1 == #[trigger] s.skip(k),
    decreases n,
{
    if n == 0 {
        assert(s.skip(0) =~= s);
    } else {
        lemma_groups_tail(s, (n - 1) as nat);
        let r = parse_groups(s, (n - 1) as nat)->Ok_0.1;
        let k = choose|k: int| 0 <= k <= s.len() && r == #[trigger] s.skip(k);
        let r1 = after_varint(r);
        let r2 = after_varint(r1);
        let a = varint_width_of(r);
        let b = varint_width_of(r1);
        assert(r2 =~= s.skip(k + a + b));
        lemma_leading_varint_bound(r1);
        let m = leading_varint(r1) as nat;
        lemma_tail(r2, m);
        let j = choose|j: int|
            0 <= j <= r2.len() && parse_frames(r2, m)->Ok_0.1 == #[trigger] r2.skip(j);
        assert(r2.skip(j) =~= s.skip(k + a + b + j));
    }
}

/// The bytes of a decoded object end with the payloads of its frames, one after another: none of them
/// is left out, doubled or changed, and none is left over.
pub proof fn law_decoded_payloads_are_the_stored_bytes(s: Seq<u8>)
    requires
        decoded(s) is Ok,
    ensures
        ({
            let payload = groups_payload(decoded(s)->Ok_0.groups);
            &&& payload.len() <= s.len()
            &&& s.skip(s.len() - payload.len()) == payload
        }),
{
    lemma_leading_varint_bound(s);
    let s1 = after_varint(s);
    lemma_leading_varint_bound(s1);
    let s2 = after_varint(s1);
    lemma_leading_varint_bound(s2);
    let n = leading_varint(s2) as nat;
    let start = after_varint(s2);
    lemma_groups_tail(start, n);
    let (entries, payload) = parse_groups(start, n)->Ok_0;
    let k = choose|k: int| 0 <= k <= start.len() && payload == #[trigger] start.skip(k);
    lemma_groups_tile(entries, payload);
    assert(payload.take(payload.len() as int) =~= payload);
    let m = s.len() - payload.len();
    assert(start.skip(k) =~= s.skip(m));
}

/// An object can be stored exactly where it has a group, its numbers and timestamps are at most
/// 2^53 - 1, and its groups ascend.
pub proof fn law_only_unsound_objects_are_refused(groups: Seq<GroupView>)
    ensures
        object_fault(groups) is None <==> {
            &&& groups.len() > 0
            &&& forall|i: int|
                0 <= i < groups.len() ==> (#[trigger] groups[i]).sequence < 0x20_0000_0000_0000
            &&& forall|i: int, j: int|
                0 <= i < j < groups.len() ==> (#[trigger] groups[i]).sequence < (
                #[trigger] groups[j]).sequence
            &&& forall|i: int, k: int|
                0 <= i < groups.len() && 0 <= k < groups[i].frames.len()
                    ==> (#[trigger] groups[i].frames[k]).timestamp < 0x20_0000_0000_0000
        },
        groups.len() == 0 ==> object_fault(groups) == Some(Error::Empty),
{
    lemma_fault_iff_unsound(groups);
}

/// An object holds exactly a record's frames where it starts at the record's start, has every group
/// from there on with frames in it, and stops at the record's end: at a frame of its last group, or,
/// where the record ends with a group, at the group behind its last.
pub proof fn law_a_span_is_exact(o: ObjectView, start: Position, end: Position)
    ensures
        span_check(o, start, end) is Ok <==> {
            let n = o.groups.len() as int;
            let last = o.groups[n - 1];
            let base = if n == 1 {
                o.frame_start as int
            } else {
                0
            };
            &&& object_fault(o.groups) is None
            &&& o.frame_start == start.frame
            &&& forall|i: int|
                0 <= i < n ==> (#[trigger] o.groups[i]).sequence == start.group + i
                    && o.groups[i].frames.len() > 0
            &&& base + last.frames.len() <= u64::MAX
            &&& end.frame == 0 ==> end.group == last.sequence + 1
            &&& end.frame > 0 ==> end.group == last.sequence && end.frame == base
                + last.frames.len()
        },
{
    if object_fault(o.groups) is None {
        assert(o.groups[0].sequence == o.groups[0].sequence);
    }
}

/// A table is refused unless its frames lie end to end: each starts where the one before it ends, the
/// first where it has to, and the last ends within the payload. Where they do, each frame has its
/// entry's timestamp and the bytes that the entry's offset and length name.
pub proof fn law_frames_lie_end_to_end(entries: Seq<Entry>, at: nat, payload: Seq<u8>)
    requires
        at <= payload.len(),
    ensures
        place_frames(entries, at, payload) is Some <==> {
            &&& entries.len() > 0 ==> entries[0].offset == at
            &&& forall|k: int|
                0 <= k < entries.len() ==> (#[trigger] entries[k]).offset + entries[k].length
                    <= payload.len()
            &&& forall|k: int|
                #![trigger entries[k - 1]]
                1 <= k < entries.len() ==> entries[k].offset == entries[k - 1].offset + entries[k
                    - 1].length
        },
        place_frames(entries, at, payload) matches Some((frames, end)) ==> {
            &&& frames.len() == entries.len()
            &&& entries.len() == 0 ==> end == at
            &&& entries.len() > 0 ==> end == entries.last().offset + entries.last().length
            &&& forall|k: int|
                0 <= k < frames.len() ==> (#[trigger] frames[k]).timestamp == entries[k].timestamp
                    && frames[k].payload == payload.subrange(
                    entries[k].offset as int,
                    entries[k].offset + entries[k].length,
                )
        },
    decreases entries.len(),
{
    if entries.len() > 0 {
        let init = entries.drop_last();
        let n = init.len() as int;
        law_frames_lie_end_to_end(init, at, payload);
        assert forall|k: int| 0 <= k < n implies init[k] == #[trigger] entries[k] by {}
        let placed = place_frames(entries, at, payload) is Some;
        let whole = {
            &&& entries[0].offset == at
            &&& forall|k: int|
                0 <= k < entries.len() ==> (#[trigger] entries[k]).offset + entries[k].length
                    <= payload.len()
            &&& forall|k: int|
                #![trigger entries[k - 1]]
                1 <= k < entries.len() ==> entries[k].offset == entries[k - 1].offset + entries[k
                    - 1].length
        };
        if whole {
            assert forall|k: int| 0 <= k < init.len() implies (#[trigger] init[k]).offset
                + init[k].length <= payload.len() by {
                assert(init[k] == entries[k]);
            }
            assert forall|k: int| #![trigger init[k - 1]] 1 <= k < init.len() implies init[k].offset
                == init[k - 1].offset + init[k - 1].length by {
                assert(init[k - 1] == entries[k - 1]);
            }
            if n > 0 {
                assert(entries[n].offset == entries[n - 1].offset + entries[n - 1].length);
            }
            assert(placed);
        }
        if placed {
            let (before, end) = place_frames(init, at, payload)->0;
            let (frames, _) = place_frames(entries, at, payload)->0;
            assert(entries[n] == entries.last());
            assert forall|k: int| 0 <= k < entries.len() implies (#[trigger] entries[k]).offset
                + entries[k].length <= payload.len() by {
                if k < n {
                    assert(init[k] == entries[k]);
                }
            }
            assert forall|k: int|
                #![trigger entries[k - 1]]
                1 <= k < entries.len() implies entries[k].offset == entries[k - 1].offset
                + entries[k - 1].length by {
                if k < n {
                    assert(init[k - 1] == entries[k - 1]);
                } else {
                    assert(init.last() == entries[k - 1]);
                }
            }
            if n > 0 {
                assert(init[0] == entries[0]);
            }
            assert forall|k: int| 0 <= k < frames.len() implies (#[trigger] frames[k]).timestamp
                == entries[k].timestamp && frames[k].payload == payload.subrange(
                entries[k].offset as int,
                entries[k].offset + entries[k].length,
            ) by {
                if k < n {
                    assert(frames[k] == before[k]);
                }
            }
        }
    }
}

/// Groups lie end to end as their frames do: each group's first frame starts where the group before
/// it ends, and each group has its entry's number and frames.
pub proof fn law_groups_lie_end_to_end(
    entries: Seq<GroupEntryView>,
    entry: GroupEntryView,
    payload: Seq<u8>,
)
    ensures
        place_groups(Seq::empty(), payload) == Some((Seq::<GroupView>::empty(), 0nat)),
        place_groups(entries.push(entry), payload) matches Some((groups, end)) ==> {
            let (before, at) = place_groups(entries, payload)->0;
            &&& place_groups(entries, payload) is Some
            &&& groups.drop_last() == before
            &&& groups.last().sequence == entry.sequence
            &&& place_frames(entry.frames, at, payload) == Some((groups.last().frames, end))
        },
{
    assert(entries.push(entry).drop_last() =~= entries);
    if place_groups(entries.push(entry), payload) is Some {
        let (groups, _) = place_groups(entries.push(entry), payload)->0;
        let (before, _) = place_groups(entries, payload)->0;
        assert(groups.drop_last() =~= before);
    }
}

/// A frame's entry is its timestamp, its offset and its length, in this order.
pub proof fn law_a_frame_entry_is_three_integers(s: Seq<u8>)
    ensures
        parse_frame(s) matches Ok((entry, rest)) ==> {
            let s1 = after_varint(s);
            let s2 = after_varint(s1);
            &&& starts_with_varint(s) && leading_varint(s) == entry.timestamp
            &&& starts_with_varint(s1) && leading_varint(s1) == entry.offset
            &&& starts_with_varint(s2) && leading_varint(s2) == entry.length
            &&& rest == after_varint(s2)
            &&& entry.timestamp < 0x20_0000_0000_0000
        },
{
    if parse_frame(s) is Ok {
        lemma_leading_varint_bound(s);
        lemma_leading_varint_bound(after_varint(s));
        lemma_leading_varint_bound(after_varint(after_varint(s)));
    }
}

/// A group's entry is how many numbers it skips behind the group before it, or its number where it is
/// the first, how many frames it has, and these.
pub proof fn law_a_group_entry_counts_from_the_one_before(before: Seq<GroupEntryView>, s: Seq<u8>)
    ensures
        parse_group(before, s) matches Ok((entry, rest)) ==> {
            let s1 = after_varint(s);
            &&& starts_with_varint(s)
            &&& before.len() == 0 ==> entry.sequence == leading_varint(s)
            &&& before.len() > 0 ==> entry.sequence == before.last().sequence + 1 + leading_varint(s)
            &&& entry.sequence < 0x20_0000_0000_0000
            &&& starts_with_varint(s1)
            &&& parse_frames(after_varint(s1), leading_varint(s1) as nat) == Ok::<
                (Seq<Entry>, Seq<u8>),
                Error,
            >((entry.frames, rest))
        },
{
    if parse_group(before, s) is Ok {
        lemma_leading_varint_bound(s);
        lemma_leading_varint_bound(after_varint(s));
    }
}

/// An object can be written wherever its counts, its first index and its payloads taken together are
/// below two to the power of 62: no smaller object is refused for its size.
pub proof fn law_objects_below_the_limit_fit(o: ObjectView)
    requires
        o.frame_start < 0x4000_0000_0000_0000,
        o.groups.len() < 0x4000_0000_0000_0000,
        forall|i: int|
            0 <= i < o.groups.len() ==> (#[trigger] o.groups[i]).frames.len()
                < 0x4000_0000_0000_0000,
        groups_payload(o.groups).len() < 0x4000_0000_0000_0000,
    ensures
        fits(o),
{
    lemma_groups_below_the_limit(o.groups);
}

proof fn lemma_groups_below_the_limit(groups: Seq<GroupView>)
    requires
        forall|i: int|
            0 <= i < groups.len() ==> (#[trigger] groups[i]).frames.len() < 0x4000_0000_0000_0000,
        groups_payload(groups).len() < 0x4000_0000_0000_0000,
    ensures
        groups_fit(groups),
    decreases groups.len(),
{
    if groups.len() > 0 {
        let init = groups.drop_last();
        assert forall|i: int| 0 <= i < init.len() implies (#[trigger] init[i]).frames.len()
            < 0x4000_0000_0000_0000 by {
            assert(init[i] == groups[i]);
        }
        lemma_groups_below_the_limit(init);
        assert(groups[groups.len() - 1].frames.len() < 0x4000_0000_0000_0000);
        lemma_frames_below_the_limit(groups.last().frames, groups_payload(init).len());
    }
}

proof fn lemma_frames_below_the_limit(frames: Seq<FrameView>, base: nat)
    requires
        base + frames_payload(frames).len() < 0x4000_0000_0000_0000,
    ensures
        frames_fit(frames, base),
    decreases frames.len(),
{
    if frames.len() > 0 {
        lemma_frames_below_the_limit(frames.drop_last(), base);
    }
}

} // verus!
