//! Resuming a recording: what is known of each track, and what has to be deleted.

use super::error::{Error, ErrorView};
use super::id::ID_MAX;
use super::path::{key_fault, Key, KeyView};
use super::reader::timeline::Event;
use super::timeline::{Position, Record};
use crate::text::{
    decimal_text, ends_with, has_suffix, is_before, lemma_sorts_irreflexive, lemma_sorts_total,
    lemma_sorts_transitive, push_decimal, same, sorts_before, strip_suffix,
};
use vstd::prelude::*;
use vstd::string::StringExecFns;

verus! {

/// What the name of a timeline track ends with.
pub open spec fn timeline_suffix() -> Seq<char> {
    ".timeline.z"@
}

/// The name of the timeline that indexes `track`.
pub open spec fn timeline_of(track: Seq<char>) -> Seq<char> {
    track + timeline_suffix()
}

/// Name the timeline that indexes `track`.
pub fn timeline_name(track: &str) -> (r: String)
    ensures
        r@ == timeline_of(track@),
{
    let mut name = track.to_owned();
    name.append(".timeline.z");
    name
}

/// Whether `name` is the name of a timeline.
pub fn is_timeline(name: &str) -> (r: bool)
    ensures
        r == has_suffix(name@, timeline_suffix()),
{
    ends_with(name, ".timeline.z")
}

/// The track that the timeline `name` indexes, if it is one.
pub fn indexed_track(name: &str) -> (r: Option<String>)
    ensures
        r is Some <==> has_suffix(name@, timeline_suffix()),
        r matches Some(track) ==> timeline_of(track@) == name@,
{
    strip_suffix(name, ".timeline.z")
}

/// One track's retained timeline.
#[derive(Debug)]
pub struct Resume {
    /// The first record of the retained window.
    pub start: u64,
    /// One past the last record of the retained window.
    pub end: u64,
    /// The retained records, oldest first.
    pub records: Vec<Record>,
    /// The next stored timeline group sequence, so the stored numbering keeps increasing.
    pub sequence: u64,
}

impl Resume {
    /// Where the newest committed record ended: the resumed track refuses anything before it.
    pub fn floor(&self) -> (r: Option<Position>)
        ensures
            r == (if self.records@.len() == 0 {
                None::<Position>
            } else {
                Some(self.records@.last().end)
            }),
    {
        if self.records.len() == 0 {
            None
        } else {
            Some(self.records[self.records.len() - 1].end)
        }
    }
}

/// Whether `least` is the least and `most` the largest of `ids`.
pub open spec fn spans_ids(ids: Seq<u64>, least: u64, most: u64) -> bool {
    &&& ids.contains(least)
    &&& ids.contains(most)
    &&& forall|i: int| 0 <= i < ids.len() ==> least <= #[trigger] ids[i] <= most
}

/// The words for a gap among stored timeline segments.
pub open spec fn gap_text(timeline: Seq<char>, first: u64, last: u64) -> Seq<char> {
    timeline + " segments "@ + decimal_text(first as nat) + "..="@ + decimal_text(last as nat)
        + " are not contiguous"@
}

/// The first and last of a timeline's stored segments, refusing a gap between them.
pub fn segment_bounds(timeline: &str, ids: &Vec<u64>) -> (r: Result<(u64, u64), Error>)
    requires
        ids@.len() > 0,
        forall|i: int| 0 <= i < ids@.len() ==> #[trigger] ids@[i] <= ID_MAX,
    ensures
        match r {
            Ok((first, last)) => spans_ids(ids@, first, last) && ids@.len() == last - first + 1,
            Err(e) => exists|first: u64, last: u64|
                #![trigger spans_ids(ids@, first, last)]
                spans_ids(ids@, first, last) && ids@.len() != last - first + 1 && e@
                    == ErrorView::Timeline(gap_text(timeline@, first, last)),
        },
{
    let mut first: u64 = ids[0];
    let mut last: u64 = ids[0];
    let mut i: usize = 1;
    while i < ids.len()
        invariant
            1 <= i <= ids@.len(),
            forall|j: int| 0 <= j < ids@.len() ==> #[trigger] ids@[j] <= ID_MAX,
            ids@.contains(first),
            ids@.contains(last),
            first <= ID_MAX,
            last <= ID_MAX,
            forall|j: int| 0 <= j < i ==> first <= #[trigger] ids@[j] <= last,
        decreases ids@.len() - i,
    {
        let id: u64 = ids[i];
        if id < first {
            first = id;
        }
        if id > last {
            last = id;
        }
        i = i + 1;
    }
    assert(spans_ids(ids@, first, last));
    assert(first <= ids@[0] <= last);
    if ids.len() as u64 != last - first + 1 {
        let mut text = timeline.to_owned();
        text.append(" segments ");
        push_decimal(&mut text, first);
        text.append("..=");
        push_decimal(&mut text, last);
        text.append(" are not contiguous");
        return Err(Error::Timeline(text));
    }
    Ok((first, last))
}

/// The words for a window that does not reach the newest stored segment.
pub open spec fn window_text(timeline: Seq<char>, end: u64, next: u64) -> Seq<char> {
    timeline + " window ends at "@ + decimal_text(end as nat) + ", not segment "@ + decimal_text(
        next as nat,
    )
}

/// Require the recovered window to end right after the newest stored segment: a shorter one would
/// resume onto that segment and collide with it.
pub fn check_window_end(timeline: &str, last: u64, end: u64) -> (r: Result<(), Error>)
    ensures
        match r {
            Ok(_) => end == last + 1,
            Err(e) => end != last + 1 && e@ == (if last == u64::MAX {
                ErrorView::Overflow
            } else {
                ErrorView::Timeline(window_text(timeline@, end, (last + 1) as u64))
            }),
        },
{
    let next: u64 = match last.checked_add(1) {
        Some(next) => next,
        None => {
            return Err(Error::Overflow);
        },
    };
    if end != next {
        let mut text = timeline.to_owned();
        text.append(" window ends at ");
        push_decimal(&mut text, end);
        text.append(", not segment ");
        push_decimal(&mut text, next);
        return Err(Error::Timeline(text));
    }
    Ok(())
}

/// Whether replay can start at a checkpoint that restates from `start` on: an archive needs only
/// the newest, a DVR every record from `needed` on.
pub fn restates(complete: bool, start: u64, needed: u64) -> (r: bool)
    ensures
        r == (!complete || start <= needed),
{
    !complete || start <= needed
}

/// What becomes of a stored object that was found on a restart.
#[derive(Clone, Copy, Debug, PartialEq, Eq, Structural)]
pub enum Fate {
    /// A crash left it before its commit: it is deleted, and the resumed writer reuses its key.
    Uncommitted,
    /// No retained record names it: it is deleted after the grace period.
    Orphan,
    /// It stays.
    Keep,
}

/// Whether a retained record names the object `id`.
pub open spec fn retains(records: Seq<Record>, id: u64) -> bool {
    exists|i: int| 0 <= i < records.len() && (#[trigger] records[i]).sequence == id
}

/// What becomes of the stored object `id` of a track with this retained timeline.
pub open spec fn fate(resume: Option<Resume>, complete: bool, id: u64) -> Fate {
    let next = match resume {
        Some(resume) => resume.end,
        None => 0,
    };
    let retained = match resume {
        Some(resume) => retains(resume.records@, id),
        None => false,
    };
    if id >= next {
        Fate::Uncommitted
    } else if complete && !retained {
        Fate::Orphan
    } else {
        Fate::Keep
    }
}

/// What `resume` points at.
pub open spec fn pointed(resume: Option<&Resume>) -> Option<Resume> {
    match resume {
        Some(resume) => Some(*resume),
        None => None,
    }
}

/// Judge the stored object `id` of a track.
pub fn judge(resume: Option<&Resume>, complete: bool, id: u64) -> (r: Fate)
    ensures
        r == fate(pointed(resume), complete, id),
{
    match resume {
        None => Fate::Uncommitted,
        Some(found) => {
            if id >= found.end {
                return Fate::Uncommitted;
            }
            if !complete {
                return Fate::Keep;
            }
            let mut i: usize = 0;
            while i < found.records.len()
                invariant
                    0 <= i <= found.records@.len(),
                    pointed(resume) == Some(*found),
                    id < found.end,
                    complete,
                    forall|j: int| 0 <= j < i ==> (#[trigger] found.records@[j]).sequence != id,
                decreases found.records@.len() - i,
            {
                if found.records[i].sequence == id {
                    return Fate::Keep;
                }
                i = i + 1;
            }
            Fate::Orphan
        },
    }
}

/// The walk back over a timeline's stored segments, each of which opens with a checkpoint, to one
/// that restates every record still needed.
#[derive(Clone, Copy, Debug, PartialEq, Eq, Structural)]
pub struct Walk {
    /// The oldest stored segment.
    pub first: u64,
    /// The segment to load next, if any.
    pub next: Option<u64>,
    /// Whether every retained record is needed.
    pub complete: bool,
    /// The first record the newest checkpoint retains.
    pub needed: Option<u64>,
}

/// The walk after the next segment was loaded: its checkpoint retains the records from `offset` on
/// and restates those from `restated` on.
pub open spec fn walked(walk: Walk, offset: u64, restated: u64) -> Walk {
    let needed = match walk.needed {
        Some(needed) => needed,
        None => offset,
    };
    Walk {
        next: if !walk.complete || restated <= needed || walk.next == Some(walk.first) {
            None
        } else {
            Some((walk.next->0 - 1) as u64)
        },
        needed: Some(needed),
        ..walk
    }
}

impl Walk {
    /// Whether the walk stays inside the stored segments.
    pub open spec fn wf(self) -> bool {
        self.next matches Some(next) ==> self.first <= next
    }

    /// Walk back from `last`, as far as `first`.
    pub fn new(first: u64, last: u64, complete: bool) -> (r: Self)
        requires
            first <= last,
        ensures
            r.wf(),
            r == (Walk { first, next: Some(last), complete, needed: None }),
    {
        Walk { first, next: Some(last), complete, needed: None }
    }

    /// Take in the checkpoint of the segment that was loaded.
    pub fn loaded(&mut self, offset: u64, restated: u64)
        requires
            old(self).wf(),
            old(self).next is Some,
        ensures
            final(self).wf(),
            *final(self) == walked(*old(self), offset, restated),
    {
        let needed: u64 = match self.needed {
            Some(needed) => needed,
            None => offset,
        };
        self.needed = Some(needed);
        if let Some(at) = self.next {
            if restates(self.complete, restated, needed) || at == self.first {
                self.next = None;
            } else {
                self.next = Some(at - 1);
            }
        }
    }
}

/// The first record that a checkpoint restates, given the offset it retains from and the first change
/// it brought: where it opens with a skip, the record that the skip leads to, else the offset.
pub fn restated(offset: u64, first: Option<&Event>) -> (r: u64)
    ensures
        r == match first {
            Some(Event::Skip { to, .. }) => *to,
            _ => offset,
        },
{
    match first {
        Some(Event::Skip { to, .. }) => *to,
        _ => offset,
    }
}

/// One record of a window under its number.
#[derive(Clone, Copy, Debug)]
pub struct Numbered {
    /// The record's place in the window.
    pub index: u64,
    /// The record.
    pub record: Record,
}

/// The records gathered while a timeline is replayed.
#[derive(Debug)]
pub struct Replay {
    records: Vec<Numbered>,
}

impl Replay {
    /// The gathered records, by ascending number.
    pub closed spec fn all(self) -> Seq<Numbered> {
        self.records@
    }

    /// Whether the record with this number was gathered, and which it is.
    pub open spec fn get(self, index: u64) -> Option<Record> {
        if exists|i: int| 0 <= i < self.all().len() && (#[trigger] self.all()[i]).index == index {
            let i = choose|i: int|
                0 <= i < self.all().len() && (#[trigger] self.all()[i]).index == index;
            Some(self.all()[i].record)
        } else {
            None
        }
    }

    /// Whether the numbers strictly ascend.
    pub open spec fn wf(self) -> bool {
        forall|i: int, j: int|
            0 <= i < j < self.all().len() ==> (#[trigger] self.all()[i]).index < (
            #[trigger] self.all()[j]).index
    }

    /// A record found at a place is the one under its number.
    pub proof fn lemma_get(self, i: int)
        requires
            self.wf(),
            0 <= i < self.all().len(),
        ensures
            self.get(self.all()[i].index) == Some(self.all()[i].record),
    {
        let index = self.all()[i].index;
        let k = choose|k: int|
            0 <= k < self.all().len() && (#[trigger] self.all()[k]).index == index;
        assert(self.all()[k].index == index);
    }

    /// Nothing gathered.
    pub fn new() -> (r: Self)
        ensures
            r.wf(),
            r.all() == Seq::<Numbered>::empty(),
    {
        Replay { records: Vec::new() }
    }

    /// Gather the record `index`, in place of an earlier one with that number.
    pub fn push(&mut self, index: u64, record: Record)
        requires
            old(self).wf(),
        ensures
            final(self).wf(),
            forall|i: u64| #[trigger]
                final(self).get(i) == (if i == index {
                    Some(record)
                } else {
                    old(self).get(i)
                }),
    {
        let mut at: usize = self.records.len();
        while at > 0 && self.records[at - 1].index > index
            invariant
                0 <= at <= self.records@.len(),
                *self == *old(self),
                self.wf(),
                forall|i: int| at <= i < self.records@.len() ==> (#[trigger] self.all()[i]).index
                    > index,
            decreases at,
        {
            at = at - 1;
        }
        let ghost before = self.all();
        let entry = Numbered { index, record };
        if at > 0 && self.records[at - 1].index == index {
            self.records.set(at - 1, entry);
            proof {
                let b = *self;
                assert(b.all() == before.update(at - 1, entry));
                assert(b.wf()) by {
                    assert forall|i: int, j: int| 0 <= i < j < b.all().len() implies (
                    #[trigger] b.all()[i]).index < (#[trigger] b.all()[j]).index by {
                        assert(before[i].index < before[j].index);
                    }
                }
                b.lemma_get(at - 1);
                assert forall|i: u64| i != index implies #[trigger] b.get(i) == old(self).get(i) by {
                    assert forall|k: int|
                        0 <= k < before.len() && (#[trigger] old(self).all()[k]).index
                            == i implies b.all().contains(old(self).all()[k]) by {
                        assert(b.all()[k] == before[k]);
                    }
                    assert forall|k: int|
                        0 <= k < b.all().len() && (#[trigger] b.all()[k]).index
                            == i implies before.contains(b.all()[k]) by {
                        assert(b.all()[k] == before[k]);
                    }
                    lemma_same_get(*old(self), b, i);
                }
            }
        } else {
            self.records.insert(at, entry);
            proof {
                let b = *self;
                assert(b.all() == before.insert(at as int, entry));
                assert(b.wf()) by {
                    assert forall|i: int, j: int| 0 <= i < j < b.all().len() implies (
                    #[trigger] b.all()[i]).index < (#[trigger] b.all()[j]).index by {
                        if j < at {
                            assert(before[i].index < before[j].index);
                        } else if i > at {
                            assert(before[i - 1].index < before[j - 1].index);
                        } else if i == at {
                            assert(before[j - 1].index > index);
                        } else if j == at {
                            if i < at - 1 {
                                assert(before[i].index < before[at - 1].index);
                            }
                        } else {
                            assert(before[i].index < before[j - 1].index);
                        }
                    }
                }
                assert(b.all()[at as int] == entry);
                b.lemma_get(at as int);
                assert forall|i: u64| i != index implies #[trigger] b.get(i) == old(self).get(i) by {
                    assert forall|k: int|
                        0 <= k < before.len() && (#[trigger] old(self).all()[k]).index
                            == i implies b.all().contains(old(self).all()[k]) by {
                        if k < at {
                            assert(b.all()[k] == before[k]);
                        } else {
                            assert(b.all()[k + 1] == before[k]);
                        }
                    }
                    assert forall|k: int|
                        0 <= k < b.all().len() && (#[trigger] b.all()[k]).index
                            == i implies before.contains(b.all()[k]) by {
                        if k < at {
                            assert(b.all()[k] == before[k]);
                        } else {
                            assert(b.all()[k] == before[k - 1]);
                        }
                    }
                    lemma_same_get(*old(self), b, i);
                }
            }
        }
    }

    /// Follow one change of the replayed timeline.
    pub fn apply(&mut self, event: Event)
        requires
            old(self).wf(),
        ensures
            final(self).wf(),
            forall|i: u64| #[trigger]
                final(self).get(i) == match event {
                    Event::Push { index, value } => if i == index {
                        Some(value)
                    } else {
                        old(self).get(i)
                    },
                    Event::Pop { from, to } | Event::Skip { from, to } => if from <= i < to {
                        None
                    } else {
                        old(self).get(i)
                    },
                },
    {
        match event {
            Event::Push { index, value } => self.push(index, value),
            Event::Pop { from, to } => self.drop_range(from, to),
            Event::Skip { from, to } => self.drop_range(from, to),
        }
    }

    /// Drop the records `from..to`.
    pub fn drop_range(&mut self, from: u64, to: u64)
        requires
            old(self).wf(),
        ensures
            final(self).wf(),
            forall|i: u64| #[trigger]
                final(self).get(i) == (if from <= i < to {
                    None::<Record>
                } else {
                    old(self).get(i)
                }),
    {
        let ghost before = self.all();
        let mut kept: Vec<Numbered> = Vec::new();
        let mut i: usize = 0;
        while i < self.records.len()
            invariant
                0 <= i <= self.records@.len(),
                *self == *old(self),
                before == self.records@,
                self.wf(),
                self.all() == before,
                forall|a: int, b: int|
                    0 <= a < b < kept@.len() ==> (#[trigger] kept@[a]).index < (
                    #[trigger] kept@[b]).index,
                forall|a: int|
                    0 <= a < kept@.len() ==> !(from <= (#[trigger] kept@[a]).index < to)
                        && before.take(i as int).contains(kept@[a]),
                forall|a: int|
                    0 <= a < i && !(from <= (#[trigger] before[a]).index < to) ==> kept@.contains(
                        before[a],
                    ),
            decreases self.records@.len() - i,
        {
            let entry = self.records[i];
            let ghost kept0 = kept@;
            proof {
                assert(entry == before[i as int]);
                assert forall|x: Numbered| #[trigger] before.take(i as int).contains(x) implies
                    before.take(i + 1).contains(x) && x.index < entry.index by {
                    let k = choose|k: int| 0 <= k < i && before.take(i as int)[k] == x;
                    assert(before.take(i + 1)[k] == x);
                    assert(self.all()[k].index < self.all()[i as int].index);
                }
                assert(before.take(i + 1)[i as int] == entry);
            }
            if !(from <= entry.index && entry.index < to) {
                kept.push(entry);
                proof {
                    assert(kept@[kept0.len() as int] == entry);
                    assert(forall|a: int| 0 <= a < kept0.len() ==> kept@[a] == kept0[a]);
                    assert forall|a: int|
                        0 <= a < i && !(from <= (#[trigger] before[a]).index
                            < to) implies kept@.contains(before[a]) by {
                        assert(kept0.contains(before[a]));
                        let k = choose|k: int| 0 <= k < kept0.len() && kept0[k] == before[a];
                        assert(kept@[k] == before[a]);
                    }
                }
            }
            i = i + 1;
        }
        self.records = kept;
        proof {
            let b = *self;
            assert(before.take(i as int) =~= before);
            assert forall|n: u64| #[trigger] b.get(n) == (if from <= n < to {
                None::<Record>
            } else {
                old(self).get(n)
            }) by {
                if b.get(n) is Some {
                    let k = choose|k: int|
                        0 <= k < b.all().len() && (#[trigger] b.all()[k]).index == n;
                    assert(before.contains(b.all()[k]));
                    let m = choose|m: int| 0 <= m < before.len() && before[m] == b.all()[k];
                    old(self).lemma_get(m);
                    b.lemma_get(k);
                } else if old(self).get(n) is Some && !(from <= n < to) {
                    let m = choose|m: int|
                        0 <= m < before.len() && (#[trigger] old(self).all()[m]).index == n;
                    assert(b.all().contains(before[m]));
                    let k = choose|k: int| 0 <= k < b.all().len() && b.all()[k] == before[m];
                    assert(b.all()[k].index == n);
                }
            }
        }
    }
}

/// Two gatherings that differ in one number alone agree on every other.
proof fn lemma_same_get(a: Replay, b: Replay, n: u64)
    requires
        a.wf(),
        b.wf(),
        forall|i: int|
            0 <= i < a.all().len() && (#[trigger] a.all()[i]).index == n ==> b.all().contains(
                a.all()[i],
            ),
        forall|i: int|
            0 <= i < b.all().len() && (#[trigger] b.all()[i]).index == n ==> a.all().contains(
                b.all()[i],
            ),
    ensures
        b.get(n) == a.get(n),
{
    if a.get(n) is Some {
        let i = choose|i: int| 0 <= i < a.all().len() && (#[trigger] a.all()[i]).index == n;
        a.lemma_get(i);
        let k = choose|k: int| 0 <= k < b.all().len() && b.all()[k] == a.all()[i];
        b.lemma_get(k);
    } else if b.get(n) is Some {
        let i = choose|i: int| 0 <= i < b.all().len() && (#[trigger] b.all()[i]).index == n;
        let k = choose|k: int| 0 <= k < a.all().len() && a.all()[k] == b.all()[i];
        assert(a.all()[k].index == n);
    }
}

/// The words for a window that the retained checkpoints do not give back.
pub open spec fn lost_text(timeline: Seq<char>, start: u64, end: u64) -> Seq<char> {
    "cannot recover "@ + timeline + " window "@ + decimal_text(start as nat) + ".."@ + decimal_text(
        end as nat,
    ) + " from the retained checkpoints"@
}

/// The number of the first gathered record, or where the window ends.
pub open spec fn first_number(all: Seq<Numbered>, end: u64) -> u64 {
    if all.len() == 0 {
        end
    } else {
        all[0].index
    }
}

/// Whether the gathered records are a suffix of the window `start..end`, and all of it where it
/// must be complete.
pub open spec fn recovers(all: Seq<Numbered>, start: u64, end: u64, complete: bool) -> bool {
    all.len() == end - first_number(all, end) && (complete ==> first_number(all, end) == start)
}

proof fn lemma_numbers(all: Seq<Numbered>, end: u64, i: int)
    requires
        forall|i: int, j: int|
            0 <= i < j < all.len() ==> (#[trigger] all[i]).index < (#[trigger] all[j]).index,
        forall|i: int| 0 <= i < all.len() ==> (#[trigger] all[i]).index < end,
        all.len() > 0,
        all.len() == end - all[0].index,
        0 <= i < all.len(),
    ensures
        all[i].index == all[0].index + i,
{
    lemma_numbers_low(all, i);
    lemma_numbers_high(all, end, i);
}

proof fn lemma_numbers_low(all: Seq<Numbered>, i: int)
    requires
        forall|i: int, j: int|
            0 <= i < j < all.len() ==> (#[trigger] all[i]).index < (#[trigger] all[j]).index,
        0 <= i < all.len(),
    ensures
        all[i].index >= all[0].index + i,
    decreases i,
{
    if i > 0 {
        lemma_numbers_low(all, i - 1);
        assert(all[i - 1].index < all[i].index);
    }
}

proof fn lemma_numbers_high(all: Seq<Numbered>, end: u64, i: int)
    requires
        forall|i: int, j: int|
            0 <= i < j < all.len() ==> (#[trigger] all[i]).index < (#[trigger] all[j]).index,
        forall|i: int| 0 <= i < all.len() ==> (#[trigger] all[i]).index < end,
        0 <= i < all.len(),
    ensures
        all[i].index <= end - (all.len() - i),
    decreases all.len() - i,
{
    if i + 1 < all.len() {
        lemma_numbers_high(all, end, i + 1);
        assert(all[i].index < all[i + 1].index);
    }
}

/// A recovered window has no gap: its records carry consecutive numbers up to its end.
pub proof fn law_recovered_is_contiguous(
    all: Seq<Numbered>,
    start: u64,
    end: u64,
    complete: bool,
    i: int,
)
    requires
        forall|i: int, j: int|
            0 <= i < j < all.len() ==> (#[trigger] all[i]).index < (#[trigger] all[j]).index,
        forall|i: int| 0 <= i < all.len() ==> (#[trigger] all[i]).index < end,
        recovers(all, start, end, complete),
        0 <= i < all.len(),
    ensures
        all[i].index == end - all.len() + i,
{
    lemma_numbers(all, end, i);
}

impl Replay {
    /// The window `start..end` as the gathered records give it back, `last` being the newest stored
    /// timeline group. The records must be a contiguous suffix of the window, and all of it where
    /// it must be complete.
    pub fn finish(
        &self,
        timeline: &str,
        start: u64,
        end: u64,
        complete: bool,
        last: Option<u64>,
    ) -> (r: Result<Resume, Error>)
        requires
            self.wf(),
        ensures
            match r {
                Ok(resume) => {
                    &&& recovers(self.all(), start, end, complete)
                    &&& resume.start == start
                    &&& resume.end == end
                    &&& resume.records@ == Seq::new(
                        self.all().len(),
                        |i: int| self.all()[i].record,
                    )
                    &&& match last {
                        Some(sequence) => resume.sequence == sequence + 1,
                        None => resume.sequence == 0,
                    }
                },
                Err(e) => if !recovers(self.all(), start, end, complete) {
                    e@ == ErrorView::Timeline(lost_text(timeline@, start, end))
                } else {
                    last == Some(u64::MAX) && e@ == ErrorView::Overflow
                },
            },
    {
        let first: u64 = if self.records.len() == 0 {
            end
        } else {
            self.records[0].index
        };
        if first > end || self.records.len() as u64 != end - first || (complete && first != start) {
            let mut text = String::new();
            text.append("cannot recover ");
            text.append(timeline);
            text.append(" window ");
            push_decimal(&mut text, start);
            text.append("..");
            push_decimal(&mut text, end);
            text.append(" from the retained checkpoints");
            assert(text@ =~= lost_text(timeline@, start, end));
            return Err(Error::Timeline(text));
        }
        let sequence: u64 = match last {
            Some(sequence) => match sequence.checked_add(1) {
                Some(next) => next,
                None => {
                    return Err(Error::Overflow);
                },
            },
            None => 0,
        };
        let mut records: Vec<Record> = Vec::new();
        let mut i: usize = 0;
        while i < self.records.len()
            invariant
                0 <= i <= self.records@.len(),
                self.all() == self.records@,
                records@.len() == i,
                forall|j: int| 0 <= j < i ==> records@[j] == self.all()[j].record,
            decreases self.records@.len() - i,
        {
            records.push(self.records[i].record);
            i = i + 1;
        }
        assert(records@ =~= Seq::new(self.all().len(), |i: int| self.all()[i].record));
        Ok(Resume { start, end, records, sequence })
    }
}

/// The stored segments of one track.
#[derive(Debug)]
pub struct Listed {
    /// The track, or timeline, the segments belong to.
    pub track: String,
    /// Their ids, in listing order.
    pub ids: Vec<u64>,
}

/// The segments that `keys` lists of `track`, in order.
pub open spec fn ids_of(keys: Seq<Key>, track: Seq<char>) -> Seq<u64>
    decreases keys.len(),
{
    if keys.len() == 0 {
        Seq::empty()
    } else {
        match keys.last()@ {
            KeyView::Segments { track: t, segment } => if t == track {
                ids_of(keys.drop_last(), track).push(segment)
            } else {
                ids_of(keys.drop_last(), track)
            },
            _ => ids_of(keys.drop_last(), track),
        }
    }
}

/// Whether each track is listed once, ascending by name, with exactly its segments, and none is left
/// out.
pub open spec fn inventory(listed: Seq<Listed>, keys: Seq<Key>) -> bool {
    &&& forall|i: int, j: int|
        0 <= i < j < listed.len() ==> sorts_before(
            (#[trigger] listed[i]).track@,
            (#[trigger] listed[j]).track@,
        )
    &&& forall|i: int|
        0 <= i < listed.len() ==> (#[trigger] listed[i]).ids@ == ids_of(keys, listed[i].track@)
            && listed[i].ids@.len() > 0
    &&& forall|track: Seq<char>|
        (#[trigger] ids_of(keys, track)).len() > 0 ==> exists|i: int|
            0 <= i < listed.len() && (#[trigger] listed[i]).track@ == track
}

/// Another segment of a listed track.
proof fn lemma_known_track(
    old_listed: Seq<Listed>,
    listed: Seq<Listed>,
    before: Seq<Key>,
    here: Seq<Key>,
    t: int,
)
    requires
        inventory(old_listed, before),
        here.len() > 0,
        here.drop_last() == before,
        0 <= t < old_listed.len(),
        here.last()@ matches KeyView::Segments { track, segment } && track == old_listed[t].track@
            && listed[t].ids@ == old_listed[t].ids@.push(segment),
        listed.len() == old_listed.len(),
        listed[t].track@ == old_listed[t].track@,
        forall|j: int| 0 <= j < listed.len() && j != t ==> listed[j] == old_listed[j],
    ensures
        inventory(listed, here),
{
    assert forall|i: int, j: int| 0 <= i < j < listed.len() implies sorts_before(
        (#[trigger] listed[i]).track@,
        (#[trigger] listed[j]).track@,
    ) by {
        assert(sorts_before(old_listed[i].track@, old_listed[j].track@));
    }
    assert forall|j: int| 0 <= j < listed.len() implies (#[trigger] listed[j]).ids@ == ids_of(
        here,
        listed[j].track@,
    ) && listed[j].ids@.len() > 0 by {
        assert(old_listed[j].ids@ == ids_of(before, old_listed[j].track@));
        if j < t {
            assert(sorts_before(old_listed[j].track@, old_listed[t].track@));
        } else if t < j {
            assert(sorts_before(old_listed[t].track@, old_listed[j].track@));
        }
        lemma_sorts_irreflexive(old_listed[t].track@);
    }
    assert forall|name: Seq<char>| (#[trigger] ids_of(here, name)).len() > 0 implies exists|j: int|
        0 <= j < listed.len() && (#[trigger] listed[j]).track@ == name by {
        if name == old_listed[t].track@ {
            assert(listed[t].track@ == name);
        } else {
            assert(ids_of(before, name).len() > 0);
            let j = choose|j: int|
                0 <= j < old_listed.len() && (#[trigger] old_listed[j]).track@ == name;
            assert(listed[j].track@ == name);
        }
    }
}

/// The first segment of a track that was not listed yet, in its place.
proof fn lemma_fresh_track(
    old_listed: Seq<Listed>,
    listed: Seq<Listed>,
    before: Seq<Key>,
    here: Seq<Key>,
    t: int,
    fresh: Listed,
)
    requires
        inventory(old_listed, before),
        here.len() > 0,
        here.drop_last() == before,
        0 <= t <= old_listed.len(),
        listed == old_listed.insert(t, fresh),
        here.last()@ matches KeyView::Segments { track, segment } && track == fresh.track@
            && fresh.ids@ == seq![segment],
        forall|j: int| 0 <= j < t ==> sorts_before((#[trigger] old_listed[j]).track@, fresh.track@),
        t < old_listed.len() ==> !sorts_before(old_listed[t].track@, fresh.track@)
            && old_listed[t].track@ != fresh.track@,
    ensures
        inventory(listed, here),
{
    let name = fresh.track@;
    assert forall|j: int| t <= j < old_listed.len() implies sorts_before(
        name,
        (#[trigger] old_listed[j]).track@,
    ) by {
        lemma_sorts_total(old_listed[t].track@, name);
        if t < j {
            assert(sorts_before(old_listed[t].track@, old_listed[j].track@));
            lemma_sorts_transitive(name, old_listed[t].track@, old_listed[j].track@);
        }
    }
    lemma_sorts_irreflexive(name);
    assert forall|i: int, j: int| 0 <= i < j < listed.len() implies sorts_before(
        (#[trigger] listed[i]).track@,
        (#[trigger] listed[j]).track@,
    ) by {
        let a = if i < t {
            i
        } else {
            i - 1
        };
        let b = if j < t {
            j
        } else {
            j - 1
        };
        if i != t {
            assert(listed[i] == old_listed[a]);
        }
        if j != t {
            assert(listed[j] == old_listed[b]);
        }
        if i != t && j != t {
            assert(sorts_before(old_listed[a].track@, old_listed[b].track@));
        }
    }
    if ids_of(before, name).len() > 0 {
        let j = choose|j: int|
            0 <= j < old_listed.len() && (#[trigger] old_listed[j]).track@ == name;
        assert(sorts_before(name, name));
    }
    assert(ids_of(here, name) =~= fresh.ids@);
    assert forall|j: int| 0 <= j < listed.len() implies (#[trigger] listed[j]).ids@ == ids_of(
        here,
        listed[j].track@,
    ) && listed[j].ids@.len() > 0 by {
        if j != t {
            let a = if j < t {
                j
            } else {
                j - 1
            };
            assert(listed[j] == old_listed[a]);
            assert(old_listed[a].ids@ == ids_of(before, old_listed[a].track@));
        }
    }
    assert forall|other: Seq<char>|
        (#[trigger] ids_of(here, other)).len() > 0 implies exists|j: int|
        0 <= j < listed.len() && (#[trigger] listed[j]).track@ == other by {
        if other == name {
            assert(listed[t].track@ == other);
        } else {
            assert(ids_of(before, other).len() > 0);
            let a = choose|a: int|
                0 <= a < old_listed.len() && (#[trigger] old_listed[a]).track@ == other;
            let j = if a < t {
                a
            } else {
                a + 1
            };
            assert(listed[j] == old_listed[a]);
        }
    }
}

/// Sort the listed segment keys by track, ascending by name.
pub fn take_inventory(keys: &Vec<Key>) -> (r: Vec<Listed>)
    ensures
        inventory(r@, keys@),
{
    let mut listed: Vec<Listed> = Vec::new();
    let mut i: usize = 0;
    assert(keys@.take(0) =~= Seq::<Key>::empty());
    while i < keys.len()
        invariant
            0 <= i <= keys@.len(),
            inventory(listed@, keys@.take(i as int)),
        decreases keys@.len() - i,
    {
        let ghost before = keys@.take(i as int);
        let ghost here = keys@.take(i + 1);
        let ghost old_listed = listed@;
        proof {
            assert(here.drop_last() =~= before);
            assert(here.last() == keys@[i as int]);
        }
        match &keys[i] {
            Key::Segments { track, segment } => {
                let mut t: usize = 0;
                while t < listed.len() && is_before(listed[t].track.as_str(), track.as_str())
                    invariant
                        0 <= t <= listed@.len(),
                        listed@ == old_listed,
                        forall|j: int|
                            0 <= j < t ==> sorts_before((#[trigger] listed@[j]).track@, track@),
                    decreases listed@.len() - t,
                {
                    t = t + 1;
                }
                if t < listed.len() && same(listed[t].track.as_str(), track.as_str()) {
                    listed[t].ids.push(*segment);
                    proof {
                        lemma_known_track(old_listed, listed@, before, here, t as int);
                    }
                } else {
                    let mut ids: Vec<u64> = Vec::new();
                    ids.push(*segment);
                    let fresh = Listed { track: track.clone(), ids };
                    listed.insert(t, fresh);
                    proof {
                        assert(fresh.ids@ =~= seq![*segment]);
                        lemma_fresh_track(old_listed, listed@, before, here, t as int, fresh);
                    }
                }
            },
            _ => {
                proof {
                    assert(forall|name: Seq<char>| #[trigger] ids_of(here, name) == ids_of(
                        before,
                        name,
                    ));
                    assert forall|j: int| 0 <= j < listed@.len() implies (
                    #[trigger] listed@[j]).ids@ == ids_of(here, listed@[j].track@)
                        && listed@[j].ids@.len() > 0 by {
                        assert(old_listed[j].ids@ == ids_of(before, old_listed[j].track@));
                    }
                    assert forall|name: Seq<char>|
                        (#[trigger] ids_of(here, name)).len() > 0 implies exists|j: int|
                        0 <= j < listed@.len() && (#[trigger] listed@[j]).track@ == name by {
                        assert(ids_of(before, name).len() > 0);
                    }
                }
            },
        }
        i = i + 1;
    }
    assert(keys@.take(i as int) =~= keys@);
    listed
}

/// The retained timeline of `track` among `tracks`; the last one, where it is there twice.
pub open spec fn resume_of(tracks: Seq<(String, Resume)>, track: Seq<char>) -> Option<Resume>
    decreases tracks.len(),
{
    if tracks.len() == 0 {
        None
    } else if tracks.last().0@ == track {
        Some(tracks.last().1)
    } else {
        resume_of(tracks.drop_last(), track)
    }
}

/// Find the retained timeline of `track`.
fn find_resume<'a>(tracks: &'a Vec<(String, Resume)>, track: &str) -> (r: Option<&'a Resume>)
    ensures
        pointed(r) == resume_of(tracks@, track@),
{
    let mut n: usize = tracks.len();
    assert(tracks@.take(n as int) =~= tracks@);
    while n > 0
        invariant
            0 <= n <= tracks@.len(),
            resume_of(tracks@, track@) == resume_of(tracks@.take(n as int), track@),
        decreases n,
    {
        assert(tracks@.take(n as int).last() == tracks@[n - 1]);
        assert(tracks@.take(n as int).drop_last() =~= tracks@.take(n - 1));
        if same(tracks[n - 1].0.as_str(), track) {
            return Some(&tracks[n - 1].1);
        }
        n = n - 1;
    }
    None
}

/// One listed track's stored objects; a timeline's own are left alone.
pub open spec fn objects_of(listed: Listed) -> Seq<KeyView> {
    if has_suffix(listed.track@, timeline_suffix()) {
        Seq::empty()
    } else {
        Seq::new(
            listed.ids@.len(),
            |i: int| KeyView::Segments { track: listed.track@, segment: listed.ids@[i] },
        )
    }
}

/// Every stored object that is not a timeline's, track by track.
pub open spec fn objects(listed: Seq<Listed>) -> Seq<KeyView>
    decreases listed.len(),
{
    if listed.len() == 0 {
        Seq::empty()
    } else {
        objects(listed.drop_last()) + objects_of(listed.last())
    }
}

/// The first of `keys` that cannot be a key, if any: what is wrong with it.
pub open spec fn first_fault(keys: Seq<KeyView>) -> Option<ErrorView>
    decreases keys.len(),
{
    if keys.len() == 0 {
        None
    } else {
        match first_fault(keys.drop_last()) {
            Some(fault) => Some(fault),
            None => key_fault(keys.last()),
        }
    }
}

/// What becomes of the object at `key`.
pub open spec fn fate_of(key: KeyView, tracks: Seq<(String, Resume)>, complete: bool) -> Fate {
    match key {
        KeyView::Segments { track, segment } => fate(resume_of(tracks, track), complete, segment),
        _ => Fate::Keep,
    }
}

/// Those of `keys` that come to this end, in order.
pub open spec fn fated(
    keys: Seq<KeyView>,
    tracks: Seq<(String, Resume)>,
    complete: bool,
    end: Fate,
) -> Seq<KeyView>
    decreases keys.len(),
{
    if keys.len() == 0 {
        Seq::empty()
    } else {
        let rest = fated(keys.drop_last(), tracks, complete, end);
        if fate_of(keys.last(), tracks, complete) == end {
            rest.push(keys.last())
        } else {
            rest
        }
    }
}

/// What `keys` are.
pub open spec fn keys_of(keys: Seq<Key>) -> Seq<KeyView> {
    Seq::new(keys.len(), |i: int| keys[i]@)
}

/// The stored objects a restarted writer does away with.
#[derive(Debug)]
pub struct Cleanup {
    /// Committed objects no retained record names, such as an interrupted expiration. Deleted after
    /// the grace period.
    pub orphans: Vec<Key>,
    /// Uploads a crash left before their commit. No timeline ever named them, and the resumed
    /// writer reuses their keys.
    pub uncommitted: Vec<Key>,
}

proof fn lemma_first_fault(keys: Seq<KeyView>, more: Seq<KeyView>)
    requires
        first_fault(keys) is Some,
    ensures
        first_fault(keys + more) == first_fault(keys),
    decreases more.len(),
{
    if more.len() == 0 {
        assert(keys + more =~= keys);
    } else {
        lemma_first_fault(keys, more.drop_last());
        assert((keys + more).drop_last() =~= keys + more.drop_last());
    }
}

/// The objects of the first tracks come first among all of them.
proof fn lemma_objects_prefix(listed: Seq<Listed>, n: int) -> (more: Seq<KeyView>)
    requires
        0 <= n <= listed.len(),
    ensures
        objects(listed) == objects(listed.take(n)) + more,
    decreases listed.len(),
{
    if n == listed.len() {
        assert(listed.take(n) =~= listed);
        assert(objects(listed) + Seq::<KeyView>::empty() =~= objects(listed));
        Seq::empty()
    } else {
        let more = lemma_objects_prefix(listed.drop_last(), n);
        assert(listed.drop_last().take(n) =~= listed.take(n));
        let own = objects_of(listed.last());
        assert(objects(listed.take(n)) + more + own =~= objects(listed.take(n)) + (more + own));
        more + own
    }
}

/// Judge every stored object that is not a timeline's, by what was recovered of its track.
pub fn clean_up(listed: &Vec<Listed>, tracks: &Vec<(String, Resume)>, complete: bool) -> (r: Result<
    Cleanup,
    Error,
>)
    ensures
        match r {
            Ok(cleanup) => {
                &&& first_fault(objects(listed@)) is None
                &&& keys_of(cleanup.orphans@) == fated(
                    objects(listed@),
                    tracks@,
                    complete,
                    Fate::Orphan,
                )
                &&& keys_of(cleanup.uncommitted@) == fated(
                    objects(listed@),
                    tracks@,
                    complete,
                    Fate::Uncommitted,
                )
            },
            Err(e) => first_fault(objects(listed@)) == Some(e@),
        },
{
    let mut orphans: Vec<Key> = Vec::new();
    let mut uncommitted: Vec<Key> = Vec::new();
    let ghost mut seen: Seq<KeyView> = Seq::empty();
    let mut t: usize = 0;
    proof {
        assert(listed@.take(0) =~= Seq::<Listed>::empty());
        assert(keys_of(orphans@) =~= Seq::<KeyView>::empty());
        assert(keys_of(uncommitted@) =~= Seq::<KeyView>::empty());
    }
    while t < listed.len()
        invariant
            0 <= t <= listed@.len(),
            seen == objects(listed@.take(t as int)),
            first_fault(seen) is None,
            keys_of(orphans@) == fated(seen, tracks@, complete, Fate::Orphan),
            keys_of(uncommitted@) == fated(seen, tracks@, complete, Fate::Uncommitted),
        decreases listed@.len() - t,
    {
        let one = &listed[t];
        let ghost here = objects(listed@.take(t as int));
        let ghost own = objects_of(*one);
        proof {
            assert(listed@.take(t + 1).drop_last() =~= listed@.take(t as int));
            assert(listed@.take(t + 1).last() == *one);
        }
        if !is_timeline(one.track.as_str()) {
            let resume = find_resume(tracks, one.track.as_str());
            let mut i: usize = 0;
            assert(here + own.take(0) =~= here);
            while i < one.ids.len()
                invariant
                    t < listed@.len(),
                    *one == listed@[t as int],
                    own == objects_of(*one),
                    !has_suffix(one.track@, timeline_suffix()),
                    own.len() == one.ids@.len(),
                    0 <= i <= one.ids@.len(),
                    here == objects(listed@.take(t as int)),
                    seen == here + own.take(i as int),
                    first_fault(seen) is None,
                    pointed(resume) == resume_of(tracks@, one.track@),
                    keys_of(orphans@) == fated(seen, tracks@, complete, Fate::Orphan),
                    keys_of(uncommitted@) == fated(seen, tracks@, complete, Fate::Uncommitted),
                    listed@.take(t + 1).drop_last() == listed@.take(t as int),
                    listed@.take(t + 1).last() == *one,
                decreases one.ids@.len() - i,
            {
                let id: u64 = one.ids[i];
                let ghost before = seen;
                let ghost shown = KeyView::Segments { track: one.track@, segment: id };
                proof {
                    assert(own[i as int] == shown);
                    seen = before.push(shown);
                    assert(seen =~= here + own.take(i + 1));
                    assert(seen.drop_last() =~= before);
                }
                let key = match Key::segments(one.track.clone(), id) {
                    Ok(key) => key,
                    Err(e) => {
                        proof {
                            assert(first_fault(seen) == Some(e@));
                            let more = lemma_objects_prefix(listed@, t + 1);
                            let rest = own.skip(i + 1);
                            assert(objects(listed@.take(t + 1)) =~= seen + rest);
                            assert(seen + rest + more =~= seen + (rest + more));
                            lemma_first_fault(seen, rest + more);
                        }
                        return Err(e);
                    },
                };
                match judge(resume, complete, id) {
                    Fate::Uncommitted => {
                        let ghost list = uncommitted@;
                        uncommitted.push(key);
                        assert(keys_of(uncommitted@) =~= keys_of(list).push(shown));
                    },
                    Fate::Orphan => {
                        let ghost list = orphans@;
                        orphans.push(key);
                        assert(keys_of(orphans@) =~= keys_of(list).push(shown));
                    },
                    Fate::Keep => {},
                }
                i = i + 1;
            }
            assert(own.take(i as int) =~= own);
        } else {
            assert(here + own =~= here);
        }
        t = t + 1;
    }
    assert(listed@.take(t as int) =~= listed@);
    Ok(Cleanup { orphans, uncommitted })
}

/// A timeline has its track's name and `.timeline.z` behind it.
pub proof fn law_timelines_are_named_by_their_track(track: Seq<char>, name: Seq<char>)
    ensures
        timeline_of(track) == track + seq!['.', 't', 'i', 'm', 'e', 'l', 'i', 'n', 'e', '.', 'z'],
        has_suffix(name, timeline_suffix()) <==> exists|t: Seq<char>|
            name == #[trigger] timeline_of(t),
{
    reveal_strlit(".timeline.z");
    assert(timeline_suffix() =~= seq!['.', 't', 'i', 'm', 'e', 'l', 'i', 'n', 'e', '.', 'z']);
    let n = timeline_suffix().len();
    if has_suffix(name, timeline_suffix()) {
        assert(timeline_of(name.take(name.len() - n)) =~= name);
    }
    if exists|t: Seq<char>| name == #[trigger] timeline_of(t) {
        let t = choose|t: Seq<char>| name == #[trigger] timeline_of(t);
        assert(name.skip(name.len() - n) =~= timeline_suffix());
    }
}

/// A segment that no record of a recovered timeline can name yet, since its number is not below the
/// window's end or there is no timeline, is uncommitted. One that the window could name is an orphan
/// where the history is complete and no retained record has its number, and is kept otherwise.
pub proof fn law_segments_are_judged_by_the_records(resume: Resume, complete: bool, id: u64)
    ensures
        fate(None, complete, id) == Fate::Uncommitted,
        match fate(Some(resume), complete, id) {
            Fate::Uncommitted => resume.end <= id,
            Fate::Orphan => id < resume.end && complete && forall|i: int|
                0 <= i < resume.records@.len() ==> (#[trigger] resume.records@[i]).sequence != id,
            Fate::Keep => id < resume.end && (!complete || exists|i: int|
                0 <= i < resume.records@.len() && (#[trigger] resume.records@[i]).sequence == id),
        },
{
}

/// The checkpoints are loaded from the newest one back, each the one before the last. The walk ends
/// at the oldest, at once where the history is not complete, and as soon as a checkpoint restates
/// everything since the offset that the newest one came with.
pub proof fn law_checkpoints_are_loaded_newest_first(walk: Walk, offset: u64, restated: u64)
    requires
        walk.wf(),
        walk.next is Some,
    ensures
        ({
            let after = walked(walk, offset, restated);
            &&& after.wf()
            &&& after.first == walk.first
            &&& after.complete == walk.complete
            &&& walk.needed is None ==> after.needed == Some(offset)
            &&& walk.needed is Some ==> after.needed == walk.needed
            &&& after.next is Some <==> walk.complete && restated > after.needed->0 && walk.first
                < walk.next->0
            &&& after.next is Some ==> after.next->0 + 1 == walk.next->0
        }),
{
}

/// The ids of a track are those of its segment objects, in the order of the listing.
pub proof fn law_an_inventory_lists_the_segments_of_a_track(
    front: Seq<Key>,
    key: Key,
    back: Seq<Key>,
    track: Seq<char>,
)
    ensures
        ids_of(front + back, track) == ids_of(front, track) + ids_of(back, track),
        forall|id: u64|
            key@ == (KeyView::Segments { track, segment: id }) ==> #[trigger] ids_of(
                seq![key],
                track,
            ) == seq![id],
        (forall|id: u64| key@ != (KeyView::Segments { track, segment: id })) ==> ids_of(
            seq![key],
            track,
        ) == Seq::<u64>::empty(),
    decreases back.len(),
{
    reveal_with_fuel(ids_of, 2);
    let one = seq![key];
    assert(one.drop_last() =~= Seq::empty());
    assert(one.last() == key);
    assert forall|id: u64| key@ == (KeyView::Segments { track, segment: id }) implies ids_of(
        one,
        track,
    ) == seq![id] by {
        assert(Seq::<u64>::empty().push(id) =~= seq![id]);
    }
    if forall|id: u64| key@ != (KeyView::Segments { track, segment: id }) {
        if let KeyView::Segments { track: t, segment } = key@ {
            assert(key@ != (KeyView::Segments { track, segment }));
        }
    }
    if back.len() == 0 {
        assert(front + back =~= front);
        assert(ids_of(front, track) + Seq::<u64>::empty() =~= ids_of(front, track));
    } else {
        let init = back.drop_last();
        law_an_inventory_lists_the_segments_of_a_track(front, key, init, track);
        assert((front + back).drop_last() =~= front + init);
        assert((front + back).last() == back.last());
        if let KeyView::Segments { track: t, segment } = back.last()@ {
            assert((ids_of(front, track) + ids_of(init, track)).push(segment) =~= ids_of(
                front,
                track,
            ) + ids_of(init, track).push(segment));
        }
    }
}

/// A track resumes with what was recovered last under its name, and not at all where nothing was.
pub proof fn law_a_track_resumes_with_its_own(tracks: Seq<(String, Resume)>, track: Seq<char>)
    ensures
        match resume_of(tracks, track) {
            Some(resume) => exists|i: int|
                {
                    &&& 0 <= i < tracks.len()
                    &&& (#[trigger] tracks[i]).0@ == track
                    &&& tracks[i].1 == resume
                    &&& forall|j: int| i < j < tracks.len() ==> (#[trigger] tracks[j]).0@ != track
                },
            None => forall|i: int| 0 <= i < tracks.len() ==> (#[trigger] tracks[i]).0@ != track,
        },
    decreases tracks.len(),
{
    if tracks.len() > 0 {
        let last = tracks.len() - 1;
        if tracks[last].0@ == track {
        } else {
            let init = tracks.drop_last();
            law_a_track_resumes_with_its_own(init, track);
            assert forall|i: int| 0 <= i < last implies init[i] == #[trigger] tracks[i] by {}
            if resume_of(tracks, track) is Some {
                let resume = resume_of(tracks, track)->0;
                let i = choose|i: int|
                    {
                        &&& 0 <= i < init.len()
                        &&& (#[trigger] init[i]).0@ == track
                        &&& init[i].1 == resume
                        &&& forall|j: int|
                            i < j < init.len() ==> (#[trigger] init[j]).0@ != track
                    };
                assert(tracks[i].0@ == track);
                assert forall|j: int| i < j < tracks.len() implies (#[trigger] tracks[j]).0@
                    != track by {
                    if j < last {
                        assert(init[j] == tracks[j]);
                    }
                }
            } else {
                assert forall|i: int| 0 <= i < tracks.len() implies (#[trigger] tracks[i]).0@
                    != track by {
                    if i < last {
                        assert(init[i].0@ != track);
                    }
                }
            }
        }
    }
}

/// The objects under judgement are the listed segments of every track but the timelines: track by
/// track, and each track's in the order of its ids.
pub proof fn law_timelines_are_not_judged(front: Seq<Listed>, one: Listed, back: Seq<Listed>)
    ensures
        objects(front + back) == objects(front) + objects(back),
        objects(seq![one]) == objects_of(one),
        (exists|t: Seq<char>| one.track@ == #[trigger] timeline_of(t)) ==> objects_of(one).len()
            == 0,
        (forall|t: Seq<char>| one.track@ != #[trigger] timeline_of(t)) ==> objects_of(one).len()
            == one.ids@.len() && forall|i: int|
            0 <= i < one.ids@.len() ==> #[trigger] objects_of(one)[i] == (KeyView::Segments {
                track: one.track@,
                segment: one.ids@[i],
            }),
    decreases back.len(),
{
    reveal_with_fuel(objects, 2);
    law_timelines_are_named_by_their_track(one.track@, one.track@);
    assert(seq![one].drop_last() =~= Seq::empty());
    assert(Seq::<KeyView>::empty() + objects_of(one) =~= objects_of(one));
    if back.len() == 0 {
        assert(front + back =~= front);
        assert(objects(front) + Seq::<KeyView>::empty() =~= objects(front));
    } else {
        let init = back.drop_last();
        law_timelines_are_not_judged(front, one, init);
        assert((front + back).drop_last() =~= front + init);
        assert((front + back).last() == back.last());
        assert(objects(front) + objects(init) + objects_of(back.last()) =~= objects(front) + (
        objects(init) + objects_of(back.last())));
    }
}

/// A cleanup holds each object under exactly the fate that its track's records give it, in the order
/// of the listing.
pub proof fn law_a_cleanup_parts_objects_by_fate(
    front: Seq<KeyView>,
    track: Seq<char>,
    segment: u64,
    back: Seq<KeyView>,
    tracks: Seq<(String, Resume)>,
    complete: bool,
    end: Fate,
)
    ensures
        fated(front + back, tracks, complete, end) == fated(front, tracks, complete, end) + fated(
            back,
            tracks,
            complete,
            end,
        ),
        ({
            let key = KeyView::Segments { track, segment };
            fated(seq![key], tracks, complete, end) == if fate(
                resume_of(tracks, track),
                complete,
                segment,
            ) == end {
                seq![key]
            } else {
                Seq::<KeyView>::empty()
            }
        }),
    decreases back.len(),
{
    reveal_with_fuel(fated, 2);
    let key = KeyView::Segments { track, segment };
    assert(seq![key].drop_last() =~= Seq::empty());
    assert(Seq::<KeyView>::empty().push(key) =~= seq![key]);
    if back.len() == 0 {
        assert(front + back =~= front);
        assert(fated(front, tracks, complete, end) + Seq::<KeyView>::empty() =~= fated(
            front,
            tracks,
            complete,
            end,
        ));
    } else {
        let init = back.drop_last();
        law_a_cleanup_parts_objects_by_fate(front, track, segment, init, tracks, complete, end);
        assert((front + back).drop_last() =~= front + init);
        assert((front + back).last() == back.last());
        assert((fated(front, tracks, complete, end) + fated(init, tracks, complete, end)).push(
            back.last(),
        ) =~= fated(front, tracks, complete, end) + fated(init, tracks, complete, end).push(
            back.last(),
        ));
    }
}

/// The fault of a list of keys is that of the first key that has one.
pub proof fn law_the_first_fault_counts(keys: Seq<KeyView>)
    ensures
        match first_fault(keys) {
            None => forall|i: int| 0 <= i < keys.len() ==> key_fault(#[trigger] keys[i]) is None,
            Some(fault) => exists|i: int|
                {
                    &&& 0 <= i < keys.len()
                    &&& key_fault(#[trigger] keys[i]) == Some(fault)
                    &&& forall|j: int| 0 <= j < i ==> key_fault(#[trigger] keys[j]) is None
                },
        },
    decreases keys.len(),
{
    if keys.len() > 0 {
        let init = keys.drop_last();
        law_the_first_fault_counts(init);
        assert forall|i: int| 0 <= i < init.len() implies init[i] == #[trigger] keys[i] by {}
        if first_fault(init) is Some {
            let fault = first_fault(init)->0;
            let i = choose|i: int|
                {
                    &&& 0 <= i < init.len()
                    &&& key_fault(#[trigger] init[i]) == Some(fault)
                    &&& forall|j: int| 0 <= j < i ==> key_fault(#[trigger] init[j]) is None
                };
            assert(key_fault(keys[i]) == Some(fault));
            assert forall|j: int| 0 <= j < i implies key_fault(#[trigger] keys[j]) is None by {
                assert(init[j] == keys[j]);
            }
        } else {
            assert forall|j: int| 0 <= j < init.len() implies key_fault(
                #[trigger] keys[j],
            ) is None by {
                assert(init[j] == keys[j]);
            }
            assert(keys[keys.len() - 1] == keys.last());
        }
    }
}

/// Records that are numbered without a gap up to the window's end are recovered, all of them from the
/// window's start where the history is complete. Without records that is an empty window alone.
pub proof fn law_contiguous_records_are_recovered(
    all: Seq<Numbered>,
    start: u64,
    end: u64,
    complete: bool,
)
    ensures
        all.len() == 0 ==> (recovers(all, start, end, complete) <==> (complete ==> start == end)),
        all.len() > 0 && (forall|i: int|
            0 <= i < all.len() ==> (#[trigger] all[i]).index == end - all.len() + i) ==> (recovers(
            all,
            start,
            end,
            complete,
        ) <==> (complete ==> all[0].index == start)),
{
}

/// An inventory names each track that has segment objects once, in the order of their names, with
/// the ids of exactly these objects.
pub proof fn law_an_inventory_holds_every_segment_object(
    listed: Seq<Listed>,
    keys: Seq<Key>,
    track: Seq<char>,
    id: u64,
)
    requires
        inventory(listed, keys),
    ensures
        (exists|k: int|
            0 <= k < keys.len() && (#[trigger] keys[k])@ == (KeyView::Segments {
                track,
                segment: id,
            })) <==> exists|i: int|
            0 <= i < listed.len() && (#[trigger] listed[i]).track@ == track
                && listed[i].ids@.contains(id),
        forall|i: int, j: int|
            0 <= i < j < listed.len() ==> sorts_before(
                (#[trigger] listed[i]).track@,
                (#[trigger] listed[j]).track@,
            ),
{
    lemma_ids_hold(keys, track, id);
    if exists|k: int|
        0 <= k < keys.len() && (#[trigger] keys[k])@ == (KeyView::Segments { track, segment: id }) {
        assert(ids_of(keys, track).contains(id));
        assert(ids_of(keys, track).len() > 0);
        let i = choose|i: int| 0 <= i < listed.len() && (#[trigger] listed[i]).track@ == track;
        assert(listed[i].ids@ == ids_of(keys, track));
    }
    if exists|i: int|
        0 <= i < listed.len() && (#[trigger] listed[i]).track@ == track && listed[i].ids@.contains(
            id,
        ) {
        let i = choose|i: int|
            0 <= i < listed.len() && (#[trigger] listed[i]).track@ == track
                && listed[i].ids@.contains(id);
        assert(listed[i].ids@ == ids_of(keys, track));
    }
}

proof fn lemma_ids_hold(keys: Seq<Key>, track: Seq<char>, id: u64)
    ensures
        ids_of(keys, track).contains(id) <==> exists|k: int|
            0 <= k < keys.len() && (#[trigger] keys[k])@ == (KeyView::Segments {
                track,
                segment: id,
            }),
    decreases keys.len(),
{
    if keys.len() > 0 {
        let init = keys.drop_last();
        let last = keys.len() - 1;
        lemma_ids_hold(init, track, id);
        let some = ids_of(init, track);
        let all = ids_of(keys, track);
        let wanted = KeyView::Segments { track, segment: id };
        if keys[last]@ == wanted {
            assert(all[all.len() - 1] == id);
        }
        if some.contains(id) {
            let j = choose|j: int| 0 <= j < some.len() && some[j] == id;
            assert(all[j] == id);
            let k = choose|k: int| 0 <= k < init.len() && (#[trigger] init[k])@ == wanted;
            assert(keys[k]@ == wanted);
        }
        if all.contains(id) && !some.contains(id) {
            let j = choose|j: int| 0 <= j < all.len() && all[j] == id;
            if j < some.len() {
                assert(some[j] == id);
            }
            assert(keys[last]@ == wanted);
        }
        if exists|k: int| 0 <= k < keys.len() && (#[trigger] keys[k])@ == wanted {
            let k = choose|k: int| 0 <= k < keys.len() && (#[trigger] keys[k])@ == wanted;
            if k < last {
                assert(init[k]@ == wanted);
            }
        }
    }
}

} // verus!
