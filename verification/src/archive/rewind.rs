//! Seek a track back into its recording, then follow it live again.
//!
//! The timeline decides what is requested. A group it never advertised, one that expired before its
//! turn, or one whose fetch is not found is skipped like any other gap. Once the next group is newer
//! than anything advertised, the track is read live from that group on.

use super::error::{Error, ErrorView};
use super::id::id_in_range;
use super::index::{
    distinct_tracks, in_spans, kept, law_a_span_commits_what_its_runs_hold,
    law_an_advertised_span_is_added_where_it_fits, law_leading_spans_start_at_or_before_the_point,
    leading, overlaps, placed, released, runs_sound, Advert, Index, SpanView,
};
use super::timeline::Position;
use crate::time::{Duration, Timestamp};
use vstd::prelude::*;

verus! {

/// A change of the recording's timeline.
#[derive(Debug)]
pub enum Event {
    /// The record at `index` was appended.
    Push {
        /// The record's place in the window.
        index: u64,
        /// What it advertises.
        advert: Advert,
    },
    /// The records `from..to` left the window.
    Pop {
        /// The first record that left.
        from: u64,
        /// One past the last record that left.
        to: u64,
    },
    /// Another event, which changes nothing.
    Other,
    /// The timeline ended. The advertised groups stay servable.
    Ended,
    /// Reading the timeline failed.
    Failed(String),
}

impl Event {
    /// Whether a record names each track once.
    pub open spec fn wf(self) -> bool {
        match self {
            Event::Push { advert, .. } => distinct_tracks(advert.tracks@),
            _ => true,
        }
    }
}

/// What the recording side of a track does next.
#[derive(Clone, Copy, Debug, PartialEq, Eq, Structural)]
pub enum Step {
    /// Fetch this group.
    Fetch(u64),
    /// This group is being fetched.
    Await(u64),
    /// Nothing newer is advertised.
    CaughtUp,
}

/// How a fetch ended.
#[derive(Debug)]
pub enum Fetched {
    /// The group is there.
    Found,
    /// It expired, or became unreadable, since the timeline advertised it.
    Missing,
    /// The fetch failed.
    Failed(String),
}

/// Whether `groups` ascend strictly and all come before `next`.
pub open spec fn ascending_below(groups: Seq<u64>, next: u64) -> bool {
    &&& forall|i: int| 0 <= i < groups.len() ==> (#[trigger] groups[i]) < next
    &&& forall|i: int, j: int|
        0 <= i < j < groups.len() ==> (#[trigger] groups[i]) < (#[trigger] groups[j])
}

/// The recording side of a track: the timeline it follows and the next group to fetch.
pub struct Archive {
    name: String,
    index: Index,
    /// Whether the timeline is still read.
    following: bool,
    /// The lowest group not yet returned or skipped.
    next: u64,
    fetching: Option<u64>,
    /// The groups returned so far.
    returned: Ghost<Seq<u64>>,
}

impl Archive {
    /// The track's name.
    pub closed spec fn name(self) -> Seq<char> {
        self.name@
    }

    /// What the timeline advertises.
    pub closed spec fn index(self) -> Index {
        self.index
    }

    /// The lowest group not yet returned or skipped.
    pub closed spec fn next(self) -> u64 {
        self.next
    }

    /// The group being fetched.
    pub closed spec fn fetching(self) -> Option<u64> {
        self.fetching
    }

    /// Whether the timeline is still read.
    pub closed spec fn following(self) -> bool {
        self.following
    }

    /// The groups returned so far, in order.
    pub closed spec fn returned(self) -> Seq<u64> {
        self.returned@
    }

    /// Whether the state is consistent: every group returned so far comes before the next one, in
    /// ascending order, and the group being fetched does not.
    pub open spec fn wf(self) -> bool {
        &&& self.index().wf()
        &&& match self.fetching() {
            Some(group) => self.next() <= group && id_in_range(group),
            None => true,
        }
        &&& ascending_below(self.returned(), self.next())
    }

    /// Follow `name` on a timeline that advertised nothing yet.
    pub fn new(name: String) -> (r: Self)
        ensures
            r.wf(),
            r.name() == name@,
            r.following(),
            r.next() == 0,
            r.fetching() is None,
            r.returned() == Seq::<u64>::empty(),
            forall|track: Seq<char>| !(#[trigger] r.index().known(track)),
    {
        Archive {
            name,
            index: Index::new(),
            following: true,
            next: 0,
            fetching: None,
            returned: Ghost(Seq::empty()),
        }
    }

    /// Apply one change of the timeline.
    pub fn apply(&mut self, event: Event) -> (r: Result<(), Error>)
        requires
            old(self).wf(),
            event.wf(),
        ensures
            final(self).wf(),
            final(self).name() == old(self).name(),
            final(self).next() == old(self).next(),
            final(self).fetching() == old(self).fetching(),
            final(self).returned() == old(self).returned(),
            final(self).following() == (old(self).following() && event !is Ended),
            match event {
                Event::Push { index, advert } => r is Ok && pushed(
                    old(self).index(),
                    final(self).index(),
                    index,
                    advert,
                ),
                Event::Pop { from, to } => r is Ok && popped(
                    old(self).index(),
                    final(self).index(),
                    from,
                    to,
                ),
                Event::Failed(text) => r is Err && r->Err_0@ == ErrorView::Timeline(text@)
                    && final(self).index() == old(self).index(),
                _ => r is Ok && final(self).index() == old(self).index(),
            },
    {
        match event {
            Event::Push { index, advert } => {
                self.index.push(index, &advert);
                Ok(())
            },
            Event::Pop { from, to } => {
                let _ = self.index.pop(from, to);
                Ok(())
            },
            Event::Other => Ok(()),
            Event::Ended => {
                self.following = false;
                Ok(())
            },
            Event::Failed(text) => Err(Error::Timeline(text)),
        }
    }

    /// Start at the segment containing `at`, in timeline units. Without an advertised segment of
    /// the track nothing is started, and the track is read from the live edge.
    pub fn seek(&mut self, at: u64) -> (r: bool)
        requires
            old(self).wf(),
            old(self).returned().len() == 0,
            old(self).fetching() is None,
        ensures
            final(self).wf(),
            final(self).name() == old(self).name(),
            final(self).index() == old(self).index(),
            final(self).following() == old(self).following(),
            final(self).fetching() is None,
            final(self).returned() == old(self).returned(),
            ({
                let spans = old(self).index().spans(old(self).name());
                let n = leading(spans, at);
                if spans.len() == 0 {
                    !r && final(self).next() == old(self).next()
                } else {
                    r && final(self).next() == spans[if n > 0 { n - 1 } else { 0 }].first()
                }
            }),
    {
        match self.index.seek(self.name.as_str(), at) {
            Some(next) => {
                self.next = next;
                true
            },
            None => false,
        }
    }

    /// Decide what comes next: the least advertised group that was not returned or skipped yet.
    pub fn step(&mut self) -> (r: Step)
        requires
            old(self).wf(),
        ensures
            final(self).wf(),
            final(self).name() == old(self).name(),
            final(self).index() == old(self).index(),
            final(self).following() == old(self).following(),
            final(self).next() == old(self).next(),
            final(self).returned() == old(self).returned(),
            match old(self).fetching() {
                Some(group) => r == Step::Await(group) && final(self).fetching() == Some(group),
                None => match r {
                    Step::Fetch(group) => {
                        &&& group >= old(self).next()
                        &&& old(self).index().commits(old(self).name(), group)
                        &&& forall|g: u64|
                            old(self).next() <= g < group ==> !(#[trigger] old(self).index().commits(old(self).name(), g))
                        &&& final(self).fetching() == Some(group)
                    },
                    Step::CaughtUp => {
                        &&& forall|g: u64|
                            old(self).next() <= g ==> !(#[trigger] old(self).index().commits(
                                old(self).name(),
                                g,
                            ))
                        &&& final(self).fetching() is None
                    },
                    Step::Await(_) => false,
                },
            },
    {
        match self.fetching {
            Some(group) => Step::Await(group),
            None => match self.index.next(self.name.as_str(), self.next) {
                Some(group) => {
                    proof {
                        self.index.lemma_committed_in_range(self.name@, group);
                    }
                    self.fetching = Some(group);
                    Step::Fetch(group)
                },
                None => Step::CaughtUp,
            },
        }
    }

    /// Take in the outcome of the fetch: the group to return, or `None` where it is skipped.
    pub fn fetched(&mut self, outcome: Fetched) -> (r: Result<Option<u64>, Error>)
        requires
            old(self).wf(),
            old(self).fetching() is Some,
        ensures
            final(self).wf(),
            final(self).name() == old(self).name(),
            final(self).index() == old(self).index(),
            final(self).following() == old(self).following(),
            final(self).fetching() is None,
            final(self).next() == old(self).fetching()->0 + 1,
            match outcome {
                Fetched::Found => r == Ok::<Option<u64>, Error>(old(self).fetching()) && final(self).returned() == old(self).returned().push(old(self).fetching()->0),
                Fetched::Missing => r == Ok::<Option<u64>, Error>(None) && final(self).returned()
                    == old(self).returned(),
                Fetched::Failed(text) => r is Err && r->Err_0@ == ErrorView::Moq(text@) && final(self).returned() == old(self).returned(),
            },
    {
        let group: u64 = match self.fetching {
            Some(group) => group,
            None => 0,
        };
        self.fetching = None;
        self.next = group + 1;
        match outcome {
            Fetched::Found => {
                let ghost before = self.returned@;
                self.returned = Ghost(before.push(group));
                Ok(Some(group))
            },
            Fetched::Missing => Ok(None),
            Fetched::Failed(text) => Err(Error::Moq(text)),
        }
    }

    /// Give up the recording side: live groups start at the first group it did not return or skip.
    pub fn finish(self) -> (r: u64)
        requires
            self.wf(),
        ensures
            r == self.next(),
            ascending_below(self.returned(), r),
    {
        self.next
    }
}

/// Whether `after` is `before` with what `advert` advertises at window `index`.
pub open spec fn pushed(before: Index, after: Index, index: u64, advert: Advert) -> bool {
    &&& forall|t: Seq<char>| #[trigger]
        after.known(t) == (before.known(t) || super::index::advertised(advert.tracks@, t))
    &&& forall|t: Seq<char>|
        !super::index::names(advert.tracks@, t) ==> #[trigger] after.spans(t)
            == super::index::released(before.spans(t), index)
    &&& forall|i: int|
        0 <= i < advert.tracks@.len() ==> super::index::placed(
            super::index::released(before.spans((#[trigger] advert.tracks@[i]).0@), index),
            after.spans(advert.tracks@[i].0@),
            advert.tracks@[i].1@,
            advert.pts,
            index,
        )
}

/// Whether `after` is `before` without the records at these window indices.
pub open spec fn popped(before: Index, after: Index, from: u64, to: u64) -> bool {
    &&& forall|t: Seq<char>| #[trigger] after.known(t) == before.known(t)
    &&& forall|t: Seq<char>| #[trigger]
        after.spans(t) == super::index::kept(before.spans(t), from, to)
}

/// How the live track is subscribed to.
#[derive(Clone, Copy, Debug, PartialEq, Eq, Structural)]
pub struct Subscription {
    /// How far to reach back, where not to the live edge alone.
    pub max_age: Option<Duration>,
    /// The first frame wanted.
    pub start: Option<Position>,
}

/// How to subscribe to the live track from `floor`, or from its live edge when `None`. A floor
/// reaches back as far as the publisher keeps groups, but never below itself.
pub fn subscription(floor: Option<u64>) -> (r: Subscription)
    ensures
        match floor {
            Some(group) => r.max_age is Some && r.max_age->0.nanos == u32::MAX * 1_000_000_000
                && r.start == Some(Position { group, frame: 0 }),
            None => r.max_age is None && r.start is None,
        },
{
    match floor {
        Some(group) => Subscription {
            max_age: Some(Duration::from_secs(u32::MAX as u64)),
            start: Some(Position::group(group)),
        },
        None => Subscription { max_age: None, start: None },
    }
}

/// Where a track's groups come from.
pub enum Source {
    /// The recording.
    Archive(Archive),
    /// The live broadcast, once the subscription is accepted. It delivers no group below `floor`.
    Subscribing {
        /// The first group the live broadcast may deliver, or `None` for its live edge.
        floor: Option<u64>,
    },
    /// The live broadcast.
    Live,
}

/// Seeks the tracks of a live broadcast back into its recording.
#[derive(Clone, Copy, Debug, PartialEq, Eq, Structural)]
pub struct Rewind {
    scale: u64,
}

/// One track read from the recording, then from the live broadcast.
pub struct Track {
    /// Where its groups come from.
    pub source: Source,
}

/// Whether `track` was just opened at `at`, in timeline units: at the first group of the newest
/// segment that starts at or before it, of the oldest one where it predates them all, or at the live
/// edge where nothing is advertised.
pub open spec fn opened(archive: Archive, at: u64, track: Track) -> bool {
    let spans = archive.index().spans(archive.name());
    let n = leading(spans, at);
    match track.source {
        Source::Archive(a) => {
            &&& spans.len() > 0
            &&& a.wf()
            &&& a.name() == archive.name()
            &&& a.index() == archive.index()
            &&& a.following() == archive.following()
            &&& a.fetching() is None
            &&& a.returned() == archive.returned()
            &&& a.next() == spans[if n > 0 {
                n - 1
            } else {
                0
            }].first()
        },
        Source::Subscribing { floor } => spans.len() == 0 && floor is None,
        Source::Live => false,
    }
}

impl Track {
    /// Read from the recorded segment containing `at`, or from the live edge where the timeline
    /// advertised no segment of the track.
    pub fn open(archive: Archive, at: u64) -> (r: Self)
        requires
            archive.wf(),
            archive.returned().len() == 0,
            archive.fetching() is None,
        ensures
            opened(archive, at, r),
    {
        let mut archive = archive;
        if archive.seek(at) {
            Track { source: Source::Archive(archive) }
        } else {
            Track { source: Source::Subscribing { floor: None } }
        }
    }

    /// Whether groups now come from the live broadcast rather than the recording.
    pub fn is_live(&self) -> (r: bool)
        ensures
            r == (self.source !is Archive),
    {
        match self.source {
            Source::Archive(_) => false,
            _ => true,
        }
    }

    /// Leave the recording for the live broadcast: it delivers nothing that was already returned or
    /// skipped.
    pub fn caught_up(self) -> (r: Self)
        requires
            match self.source {
                Source::Archive(archive) => archive.wf(),
                _ => true,
            },
        ensures
            match self.source {
                Source::Archive(archive) => r.source == (Source::Subscribing {
                    floor: Some(archive.next()),
                }) && ascending_below(archive.returned(), archive.next()),
                _ => r == self,
            },
    {
        match self.source {
            Source::Archive(archive) => {
                let floor: u64 = archive.finish();
                Track { source: Source::Subscribing { floor: Some(floor) } }
            },
            source => Track { source },
        }
    }

    /// The subscription was accepted.
    pub fn subscribed(self) -> (r: (Self, Option<u64>))
        ensures
            match self.source {
                Source::Subscribing { floor } => r.0.source is Live && r.1 == floor,
                _ => r.0 == self && r.1 is None,
            },
    {
        match self.source {
            Source::Subscribing { floor } => (Track { source: Source::Live }, floor),
            source => (Track { source }, None),
        }
    }
}

impl Rewind {
    /// Units per second of the recording's timeline.
    pub closed spec fn timescale(self) -> u64 {
        self.scale
    }

    /// Rewind through a recording whose timeline counts `scale` units a second.
    pub fn new(scale: u64) -> (r: Self)
        ensures
            r.timescale() == scale,
    {
        Rewind { scale }
    }

    /// Read the track that `archive` follows from the recorded segment containing `at`, then from
    /// the live broadcast.
    pub fn seek(&self, archive: Archive, at: Timestamp) -> (r: Result<Track, Error>)
        requires
            archive.wf(),
            archive.returned().len() == 0,
            archive.fetching() is None,
            at.wf(),
        ensures
            match r {
                Ok(track) => {
                    &&& self.timescale() > 0
                    &&& 0 <= at.units(self.timescale() as int) <= u64::MAX
                    &&& opened(archive, at.units(self.timescale() as int) as u64, track)
                },
                Err(e) => e@ == (if self.timescale() == 0 {
                    ErrorView::Timescale(0)
                } else {
                    ErrorView::Overflow
                }) && (self.timescale() == 0 || at.units(self.timescale() as int) > u64::MAX),
            },
    {
        if self.scale == 0 {
            return Err(Error::Timescale(0));
        }
        let value: u128 = at.as_scale(self.scale);
        if value > u64::MAX as u128 {
            return Err(Error::Overflow);
        }
        Ok(Track::open(archive, value as u64))
    }
}

/// A track opens at the first group of a segment: the last of those that start at or before the
/// point without a later one between, or the oldest where all start after it. Where nothing is
/// advertised, it opens at the live edge.
pub proof fn law_a_track_opens_at_the_segment_of_the_point(archive: Archive, at: u64, track: Track)
    requires
        opened(archive, at, track),
    ensures
        ({
            let spans = archive.index().spans(archive.name());
            match track.source {
                Source::Archive(a) => exists|i: int|
                    {
                        &&& 0 <= i < spans.len()
                        &&& a.next() == (#[trigger] spans[i]).runs[0].start
                        &&& forall|j: int| 0 <= j <= i ==> (#[trigger] spans[j]).pts <= at || (i
                            == 0 && spans[0].pts > at)
                        &&& i + 1 < spans.len() && spans[0].pts <= at ==> spans[i + 1].pts > at
                    },
                Source::Subscribing { floor } => spans.len() == 0 && floor is None,
                Source::Live => false,
            }
        }),
{
    let spans = archive.index().spans(archive.name());
    if let Source::Archive(a) = track.source {
        law_leading_spans_start_at_or_before_the_point(spans, at);
        let n = leading(spans, at);
        let i = if n > 0 {
            n - 1
        } else {
            0
        };
        assert(a.next() == spans[i].runs[0].start);
    }
}

/// A group is committed after a pop exactly where a span commits it that came with a record at none
/// of the popped indices, and every track that was known stays known.
pub proof fn law_a_pop_keeps_what_other_records_committed(
    before: Index,
    after: Index,
    from: u64,
    to: u64,
    track: Seq<char>,
    group: u64,
)
    requires
        popped(before, after, from, to),
    ensures
        after.known(track) == before.known(track),
        after.commits(track, group) <==> exists|i: int|
            {
                &&& 0 <= i < before.spans(track).len()
                &&& (#[trigger] before.spans(track)[i]).has(group)
                &&& before.spans(track)[i].owner is None || before.spans(track)[i].owner->0 < from
                    || to <= before.spans(track)[i].owner->0
            },
{
    assert(after.spans(track) == kept(before.spans(track), from, to));
    lemma_kept_commits(before.spans(track), from, to, group);
}

proof fn lemma_kept_commits(spans: Seq<SpanView>, from: u64, to: u64, group: u64)
    ensures
        in_spans(kept(spans, from, to), group) <==> exists|i: int|
            {
                &&& 0 <= i < spans.len()
                &&& (#[trigger] spans[i]).has(group)
                &&& spans[i].owner is None || spans[i].owner->0 < from || to <= spans[i].owner->0
            },
    decreases spans.len(),
{
    if spans.len() > 0 {
        let init = spans.drop_last();
        let last = spans.len() - 1;
        lemma_kept_commits(init, from, to, group);
        let some = kept(init, from, to);
        let all = kept(spans, from, to);
        assert forall|i: int| 0 <= i < last implies init[i] == #[trigger] spans[i] by {}
        if !spans[last].owned_within(from, to) {
            assert forall|i: int| 0 <= i < some.len() implies some[i] == #[trigger] all[i] by {}
            assert(all[some.len() as int] == spans[last]);
            if in_spans(some, group) {
                let i = choose|i: int| 0 <= i < some.len() && (#[trigger] some[i]).has(group);
                assert(all[i].has(group));
            }
            if in_spans(all, group) && !spans[last].has(group) {
                let i = choose|i: int| 0 <= i < all.len() && (#[trigger] all[i]).has(group);
                assert(some[i].has(group));
            }
        }
        if in_spans(some, group) {
            let i = choose|i: int|
                {
                    &&& 0 <= i < init.len()
                    &&& (#[trigger] init[i]).has(group)
                    &&& init[i].owner is None || init[i].owner->0 < from || to <= init[i].owner->0
                };
            assert(spans[i].has(group));
        }
        if exists|i: int|
            {
                &&& 0 <= i < spans.len()
                &&& (#[trigger] spans[i]).has(group)
                &&& spans[i].owner is None || spans[i].owner->0 < from || to <= spans[i].owner->0
            } {
            let i = choose|i: int|
                {
                    &&& 0 <= i < spans.len()
                    &&& (#[trigger] spans[i]).has(group)
                    &&& spans[i].owner is None || spans[i].owner->0 < from || to
                        <= spans[i].owner->0
                };
            if i < last {
                assert(init[i].has(group));
            }
        }
    }
}

/// A record commits, of each track that it names with runs that fit, the groups of those runs beside
/// the ones that were committed before. It takes no group away from any track.
pub proof fn law_a_record_commits_the_groups_of_its_runs(
    before: Index,
    after: Index,
    index: u64,
    advert: Advert,
    i: int,
    group: u64,
)
    requires
        pushed(before, after, index, advert),
        0 <= i < advert.tracks@.len(),
    ensures
        ({
            let track = advert.tracks@[i].0@;
            let runs = advert.tracks@[i].1@;
            let free = forall|j: int|
                0 <= j < before.spans(track).len() ==> runs[runs.len() - 1].end < (
                #[trigger] before.spans(track)[j]).first() || before.spans(track)[j].last()
                    < runs[0].start;
            after.commits(track, group) <==> before.commits(track, group) || (runs_sound(runs)
                && free && exists|k: int|
                0 <= k < runs.len() && (#[trigger] runs[k]).start <= group <= runs[k].end)
        }),
{
    let track = advert.tracks@[i].0@;
    let runs = advert.tracks@[i].1@;
    let was = before.spans(track);
    let base = released(was, index);
    let now = after.spans(track);
    assert(placed(base, now, runs, advert.pts, index));
    law_an_advertised_span_is_added_where_it_fits(base, now, runs, advert.pts, index);
    assert forall|j: int| 0 <= j < was.len() implies (#[trigger] base[j]).runs == was[j].runs by {}
    assert forall|j: int| 0 <= j < was.len() implies (#[trigger] was[j]).runs == base[j].runs by {}
    assert(in_spans(base, group) == in_spans(was, group)) by {
        if in_spans(was, group) {
            let j = choose|j: int| 0 <= j < was.len() && (#[trigger] was[j]).has(group);
            assert(base[j].has(group));
        }
        if in_spans(base, group) {
            let j = choose|j: int| 0 <= j < base.len() && (#[trigger] base[j]).has(group);
            assert(was[j].has(group));
        }
    }
    let span = SpanView { runs, pts: advert.pts, owner: Some(index) };
    law_a_span_commits_what_its_runs_hold(span, group);
    if runs_sound(runs) && !overlaps(base, span) {
        let k = choose|k: int| 0 <= k <= base.len() && now == #[trigger] base.insert(k, span);
        assert(now[k] == span);
        if in_spans(base, group) {
            let j = choose|j: int| 0 <= j < base.len() && (#[trigger] base[j]).has(group);
            assert(now[if j < k {
                j
            } else {
                j + 1
            }] == base[j]);
        }
        if in_spans(now, group) && !span.has(group) {
            let j = choose|j: int| 0 <= j < now.len() && (#[trigger] now[j]).has(group);
            assert(base[if j < k {
                j
            } else {
                j - 1
            }] == now[j]);
        }
        assert forall|j: int| 0 <= j < was.len() implies runs[runs.len() - 1].end < (
        #[trigger] was[j]).first() || was[j].last() < runs[0].start by {
            assert(base[j].runs == was[j].runs);
            assert(!(base[j].first() <= span.last() && span.first() <= base[j].last()));
        }
    } else if runs_sound(runs) {
        let j = choose|j: int|
            0 <= j < base.len() && (#[trigger] base[j]).first() <= span.last() && span.first()
                <= base[j].last();
        assert(was[j].runs == base[j].runs);
    }
}

} // verus!
