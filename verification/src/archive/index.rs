//! What timeline records advertise: each track's stored spans, found by group and by time.

use super::id::{check_range, id_in_range};
use crate::text::same;
use vstd::prelude::*;

verus! {

/// An inclusive run of group sequences.
#[derive(Clone, Copy, Debug, PartialEq, Eq, Structural)]
pub struct Run {
    /// The first group.
    pub start: u64,
    /// The last group.
    pub end: u64,
}

impl Run {
    /// The groups from `start` to `end`.
    pub fn new(start: u64, end: u64) -> (r: Self)
        ensures
            r == (Run { start, end }),
    {
        Run { start, end }
    }

    /// Whether `group` is in the run.
    pub open spec fn has(self, group: u64) -> bool {
        self.start <= group <= self.end
    }
}

/// What a timeline record advertises: each track with its runs of groups.
#[derive(Debug)]
pub struct Advert {
    /// The record's start, in timeline units.
    pub pts: u64,
    /// Each track with its runs.
    pub tracks: Vec<(String, Vec<Run>)>,
}

/// One track's stored object for one record: its bounds and the exact runs it holds.
#[derive(Debug, PartialEq, Eq)]
pub struct Span {
    /// The advertised runs, ascending and nonoverlapping; groups between them never existed.
    pub runs: Vec<Run>,
    /// The advertising record's start, in timeline units.
    pub pts: u64,
    /// The window index of the record that added the span, until another record takes the index.
    pub owner: Option<u64>,
}

/// Whether `runs` can be advertised: at least one, each in range and not reversed, ascending and
/// nonoverlapping.
pub open spec fn runs_sound(runs: Seq<Run>) -> bool {
    &&& runs.len() > 0
    &&& forall|i: int|
        0 <= i < runs.len() ==> (#[trigger] runs[i]).start <= runs[i].end && id_in_range(
            runs[i].end,
        )
    &&& forall|i: int, j: int|
        0 <= i < j < runs.len() ==> (#[trigger] runs[i]).end < (#[trigger] runs[j]).start
}

/// Whether some run holds `group`.
pub open spec fn in_runs(runs: Seq<Run>, group: u64) -> bool {
    exists|i: int| 0 <= i < runs.len() && (#[trigger] runs[i]).has(group)
}

/// What a span advertises.
#[verifier::ext_equal]
pub struct SpanView {
    pub runs: Seq<Run>,
    pub pts: u64,
    pub owner: Option<u64>,
}

impl SpanView {
    /// The smallest group.
    pub open spec fn first(self) -> u64 {
        self.runs[0].start
    }

    /// The largest group.
    pub open spec fn last(self) -> u64 {
        self.runs.last().end
    }

    /// Whether the span commits `group`.
    pub open spec fn has(self, group: u64) -> bool {
        in_runs(self.runs, group)
    }

    /// Whether the record that added the span is at one of these window indices.
    pub open spec fn owned_within(self, from: u64, to: u64) -> bool {
        self.owner is Some && from <= self.owner->0 < to
    }
}

impl View for Span {
    type V = SpanView;

    open spec fn view(&self) -> SpanView {
        SpanView { runs: self.runs@, pts: self.pts, owner: self.owner }
    }
}

/// Whether `spans` are sound, ascending and nonoverlapping.
pub open spec fn spans_sound(spans: Seq<SpanView>) -> bool {
    &&& forall|i: int| 0 <= i < spans.len() ==> runs_sound((#[trigger] spans[i]).runs)
    &&& forall|i: int, j: int|
        0 <= i < j < spans.len() ==> (#[trigger] spans[i]).last() < (#[trigger] spans[j]).first()
}

/// Whether some span commits `group`.
pub open spec fn in_spans(spans: Seq<SpanView>, group: u64) -> bool {
    exists|i: int| 0 <= i < spans.len() && (#[trigger] spans[i]).has(group)
}

/// Whether `span` shares part of its bounds with one of `spans`.
pub open spec fn overlaps(spans: Seq<SpanView>, span: SpanView) -> bool {
    exists|i: int|
        0 <= i < spans.len() && (#[trigger] spans[i]).first() <= span.last() && span.first()
            <= spans[i].last()
}

/// `spans` once another record takes window `index`: a pop of it will not evict them any more.
pub open spec fn released(spans: Seq<SpanView>, index: u64) -> Seq<SpanView> {
    Seq::new(
        spans.len(),
        |i: int|
            if spans[i].owner == Some(index) {
                SpanView { owner: None, ..spans[i] }
            } else {
                spans[i]
            },
    )
}

/// Whether `after` is `before` with what `runs` advertise at window `index`: nothing where they are
/// malformed or overlap, else one more span, in its place.
pub open spec fn placed(
    before: Seq<SpanView>,
    after: Seq<SpanView>,
    runs: Seq<Run>,
    pts: u64,
    index: u64,
) -> bool {
    let span = SpanView { runs, pts, owner: Some(index) };
    if !runs_sound(runs) || overlaps(before, span) {
        after == before
    } else {
        exists|k: int| 0 <= k <= before.len() && after == #[trigger] before.insert(k, span)
    }
}

/// How many of the first spans start at or before `pts`.
pub open spec fn leading(spans: Seq<SpanView>, pts: u64) -> int
    decreases spans.len(),
{
    if spans.len() == 0 || spans[0].pts > pts {
        0
    } else {
        1 + leading(spans.skip(1), pts)
    }
}

proof fn lemma_leading(spans: Seq<SpanView>, pts: u64, n: int)
    requires
        0 <= n <= spans.len(),
        forall|i: int| 0 <= i < n ==> (#[trigger] spans[i]).pts <= pts,
        n < spans.len() ==> spans[n].pts > pts,
    ensures
        leading(spans, pts) == n,
    decreases n,
{
    if n > 0 {
        assert(spans[0].pts <= pts);
        let rest = spans.skip(1);
        assert forall|i: int| 0 <= i < n - 1 implies (#[trigger] rest[i]).pts <= pts by {
            assert(rest[i] == spans[i + 1]);
        }
        lemma_leading(rest, pts, n - 1);
    }
}

proof fn lemma_released_sound(spans: Seq<SpanView>, index: u64)
    requires
        spans_sound(spans),
    ensures
        spans_sound(released(spans, index)),
{
    let after = released(spans, index);
    assert forall|i: int| 0 <= i < after.len() implies runs_sound((#[trigger] after[i]).runs) by {
        assert(after[i].runs == spans[i].runs);
    }
    assert forall|i: int, j: int| 0 <= i < j < after.len() implies (#[trigger] after[i]).last() < (
    #[trigger] after[j]).first() by {
        assert(spans[i].last() < spans[j].first());
    }
}

/// Whether each track is named once.
pub open spec fn distinct_tracks(tracks: Seq<(String, Vec<Run>)>) -> bool {
    forall|i: int, j: int|
        0 <= i < j < tracks.len() ==> (#[trigger] tracks[i]).0@ != (#[trigger] tracks[j]).0@
}

/// Whether a record names the track.
pub open spec fn names(tracks: Seq<(String, Vec<Run>)>, track: Seq<char>) -> bool {
    exists|i: int| 0 <= i < tracks.len() && (#[trigger] tracks[i]).0@ == track
}

/// Whether a record advertises well-formed runs of the track.
pub open spec fn advertised(tracks: Seq<(String, Vec<Run>)>, track: Seq<char>) -> bool {
    exists|i: int|
        0 <= i < tracks.len() && (#[trigger] tracks[i]).0@ == track && runs_sound(tracks[i].1@)
}

proof fn lemma_advertised_push(
    tracks: Seq<(String, Vec<Run>)>,
    entry: (String, Vec<Run>),
    t: Seq<char>,
)
    ensures
        advertised(tracks.push(entry), t) == (advertised(tracks, t) || entry.0@ == t && runs_sound(
            entry.1@,
        )),
{
    let more = tracks.push(entry);
    if advertised(tracks, t) {
        let i = choose|i: int|
            0 <= i < tracks.len() && (#[trigger] tracks[i]).0@ == t && runs_sound(tracks[i].1@);
        assert(more[i] == tracks[i]);
    }
    if entry.0@ == t && runs_sound(entry.1@) {
        assert(more[tracks.len() as int] == entry);
    }
    if advertised(more, t) {
        let i = choose|i: int|
            0 <= i < more.len() && (#[trigger] more[i]).0@ == t && runs_sound(more[i].1@);
        if i < tracks.len() {
            assert(tracks[i] == more[i]);
        }
    }
}

/// One track's spans.
#[derive(Debug)]
struct Track {
    name: String,
    spans: Vec<Span>,
}

impl Track {
    spec fn spans_view(self) -> Seq<SpanView> {
        Seq::new(self.spans@.len(), |i: int| self.spans@[i]@)
    }
}

/// Whether a pop takes the span out of one of these tracks.
spec fn taken_out(
    tracks: Seq<Track>,
    from: u64,
    to: u64,
    name: Seq<char>,
    span: SpanView,
) -> bool {
    span.owned_within(from, to) && exists|k: int|
        0 <= k < tracks.len() && (#[trigger] tracks[k]).name@ == name
            && tracks[k].spans_view().contains(span)
}

proof fn lemma_taken_out(
    tracks: Seq<Track>,
    i: int,
    from: u64,
    to: u64,
    name: Seq<char>,
    span: SpanView,
)
    requires
        0 <= i < tracks.len(),
    ensures
        taken_out(tracks.take(i + 1), from, to, name, span) == (taken_out(
            tracks.take(i),
            from,
            to,
            name,
            span,
        ) || name == tracks[i].name@ && tracks[i].spans_view().contains(span) && span.owned_within(
            from,
            to,
        )),
{
    let taken = tracks.take(i);
    let more = tracks.take(i + 1);
    if taken_out(more, from, to, name, span) {
        let k = choose|k: int|
            0 <= k < more.len() && (#[trigger] more[k]).name@ == name
                && more[k].spans_view().contains(span);
        if k < i {
            assert(taken[k] == more[k]);
        }
    }
    if taken_out(taken, from, to, name, span) {
        let k = choose|k: int|
            0 <= k < taken.len() && (#[trigger] taken[k]).name@ == name
                && taken[k].spans_view().contains(span);
        assert(more[k] == taken[k]);
    }
    assert(more[i] == tracks[i]);
}

/// The committed group ranges advertised by the replayed timeline window.
#[derive(Debug)]
pub struct Index {
    tracks: Vec<Track>,
}

/// Check a record's runs, refusing none, reversed, out-of-range or unordered ones.
fn check_runs(runs: &Vec<Run>) -> (r: bool)
    ensures
        r == runs_sound(runs@),
{
    if runs.len() == 0 {
        return false;
    }
    let mut i: usize = 0;
    while i < runs.len()
        invariant
            0 <= i <= runs@.len(),
            forall|j: int|
                0 <= j < i ==> (#[trigger] runs@[j]).start <= runs@[j].end && id_in_range(
                    runs@[j].end,
                ),
            forall|j: int, k: int|
                0 <= j < k < i ==> (#[trigger] runs@[j]).end < (#[trigger] runs@[k]).start,
        decreases runs@.len() - i,
    {
        let run = runs[i];
        if check_range(run.start, run.end).is_err() {
            assert(!(runs@[i as int].start <= runs@[i as int].end && id_in_range(
                runs@[i as int].end,
            )));
            return false;
        }
        if i > 0 && run.start <= runs[i - 1].end {
            assert(!(runs@[i - 1].end < runs@[i as int].start));
            return false;
        }
        proof {
            if i > 0 {
                assert(runs@[i - 1].end < runs@[i as int].start);
                assert forall|j: int| 0 <= j < i implies (#[trigger] runs@[j]).end
                    < runs@[i as int].start by {
                    assert(runs@[i - 1].start <= runs@[i - 1].end);
                    if j < i - 1 {
                        assert(runs@[j].end < runs@[i - 1].start);
                    }
                }
            }
        }
        i = i + 1;
    }
    true
}

fn copy_runs(runs: &Vec<Run>) -> (r: Vec<Run>)
    ensures
        r@ == runs@,
{
    let mut out: Vec<Run> = Vec::new();
    let mut i: usize = 0;
    while i < runs.len()
        invariant
            0 <= i <= runs@.len(),
            out@ == runs@.take(i as int),
        decreases runs@.len() - i,
    {
        out.push(runs[i]);
        assert(out@ =~= runs@.take(i + 1));
        i = i + 1;
    }
    assert(out@ =~= runs@);
    out
}

/// Whether the span's runs hold `group`.
fn contains(span: &Span, group: u64) -> (r: bool)
    ensures
        r == span@.has(group),
{
    let mut i: usize = 0;
    while i < span.runs.len()
        invariant
            0 <= i <= span.runs@.len(),
            forall|j: int| 0 <= j < i ==> !(#[trigger] span.runs@[j]).has(group),
        decreases span.runs@.len() - i,
    {
        let run = span.runs[i];
        if run.start <= group && group <= run.end {
            assert(span.runs@[i as int].has(group));
            return true;
        }
        assert(!span.runs@[i as int].has(group));
        i = i + 1;
    }
    false
}

/// Every group a span commits is within its bounds.
proof fn lemma_within_bounds(span: SpanView, group: u64)
    requires
        runs_sound(span.runs),
        span.has(group),
    ensures
        span.first() <= group <= span.last(),
{
    let i = choose|i: int| 0 <= i < span.runs.len() && (#[trigger] span.runs[i]).has(group);
    let n = span.runs.len() - 1;
    if i > 0 {
        assert(span.runs[0].end < span.runs[i].start);
        assert(span.runs[0].start <= span.runs[0].end);
    }
    if i < n {
        assert(span.runs[i].end < span.runs[n].start);
        assert(span.runs[n].start <= span.runs[n].end);
    }
}

proof fn lemma_bounds_ordered(span: SpanView)
    requires
        runs_sound(span.runs),
    ensures
        span.first() <= span.last(),
        span.has(span.first()),
{
    assert(span.runs[0].has(span.first()));
    lemma_within_bounds(span, span.first());
}

impl Track {
    /// Give up ownership of the spans that window `index` added.
    fn release(&mut self, index: u64)
        ensures
            final(self).name == old(self).name,
            final(self).spans_view() == released(old(self).spans_view(), index),
    {
        let ghost before = self.spans_view();
        let mut i: usize = 0;
        while i < self.spans.len()
            invariant
                0 <= i <= self.spans@.len(),
                self.name == old(self).name,
                self.spans@.len() == before.len(),
                before == old(self).spans_view(),
                forall|j: int|
                    0 <= j < i ==> (#[trigger] self.spans@[j])@ == released(before, index)[j],
                forall|j: int| i <= j < before.len() ==> (#[trigger] self.spans@[j])@ == before[j],
            decreases self.spans@.len() - i,
        {
            let is_owner: bool = match self.spans[i].owner {
                Some(owner) => owner == index,
                None => false,
            };
            if is_owner {
                let span = Span {
                    runs: copy_runs(&self.spans[i].runs),
                    pts: self.spans[i].pts,
                    owner: None,
                };
                let ghost s = self.spans@;
                assert(span@ == released(before, index)[i as int]);
                self.spans.set(i, span);
                assert forall|j: int| 0 <= j < i implies (#[trigger] self.spans@[j])@ == released(
                    before,
                    index,
                )[j] by {
                    assert(self.spans@[j] == s[j]);
                }
                assert forall|j: int| i < j < before.len() implies (#[trigger] self.spans@[j])@
                    == before[j] by {
                    assert(self.spans@[j] == s[j]);
                }
            }
            i = i + 1;
        }
        assert(self.spans_view() =~= released(before, index));
    }

    /// Add a span in its place, unless it overlaps another.
    fn place(&mut self, span: Span) -> (r: bool)
        requires
            spans_sound(old(self).spans_view()),
            runs_sound(span.runs@),
        ensures
            final(self).name == old(self).name,
            spans_sound(final(self).spans_view()),
            r == !overlaps(old(self).spans_view(), span@),
            if r {
                exists|k: int|
                    0 <= k <= old(self).spans_view().len() && final(self).spans_view()
                        == #[trigger] old(self).spans_view().insert(k, span@)
            } else {
                final(self).spans_view() == old(self).spans_view()
            },
    {
        let ghost before = self.spans_view();
        let ghost view = span@;
        proof {
            lemma_bounds_ordered(view);
        }
        let first: u64 = span.runs[0].start;
        let last: u64 = span.runs[span.runs.len() - 1].end;
        assert forall|j: int| 0 <= j < self.spans@.len() implies runs_sound(
            (#[trigger] self.spans@[j]).runs@,
        ) by {
            assert(before[j] == self.spans@[j]@);
        }
        let mut k: usize = 0;
        while k < self.spans.len() && self.spans[k].runs[self.spans[k].runs.len() - 1].end < first
            invariant
                0 <= k <= self.spans@.len(),
                *self == *old(self),
                before == self.spans_view(),
                spans_sound(before),
                first == view.first(),
                forall|j: int|
                    0 <= j < self.spans@.len() ==> runs_sound((#[trigger] self.spans@[j]).runs@),
                forall|j: int| 0 <= j < k ==> (#[trigger] before[j]).last() < view.first(),
            decreases self.spans@.len() - k,
        {
            assert(before[k as int] == self.spans@[k as int]@);
            k = k + 1;
        }
        if k < self.spans.len() {
            assert(before[k as int] == self.spans@[k as int]@);
            assert(runs_sound(before[k as int].runs));
            if self.spans[k].runs[0].start <= last {
                assert(before[k as int].first() <= view.last() && view.first()
                    <= before[k as int].last());
                return false;
            }
        }
        proof {
            assert forall|j: int| 0 <= j < before.len() implies !((#[trigger] before[j]).first()
                <= view.last() && view.first() <= before[j].last()) by {
                if j > k {
                    assert(before[k as int].last() < before[j].first());
                    lemma_bounds_ordered(before[k as int]);
                }
            }
            let after = before.insert(k as int, view);
            assert forall|i: int, j: int| 0 <= i < j < after.len() implies (
            #[trigger] after[i]).last() < (#[trigger] after[j]).first() by {
                let a = if i < k { i } else { i - 1 };
                let b = if j < k { j } else { j - 1 };
                if i == k {
                    assert(before[b].last() >= view.first());
                    if b > k {
                        assert(before[k as int].last() < before[b].first());
                        lemma_bounds_ordered(before[k as int]);
                    }
                } else if j == k {
                    assert(before[a].last() < view.first());
                } else {
                    assert(before[a].last() < before[b].first());
                }
            }
            assert forall|i: int| 0 <= i < after.len() implies runs_sound(
                (#[trigger] after[i]).runs,
            ) by {
                if i != k {
                    let a = if i < k { i } else { i - 1 };
                    assert(runs_sound(before[a].runs));
                }
            }
        }
        self.spans.insert(k, span);
        assert(self.spans_view() =~= before.insert(k as int, view));
        true
    }
}

/// The spans that stay when these window indices are popped.
pub open spec fn kept(spans: Seq<SpanView>, from: u64, to: u64) -> Seq<SpanView>
    decreases spans.len(),
{
    if spans.len() == 0 {
        Seq::empty()
    } else if spans.last().owned_within(from, to) {
        kept(spans.drop_last(), from, to)
    } else {
        kept(spans.drop_last(), from, to).push(spans.last())
    }
}

proof fn lemma_kept_subset(spans: Seq<SpanView>, from: u64, to: u64)
    requires
        spans_sound(spans),
    ensures
        spans_sound(kept(spans, from, to)),
        forall|i: int|
            0 <= i < kept(spans, from, to).len() ==> spans.contains(
                #[trigger] kept(spans, from, to)[i],
            ),
    decreases spans.len(),
{
    if spans.len() > 0 {
        let init = spans.drop_last();
        assert forall|i: int| 0 <= i < init.len() implies runs_sound((#[trigger] init[i]).runs) by {
            assert(init[i] == spans[i]);
        }
        assert forall|i: int, j: int| 0 <= i < j < init.len() implies (#[trigger] init[i]).last()
            < (#[trigger] init[j]).first() by {
            assert(spans[i].last() < spans[j].first());
        }
        lemma_kept_subset(init, from, to);
        let all = kept(spans, from, to);
        let some = kept(init, from, to);
        let last = spans.len() - 1;
        assert forall|i: int| 0 <= i < some.len() implies spans.contains(#[trigger] some[i])
            && some[i].last() < spans[last].first() by {
            assert(init.contains(some[i]));
            let k = choose|k: int| 0 <= k < init.len() && init[k] == some[i];
            assert(spans[k] == some[i]);
            assert(spans[k].last() < spans[last].first());
        }
        assert forall|i: int| 0 <= i < all.len() implies spans.contains(#[trigger] all[i]) by {
            if i < some.len() {
                assert(all[i] == some[i]);
            } else {
                assert(spans[last] == all[i]);
            }
        }
        assert forall|i: int| 0 <= i < all.len() implies runs_sound((#[trigger] all[i]).runs) by {
            if i < some.len() {
                assert(all[i] == some[i]);
            } else {
                assert(runs_sound(spans[last].runs));
            }
        }
        assert forall|i: int, j: int| 0 <= i < j < all.len() implies (#[trigger] all[i]).last() < (
        #[trigger] all[j]).first() by {
            assert(all[i] == some[i]);
            if j < some.len() {
                assert(all[j] == some[j]);
            } else {
                assert(all[j] == spans[last]);
            }
        }
    }
}

/// The tracks and spans of an eviction.
pub open spec fn evicted_view(evicted: Seq<(String, Span)>) -> Seq<(Seq<char>, SpanView)> {
    Seq::new(evicted.len(), |i: int| (evicted[i].0@, evicted[i].1@))
}

/// Whether an eviction lists spans once each, by ascending window index.
pub open spec fn eviction_ordered(evicted: Seq<(Seq<char>, SpanView)>) -> bool {
    &&& evicted.no_duplicates()
    &&& forall|i: int| 0 <= i < evicted.len() ==> (#[trigger] evicted[i]).1.owner is Some
    &&& forall|i: int, j: int|
        0 <= i < j < evicted.len() ==> (#[trigger] evicted[i]).1.owner->0 <= (
        #[trigger] evicted[j]).1.owner->0
}

/// List one more evicted span.
fn list_evicted(evicted: &mut Vec<(String, Span)>, name: String, span: Span)
    requires
        eviction_ordered(evicted_view(old(evicted)@)),
        span.owner is Some,
        !evicted_view(old(evicted)@).contains((name@, span@)),
    ensures
        eviction_ordered(evicted_view(final(evicted)@)),
        forall|x: (Seq<char>, SpanView)| #[trigger]
            evicted_view(final(evicted)@).contains(x) == (evicted_view(old(evicted)@).contains(x)
                || x == (name@, span@)),
{
    let ghost before = evicted_view(evicted@);
    let ghost item = (name@, span@);
    let owner: u64 = match span.owner {
        Some(owner) => owner,
        None => 0,
    };
    let mut k: usize = evicted.len();
    while k > 0 && later(&evicted[k - 1].1, owner)
        invariant
            0 <= k <= evicted@.len(),
            *evicted == *old(evicted),
            before == evicted_view(evicted@),
            eviction_ordered(before),
            forall|j: int| k <= j < before.len() ==> (#[trigger] before[j]).1.owner->0 > owner,
        decreases k,
    {
        assert(before[k - 1].1 == evicted@[k - 1].1@);
        k = k - 1;
    }
    evicted.insert(k, (name, span));
    proof {
        let after = evicted_view(evicted@);
        assert(after =~= before.insert(k as int, item));
        if k > 0 {
            assert(before[k - 1].1.owner->0 <= owner);
        }
        assert forall|i: int, j: int| 0 <= i < j < after.len() implies (
        #[trigger] after[i]).1.owner->0 <= (#[trigger] after[j]).1.owner->0 by {
            let a = if i < k { i } else { i - 1 };
            let b = if j < k { j } else { j - 1 };
            if i == k {
                assert(before[b].1.owner->0 > owner);
            } else if j == k {
                if a < k - 1 {
                    assert(before[a].1.owner->0 <= before[k - 1].1.owner->0);
                }
            } else {
                assert(before[a].1.owner->0 <= before[b].1.owner->0);
            }
        }
        assert forall|i: int| 0 <= i < after.len() implies (
        #[trigger] after[i]).1.owner is Some by {
            if i != k {
                let a = if i < k { i } else { i - 1 };
                assert(before[a].1.owner is Some);
            }
        }
        assert forall|x: (Seq<char>, SpanView)| #[trigger] after.contains(x) == (before.contains(x)
            || x == item) by {
            if after.contains(x) {
                let i = choose|i: int| 0 <= i < after.len() && after[i] == x;
                if i != k {
                    let a = if i < k { i } else { i - 1 };
                    assert(before[a] == x);
                }
            }
            if before.contains(x) {
                let a = choose|a: int| 0 <= a < before.len() && before[a] == x;
                let i = if a < k { a } else { a + 1 };
                assert(after[i] == x);
            }
            if x == item {
                assert(after[k as int] == x);
            }
        }
        assert forall|i: int, j: int| 0 <= i < after.len() && 0 <= j < after.len() && i
            != j implies after[i] != after[j] by {
            let a = if i < k { i } else { i - 1 };
            let b = if j < k { j } else { j - 1 };
            if i == k {
                assert(before[b] == after[j]);
            } else if j == k {
                assert(before[a] == after[i]);
            } else {
                assert(before[a] != before[b]);
            }
        }
    }
}

/// Whether the span's record came after window `index`.
fn later(span: &Span, index: u64) -> (r: bool)
    ensures
        r == (span.owner is Some && span.owner->0 > index),
{
    match span.owner {
        Some(owner) => owner > index,
        None => false,
    }
}

/// Whether the span's record is at one of these window indices.
fn owned_within(span: &Span, from: u64, to: u64) -> (r: bool)
    ensures
        r == span@.owned_within(from, to),
{
    match span.owner {
        Some(owner) => from <= owner && owner < to,
        None => false,
    }
}

impl Track {
    /// Take out the spans of these window indices, and list them.
    fn evict(&mut self, from: u64, to: u64, evicted: &mut Vec<(String, Span)>)
        requires
            spans_sound(old(self).spans_view()),
            eviction_ordered(evicted_view(old(evicted)@)),
            forall|s: SpanView|
                !(#[trigger] evicted_view(old(evicted)@).contains((old(self).name@, s))),
        ensures
            final(self).name == old(self).name,
            final(self).spans_view() == kept(old(self).spans_view(), from, to),
            eviction_ordered(evicted_view(final(evicted)@)),
            forall|t: Seq<char>, s: SpanView| #[trigger]
                evicted_view(final(evicted)@).contains((t, s)) == (evicted_view(
                    old(evicted)@,
                ).contains((t, s)) || t == old(self).name@ && old(self).spans_view().contains(s)
                    && s.owned_within(from, to)),
    {
        let ghost before = self.spans_view();
        let ghost listed = evicted_view(evicted@);
        let ghost name = self.name@;
        let ghost mut p: int = 0;
        let mut i: usize = 0;
        assert(before.take(0) =~= Seq::empty());
        while i < self.spans.len()
            invariant
                0 <= i <= self.spans@.len(),
                self.name == old(self).name,
                name == old(self).name@,
                before == old(self).spans_view(),
                listed == evicted_view(old(evicted)@),
                spans_sound(before),
                0 <= p <= before.len(),
                self.spans@.len() - i == before.len() - p,
                self.spans_view().take(i as int) == kept(before.take(p), from, to),
                forall|j: int|
                    0 <= j < before.len() - p ==> (#[trigger] self.spans@[i + j])@ == before[p + j],
                eviction_ordered(evicted_view(evicted@)),
                forall|s: SpanView| !(#[trigger] listed.contains((name, s))),
                forall|t: Seq<char>, s: SpanView| #[trigger]
                    evicted_view(evicted@).contains((t, s)) == (listed.contains((t, s)) || t == name
                        && before.take(p).contains(s) && s.owned_within(from, to)),
            decreases self.spans@.len() - i,
        {
            let ghost spans = self.spans@;
            let ghost view = self.spans_view();
            assert(self.spans@[i + 0]@ == before[p + 0]);
            let ghost span = before[p];
            let ghost taken = before.take(p);
            let ghost more = before.take(p + 1);
            assert(more.drop_last() =~= taken);
            assert(more.last() == span);
            proof {
                assert forall|s: SpanView| #[trigger] more.contains(s) == (taken.contains(s) || s
                    == span) by {
                    if taken.contains(s) {
                        let k = choose|k: int| 0 <= k < taken.len() && taken[k] == s;
                        assert(more[k] == s);
                    }
                    if s == span {
                        assert(more[p] == s);
                    }
                    if more.contains(s) {
                        let k = choose|k: int| 0 <= k < more.len() && more[k] == s;
                        if k < p {
                            assert(taken[k] == s);
                        }
                    }
                }
                assert(!taken.contains(span)) by {
                    if taken.contains(span) {
                        let k = choose|k: int| 0 <= k < taken.len() && taken[k] == span;
                        assert(before[k].last() < before[p].first());
                        lemma_bounds_ordered(before[p]);
                    }
                }
            }
            if owned_within(&self.spans[i], from, to) {
                let removed = self.spans.remove(i);
                let ghost prior = evicted_view(evicted@);
                assert(!prior.contains((name, span)));
                list_evicted(evicted, self.name.as_str().to_owned(), removed);
                proof {
                    assert(self.spans_view().take(i as int) =~= view.take(i as int));
                    assert forall|j: int| 0 <= j < before.len() - (p + 1) implies (
                    #[trigger] self.spans@[i + j])@ == before[p + 1 + j] by {
                        assert(self.spans@[i + j] == spans[i + (j + 1)]);
                        assert(spans[i + (j + 1)]@ == before[p + (j + 1)]);
                    }
                    assert forall|t: Seq<char>, s: SpanView| #[trigger]
                        evicted_view(evicted@).contains((t, s)) == (listed.contains((t, s)) || t
                        == name && more.contains(s) && s.owned_within(from, to)) by {
                        assert(prior.contains((t, s)) == (listed.contains((t, s)) || t == name
                            && taken.contains(s) && s.owned_within(from, to)));
                    }
                    p = p + 1;
                }
            } else {
                i = i + 1;
                proof {
                    assert(self.spans_view().take(i as int) =~= view.take(i - 1).push(span));
                    assert forall|j: int| 0 <= j < before.len() - (p + 1) implies (
                    #[trigger] self.spans@[i + j])@ == before[p + 1 + j] by {
                        assert(spans[(i - 1) + (j + 1)]@ == before[p + (j + 1)]);
                    }
                    p = p + 1;
                }
            }
        }
        assert(before.take(p) =~= before);
        assert(self.spans_view().take(i as int) =~= self.spans_view());
    }
}

impl Index {
    /// Whether any replayed record named this track.
    pub closed spec fn known(self, track: Seq<char>) -> bool {
        exists|i: int| 0 <= i < self.tracks@.len() && (#[trigger] self.tracks@[i]).name@ == track
    }

    /// The spans of a track, ascending.
    pub closed spec fn spans(self, track: Seq<char>) -> Seq<SpanView> {
        if self.known(track) {
            let i = choose|i: int|
                0 <= i < self.tracks@.len() && (#[trigger] self.tracks@[i]).name@ == track;
            self.tracks@[i].spans_view()
        } else {
            Seq::empty()
        }
    }

    /// Whether the index is consistent.
    pub closed spec fn wf(self) -> bool {
        &&& forall|i: int|
            0 <= i < self.tracks@.len() ==> spans_sound((#[trigger] self.tracks@[i]).spans_view())
        &&& forall|i: int, j: int|
            0 <= i < j < self.tracks@.len() ==> (#[trigger] self.tracks@[i]).name@ != (
            #[trigger] self.tracks@[j]).name@
    }

    /// Whether the retained window commits `group` on `track`.
    pub open spec fn commits(self, track: Seq<char>, group: u64) -> bool {
        in_spans(self.spans(track), group)
    }

    proof fn lemma_at(self, i: int)
        requires
            self.wf(),
            0 <= i < self.tracks@.len(),
        ensures
            self.known(self.tracks@[i].name@),
            self.spans(self.tracks@[i].name@) == self.tracks@[i].spans_view(),
    {
        let track = self.tracks@[i].name@;
        let j = choose|j: int|
            0 <= j < self.tracks@.len() && (#[trigger] self.tracks@[j]).name@ == track;
        assert(self.tracks@[i].name@ == track);
        if i < j {
            assert(self.tracks@[i].name@ != self.tracks@[j].name@);
        } else if j < i {
            assert(self.tracks@[j].name@ != self.tracks@[i].name@);
        }
    }

    /// Every track's spans are sound, ascending and nonoverlapping.
    pub proof fn lemma_spans_sound(self, track: Seq<char>)
        requires
            self.wf(),
        ensures
            spans_sound(self.spans(track)),
            !self.known(track) ==> self.spans(track).len() == 0,
    {
        if self.known(track) {
            let i = choose|i: int|
                0 <= i < self.tracks@.len() && (#[trigger] self.tracks@[i]).name@ == track;
            self.lemma_at(i);
        }
    }

    /// Every committed group is within the recording id range.
    pub proof fn lemma_committed_in_range(self, track: Seq<char>, group: u64)
        requires
            self.wf(),
            self.commits(track, group),
        ensures
            id_in_range(group),
    {
        self.lemma_spans_sound(track);
        let spans = self.spans(track);
        let i = choose|i: int| 0 <= i < spans.len() && (#[trigger] spans[i]).has(group);
        let runs = spans[i].runs;
        assert(runs_sound(runs));
        let k = choose|k: int| 0 <= k < runs.len() && (#[trigger] runs[k]).has(group);
        assert(id_in_range(runs[k].end));
    }

    /// An index of nothing.
    pub fn new() -> (r: Self)
        ensures
            r.wf(),
            forall|track: Seq<char>| !(#[trigger] r.known(track)),
    {
        Index { tracks: Vec::new() }
    }

    fn find(&self, track: &str) -> (r: usize)
        requires
            self.wf(),
        ensures
            r <= self.tracks@.len(),
            r < self.tracks@.len() <==> self.known(track@),
            r < self.tracks@.len() ==> self.tracks@[r as int].name@ == track@ && self.spans(track@)
                == self.tracks@[r as int].spans_view(),
    {
        let mut i: usize = 0;
        while i < self.tracks.len()
            invariant
                self.wf(),
                0 <= i <= self.tracks@.len(),
                forall|j: int| 0 <= j < i ==> (#[trigger] self.tracks@[j]).name@ != track@,
            decreases self.tracks@.len() - i,
        {
            if same(self.tracks[i].name.as_str(), track) {
                proof {
                    self.lemma_at(i as int);
                }
                return i;
            }
            i = i + 1;
        }
        i
    }

    /// Release window `index` in every track.
    fn release(&mut self, index: u64)
        requires
            old(self).wf(),
        ensures
            final(self).wf(),
            forall|t: Seq<char>| #[trigger] final(self).known(t) == old(self).known(t),
            forall|t: Seq<char>| #[trigger]
                final(self).spans(t) == released(old(self).spans(t), index),
    {
        let ghost before = self.tracks@;
        let mut i: usize = 0;
        while i < self.tracks.len()
            invariant
                0 <= i <= self.tracks@.len(),
                self.tracks@.len() == before.len(),
                before == old(self).tracks@,
                forall|j: int|
                    0 <= j < before.len() ==> (#[trigger] self.tracks@[j]).name == before[j].name,
                forall|j: int|
                    0 <= j < i ==> (#[trigger] self.tracks@[j]).spans_view() == released(
                        before[j].spans_view(),
                        index,
                    ),
                forall|j: int|
                    i <= j < before.len() ==> (#[trigger] self.tracks@[j]).spans_view()
                        == before[j].spans_view(),
            decreases self.tracks@.len() - i,
        {
            let ghost s = self.tracks@;
            self.tracks[i].release(index);
            assert forall|j: int| 0 <= j < before.len() && j != i implies #[trigger] self.tracks@[j]
                == s[j] by {}
            assert(s[i as int].spans_view() == before[i as int].spans_view());
            i = i + 1;
        }
        proof {
            assert forall|j: int| 0 <= j < before.len() implies spans_sound(
                (#[trigger] self.tracks@[j]).spans_view(),
            ) by {
                lemma_released_sound(before[j].spans_view(), index);
            }
            assert forall|a: int, b: int| 0 <= a < b < self.tracks@.len() implies (
            #[trigger] self.tracks@[a]).name@ != (#[trigger] self.tracks@[b]).name@ by {
                assert(before[a].name@ != before[b].name@);
            }
            assert(self.wf());
            assert forall|t: Seq<char>| #[trigger] self.known(t) == old(self).known(t) by {
                if self.known(t) {
                    let j = choose|j: int|
                        0 <= j < self.tracks@.len() && (#[trigger] self.tracks@[j]).name@ == t;
                    assert(before[j].name@ == t);
                }
                if old(self).known(t) {
                    let j = choose|j: int|
                        0 <= j < before.len() && (#[trigger] before[j]).name@ == t;
                    assert(self.tracks@[j].name@ == t);
                }
            }
            assert forall|t: Seq<char>| #[trigger] self.spans(t) == released(
                old(self).spans(t),
                index,
            ) by {
                assert(self.known(t) == old(self).known(t));
                if self.known(t) {
                    let j = choose|j: int|
                        0 <= j < self.tracks@.len() && (#[trigger] self.tracks@[j]).name@ == t;
                    assert(before[j].name@ == t);
                    self.lemma_at(j);
                    old(self).lemma_at(j);
                } else {
                    assert(released(old(self).spans(t), index) =~= Seq::empty());
                }
            }
        }
    }

    /// Add one track's runs at window `index`, unless they are malformed or overlap.
    fn add(&mut self, name: &str, runs: &Vec<Run>, pts: u64, index: u64)
        requires
            old(self).wf(),
        ensures
            final(self).wf(),
            forall|t: Seq<char>| #[trigger]
                final(self).known(t) == (old(self).known(t) || t == name@ && runs_sound(runs@)),
            forall|t: Seq<char>|
                t != name@ ==> #[trigger] final(self).spans(t) == old(self).spans(t),
            placed(old(self).spans(name@), final(self).spans(name@), runs@, pts, index),
    {
        if !check_runs(runs) {
            return;
        }
        let span = Span { runs: copy_runs(runs), pts, owner: Some(index) };
        let ghost view = span@;
        let ghost before = self.tracks@;
        let at: usize = self.find(name);
        proof {
            old(self).lemma_spans_sound(name@);
        }
        if at < self.tracks.len() {
            assert(spans_sound(self.tracks@[at as int].spans_view()));
            let _ = self.tracks[at].place(span);
            proof {
                assert forall|j: int| 0 <= j < before.len() && j != at implies #[trigger] self.tracks@[j]
                    == before[j] by {}
                assert forall|j: int| 0 <= j < before.len() implies (#[trigger] self.tracks@[j]).name@
                    == before[j].name@ by {}
            }
        } else {
            let mut spans: Vec<Span> = Vec::new();
            spans.push(span);
            self.tracks.push(Track { name: name.to_owned(), spans });
            proof {
                let n = before.len() as int;
                assert(self.tracks@[n].spans_view() =~= seq![view]);
                assert(old(self).spans(name@) =~= Seq::empty());
                assert(Seq::<SpanView>::empty().insert(0, view) =~= seq![view]);
                assert forall|j: int| 0 <= j < n implies #[trigger] self.tracks@[j] == before[j] by {}
                assert forall|j: int| 0 <= j < n implies (#[trigger] before[j]).name@ != name@ by {}
            }
        }
        proof {
            assert forall|a: int, b: int| 0 <= a < b < self.tracks@.len() implies (
            #[trigger] self.tracks@[a]).name@ != (#[trigger] self.tracks@[b]).name@ by {
                if b < before.len() {
                    assert(before[a].name@ != before[b].name@);
                } else {
                    assert(before[a].name@ != name@);
                }
            }
            assert forall|j: int| 0 <= j < self.tracks@.len() implies spans_sound(
                (#[trigger] self.tracks@[j]).spans_view(),
            ) by {
                if j < before.len() && j != at {
                    assert(spans_sound(before[j].spans_view()));
                }
            }
            assert(self.wf());
            self.lemma_at(at as int);
            assert forall|t: Seq<char>| #[trigger] self.known(t) == (old(self).known(t) || t
                == name@) by {
                if self.known(t) {
                    let j = choose|j: int|
                        0 <= j < self.tracks@.len() && (#[trigger] self.tracks@[j]).name@ == t;
                    if j < before.len() {
                        assert(before[j].name@ == t);
                    }
                }
                if old(self).known(t) {
                    let j = choose|j: int|
                        0 <= j < before.len() && (#[trigger] before[j]).name@ == t;
                    assert(self.tracks@[j].name@ == t);
                }
            }
            assert forall|t: Seq<char>| t != name@ implies #[trigger] self.spans(t) == old(
                self,
            ).spans(t) by {
                assert(self.known(t) == old(self).known(t));
                if self.known(t) {
                    let j = choose|j: int|
                        0 <= j < before.len() && (#[trigger] before[j]).name@ == t;
                    assert(j != at);
                    assert(self.tracks@[j] == before[j]);
                    self.lemma_at(j);
                    old(self).lemma_at(j);
                }
            }
        }
    }

    /// Add what a record advertises at window `index`.
    ///
    /// A track whose runs are malformed or overlap another record's span is left out, so its
    /// groups behave like ones the source never delivered; the record's other tracks stay usable.
    pub fn push(&mut self, index: u64, advert: &Advert)
        requires
            old(self).wf(),
            distinct_tracks(advert.tracks@),
        ensures
            final(self).wf(),
            forall|t: Seq<char>| #[trigger]
                final(self).known(t) == (old(self).known(t) || advertised(advert.tracks@, t)),
            forall|t: Seq<char>|
                !names(advert.tracks@, t) ==> #[trigger] final(self).spans(t) == released(
                    old(self).spans(t),
                    index,
                ),
            forall|i: int|
                0 <= i < advert.tracks@.len() ==> placed(
                    released(old(self).spans((#[trigger] advert.tracks@[i]).0@), index),
                    final(self).spans(advert.tracks@[i].0@),
                    advert.tracks@[i].1@,
                    advert.pts,
                    index,
                ),
    {
        self.release(index);
        let ghost base = *self;
        let ghost tracks = advert.tracks@;
        let mut i: usize = 0;
        assert forall|t: Seq<char>| !names(tracks.take(0), t) && !advertised(tracks.take(0), t) by {}
        while i < advert.tracks.len()
            invariant
                self.wf(),
                tracks == advert.tracks@,
                distinct_tracks(tracks),
                0 <= i <= tracks.len(),
                forall|t: Seq<char>| #[trigger]
                    self.known(t) == (base.known(t) || advertised(tracks.take(i as int), t)),
                forall|t: Seq<char>|
                    !names(tracks.take(i as int), t) ==> #[trigger] self.spans(t) == base.spans(t),
                forall|j: int|
                    0 <= j < i ==> placed(
                        base.spans((#[trigger] tracks[j]).0@),
                        self.spans(tracks[j].0@),
                        tracks[j].1@,
                        advert.pts,
                        index,
                    ),
            decreases tracks.len() - i,
        {
            let ghost prior = *self;
            let ghost taken = tracks.take(i as int);
            let ghost more = tracks.take(i + 1);
            self.add(advert.tracks[i].0.as_str(), &advert.tracks[i].1, advert.pts, index);
            proof {
                let name = tracks[i as int].0@;
                assert(more =~= taken.push(tracks[i as int]));
                assert(!names(taken, name)) by {
                    if names(taken, name) {
                        let j = choose|j: int|
                            0 <= j < taken.len() && (#[trigger] taken[j]).0@ == name;
                        assert(tracks[j].0@ != tracks[i as int].0@);
                    }
                }
                assert forall|j: int| 0 <= j < i implies placed(
                    base.spans((#[trigger] tracks[j]).0@),
                    self.spans(tracks[j].0@),
                    tracks[j].1@,
                    advert.pts,
                    index,
                ) by {
                    assert(tracks[j].0@ != tracks[i as int].0@);
                    assert(self.spans(tracks[j].0@) == prior.spans(tracks[j].0@));
                }
                assert forall|t: Seq<char>| #[trigger] self.known(t) == (base.known(t)
                    || advertised(more, t)) by {
                    lemma_advertised_push(taken, tracks[i as int], t);
                    assert(self.known(t) == (prior.known(t) || t == name && runs_sound(
                        tracks[i as int].1@,
                    )));
                    assert(prior.known(t) == (base.known(t) || advertised(taken, t)));
                }
                assert forall|t: Seq<char>| !names(more, t) implies #[trigger] self.spans(t)
                    == base.spans(t) by {
                    assert(more[i as int].0@ == name);
                    assert(t != name);
                    assert(!names(taken, t)) by {
                        if names(taken, t) {
                            let j = choose|j: int|
                                0 <= j < taken.len() && (#[trigger] taken[j]).0@ == t;
                            assert(more[j].0@ == t);
                        }
                    }
                    assert(self.spans(t) == prior.spans(t));
                }
            }
            i = i + 1;
        }
        assert(tracks.take(i as int) =~= tracks);
    }

    /// Remove the records at these window indices, returning the evicted spans by track. A popped
    /// track stays known.
    pub fn pop(&mut self, from: u64, to: u64) -> (r: Vec<(String, Span)>)
        requires
            old(self).wf(),
        ensures
            final(self).wf(),
            forall|t: Seq<char>| #[trigger] final(self).known(t) == old(self).known(t),
            forall|t: Seq<char>| #[trigger]
                final(self).spans(t) == kept(old(self).spans(t), from, to),
            eviction_ordered(evicted_view(r@)),
            forall|t: Seq<char>, s: SpanView| #[trigger]
                evicted_view(r@).contains((t, s)) == (old(self).spans(t).contains(s)
                    && s.owned_within(from, to)),
    {
        let mut evicted: Vec<(String, Span)> = Vec::new();
        let ghost before = self.tracks@;
        let mut i: usize = 0;
        while i < self.tracks.len()
            invariant
                0 <= i <= self.tracks@.len(),
                self.tracks@.len() == before.len(),
                before == old(self).tracks@,
                old(self).wf(),
                forall|j: int|
                    0 <= j < before.len() ==> (#[trigger] self.tracks@[j]).name == before[j].name,
                forall|j: int|
                    0 <= j < i ==> (#[trigger] self.tracks@[j]).spans_view() == kept(
                        before[j].spans_view(),
                        from,
                        to,
                    ),
                forall|j: int| i <= j < before.len() ==> #[trigger] self.tracks@[j] == before[j],
                eviction_ordered(evicted_view(evicted@)),
                forall|t: Seq<char>, s: SpanView| #[trigger]
                    evicted_view(evicted@).contains((t, s)) == taken_out(
                        before.take(i as int),
                        from,
                        to,
                        t,
                        s,
                    ),
            decreases self.tracks@.len() - i,
        {
            let ghost tracks = self.tracks@;
            let ghost taken = before.take(i as int);
            let ghost more = before.take(i + 1);
            let ghost prior = evicted_view(evicted@);
            let ghost track = before[i as int];
            assert(self.tracks@[i as int] == track);
            assert(spans_sound(track.spans_view()));
            assert forall|s: SpanView| !(#[trigger] prior.contains((track.name@, s))) by {
                if prior.contains((track.name@, s)) {
                    assert(taken_out(taken, from, to, track.name@, s));
                    let k = choose|k: int|
                        0 <= k < taken.len() && (#[trigger] taken[k]).name@ == track.name@;
                    assert(before[k].name@ != before[i as int].name@);
                }
            }
            self.tracks[i].evict(from, to, &mut evicted);
            proof {
                assert forall|j: int| 0 <= j < before.len() && j != i implies #[trigger] self.tracks@[j]
                    == tracks[j] by {}
                assert forall|t: Seq<char>, s: SpanView| #[trigger]
                    evicted_view(evicted@).contains((t, s)) == taken_out(more, from, to, t, s) by {
                    assert(prior.contains((t, s)) == taken_out(taken, from, to, t, s));
                    lemma_taken_out(before, i as int, from, to, t, s);
                }
            }
            i = i + 1;
        }
        proof {
            assert(before.take(i as int) =~= before);
            assert forall|j: int| 0 <= j < before.len() implies spans_sound(
                (#[trigger] self.tracks@[j]).spans_view(),
            ) by {
                lemma_kept_subset(before[j].spans_view(), from, to);
            }
            assert forall|a: int, b: int| 0 <= a < b < self.tracks@.len() implies (
            #[trigger] self.tracks@[a]).name@ != (#[trigger] self.tracks@[b]).name@ by {
                assert(before[a].name@ != before[b].name@);
            }
            assert(self.wf());
            assert forall|t: Seq<char>| #[trigger] self.known(t) == old(self).known(t) by {
                if self.known(t) {
                    let j = choose|j: int|
                        0 <= j < self.tracks@.len() && (#[trigger] self.tracks@[j]).name@ == t;
                    assert(before[j].name@ == t);
                }
                if old(self).known(t) {
                    let j = choose|j: int|
                        0 <= j < before.len() && (#[trigger] before[j]).name@ == t;
                    assert(self.tracks@[j].name@ == t);
                }
            }
            assert forall|t: Seq<char>| #[trigger] self.spans(t) == kept(
                old(self).spans(t),
                from,
                to,
            ) by {
                assert(self.known(t) == old(self).known(t));
                if self.known(t) {
                    let j = choose|j: int|
                        0 <= j < self.tracks@.len() && (#[trigger] self.tracks@[j]).name@ == t;
                    assert(before[j].name@ == t);
                    self.lemma_at(j);
                    old(self).lemma_at(j);
                }
            }
            assert forall|t: Seq<char>, s: SpanView| #[trigger]
                evicted_view(evicted@).contains((t, s)) == (old(self).spans(t).contains(s)
                && s.owned_within(from, to)) by {
                if taken_out(before, from, to, t, s) {
                    let k = choose|k: int|
                        0 <= k < before.len() && (#[trigger] before[k]).name@ == t
                            && before[k].spans_view().contains(s);
                    old(self).lemma_at(k);
                }
                if old(self).spans(t).contains(s) && s.owned_within(from, to) {
                    assert(old(self).known(t));
                    let k = choose|k: int|
                        0 <= k < before.len() && (#[trigger] before[k]).name@ == t;
                    old(self).lemma_at(k);
                }
            }
        }
        evicted
    }

    /// Whether any replayed record named this track.
    pub fn has_track(&self, track: &str) -> (r: bool)
        requires
            self.wf(),
        ensures
            r == self.known(track@),
    {
        self.find(track) < self.tracks.len()
    }

    /// The span advertising `group` on `track`, if the retained window commits it.
    pub fn get(&self, track: &str, group: u64) -> (r: Option<&Span>)
        requires
            self.wf(),
        ensures
            match r {
                Some(span) => self.spans(track@).contains(span@) && span@.has(group),
                None => !self.commits(track@, group),
            },
    {
        let at: usize = self.find(track);
        if at >= self.tracks.len() {
            return None;
        }
        let spans = &self.tracks[at].spans;
        let ghost view = self.tracks@[at as int].spans_view();
        let mut i: usize = 0;
        while i < spans.len()
            invariant
                0 <= i <= spans@.len(),
                view == self.spans(track@),
                view.len() == spans@.len(),
                forall|j: int| 0 <= j < spans@.len() ==> (#[trigger] spans@[j])@ == view[j],
                forall|j: int| 0 <= j < i ==> !(#[trigger] view[j]).has(group),
            decreases spans@.len() - i,
        {
            if contains(&spans[i], group) {
                assert(view[i as int] == spans@[i as int]@);
                return Some(&spans[i]);
            }
            assert(view[i as int] == spans@[i as int]@);
            i = i + 1;
        }
        None
    }

    /// The first group at or after `group` that the retained window commits on `track`.
    pub fn next(&self, track: &str, group: u64) -> (r: Option<u64>)
        requires
            self.wf(),
        ensures
            match r {
                Some(next) => next >= group && self.commits(track@, next) && forall|g: u64|
                    group <= g < next ==> !(#[trigger] self.commits(track@, g)),
                None => forall|g: u64| group <= g ==> !(#[trigger] self.commits(track@, g)),
            },
    {
        let at: usize = self.find(track);
        if at >= self.tracks.len() {
            return None;
        }
        let spans = &self.tracks[at].spans;
        let ghost view = self.tracks@[at as int].spans_view();
        proof {
            self.lemma_spans_sound(track@);
        }
        let mut i: usize = 0;
        while i < spans.len()
            invariant
                0 <= i <= spans@.len(),
                view == self.spans(track@),
                view.len() == spans@.len(),
                spans_sound(view),
                forall|j: int| 0 <= j < spans@.len() ==> (#[trigger] spans@[j])@ == view[j],
                forall|j: int, g: u64|
                    0 <= j < i && group <= g ==> !(#[trigger] (#[trigger] view[j]).has(g)),
            decreases spans@.len() - i,
        {
            let ghost span = view[i as int];
            assert(spans@[i as int]@ == span);
            let runs = &spans[i].runs;
            let mut k: usize = 0;
            while k < runs.len()
                invariant
                    0 <= k <= runs@.len(),
                    runs@ == span.runs,
                    0 <= i < view.len(),
                    span == view[i as int],
                    view == self.spans(track@),
                    spans_sound(view),
                    forall|j: int, g: u64|
                        0 <= j < i && group <= g ==> !(#[trigger] (#[trigger] view[j]).has(g)),
                    forall|j: int| 0 <= j < k ==> (#[trigger] runs@[j]).end < group,
                decreases runs@.len() - k,
            {
                let run = runs[k];
                if run.end >= group {
                    let next: u64 = if run.start > group {
                        run.start
                    } else {
                        group
                    };
                    proof {
                        assert(runs_sound(span.runs));
                        assert(span.runs[k as int].has(next));
                        assert(span.has(next));
                        assert forall|g: u64| group <= g < next implies !(#[trigger] self.commits(
                            track@,
                            g,
                        )) by {
                            if self.commits(track@, g) {
                                let j = choose|j: int|
                                    0 <= j < view.len() && (#[trigger] view[j]).has(g);
                                if j < i {
                                } else if j == i {
                                    let m = choose|m: int|
                                        0 <= m < span.runs.len() && (#[trigger] span.runs[m]).has(
                                            g,
                                        );
                                    if m < k {
                                        assert(runs@[m].end < group);
                                    } else if m > k {
                                        assert(span.runs[k as int].end < span.runs[m].start);
                                    }
                                } else {
                                    lemma_within_bounds(view[j], g);
                                    lemma_within_bounds(span, next);
                                    assert(view[i as int].last() < view[j].first());
                                }
                            }
                        }
                    }
                    return Some(next);
                }
                k = k + 1;
            }
            assert forall|g: u64| group <= g implies !(#[trigger] span.has(g)) by {
                if span.has(g) {
                    let m = choose|m: int|
                        0 <= m < span.runs.len() && (#[trigger] span.runs[m]).has(g);
                    assert(runs@[m].end < group);
                }
            }
            i = i + 1;
        }
        None
    }

    /// The first group of the latest `track` span whose record starts at or before `pts`, or of
    /// the earliest span when every record starts later.
    pub fn seek(&self, track: &str, pts: u64) -> (r: Option<u64>)
        requires
            self.wf(),
        ensures
            ({
                let spans = self.spans(track@);
                let n = leading(spans, pts);
                if spans.len() == 0 {
                    r is None
                } else {
                    r == Some(spans[if n > 0 { n - 1 } else { 0 }].first())
                }
            }),
    {
        let at: usize = self.find(track);
        if at >= self.tracks.len() {
            return None;
        }
        let spans = &self.tracks[at].spans;
        let ghost view = self.tracks@[at as int].spans_view();
        proof {
            self.lemma_spans_sound(track@);
        }
        if spans.len() == 0 {
            return None;
        }
        let mut n: usize = 0;
        while n < spans.len() && spans[n].pts <= pts
            invariant
                0 <= n <= spans@.len(),
                view.len() == spans@.len(),
                forall|j: int| 0 <= j < spans@.len() ==> (#[trigger] spans@[j])@ == view[j],
                forall|j: int| 0 <= j < n ==> (#[trigger] view[j]).pts <= pts,
            decreases spans@.len() - n,
        {
            assert(spans@[n as int]@ == view[n as int]);
            n = n + 1;
        }
        proof {
            if n < spans@.len() {
                assert(spans@[n as int]@ == view[n as int]);
            }
            lemma_leading(view, pts, n as int);
        }
        let k: usize = if n > 0 {
            n - 1
        } else {
            0
        };
        assert(spans@[k as int]@ == view[k as int]);
        assert(runs_sound(view[k as int].runs));
        Some(spans[k].runs[0].start)
    }
}

/// Runs can be advertised where there is at least one, each ends at or after its start and below two
/// to the power of 53, and each starts after the one before it ends.
pub proof fn law_runs_ascend_without_overlap(runs: Seq<Run>)
    ensures
        runs_sound(runs) <==> {
            &&& runs.len() >= 1
            &&& forall|i: int|
                0 <= i < runs.len() ==> (#[trigger] runs[i]).start <= runs[i].end
                    <= 9_007_199_254_740_991
            &&& forall|i: int|
                #![trigger runs[i - 1]]
                1 <= i < runs.len() ==> runs[i - 1].end < runs[i].start
        },
{
    let stepped = forall|i: int|
        #![trigger runs[i - 1]]
        1 <= i < runs.len() ==> runs[i - 1].end < runs[i].start;
    let each = forall|i: int|
        0 <= i < runs.len() ==> (#[trigger] runs[i]).start <= runs[i].end <= 9_007_199_254_740_991;
    if runs_sound(runs) {
        assert forall|i: int| 0 <= i < runs.len() implies (#[trigger] runs[i]).start <= runs[i].end
            <= 9_007_199_254_740_991 by {
            assert(id_in_range(runs[i].end));
        }
        assert forall|i: int| #![trigger runs[i - 1]] 1 <= i < runs.len() implies runs[i - 1].end
            < runs[i].start by {}
    }
    if runs.len() >= 1 && each && stepped {
        assert forall|i: int, j: int| 0 <= i < j < runs.len() implies (#[trigger] runs[i]).end < (
        #[trigger] runs[j]).start by {
            lemma_stepped(runs, i, j);
        }
        assert forall|i: int| 0 <= i < runs.len() implies (#[trigger] runs[i]).start <= runs[i].end
            && id_in_range(runs[i].end) by {}
    }
}

proof fn lemma_stepped(runs: Seq<Run>, i: int, j: int)
    requires
        0 <= i < j < runs.len(),
        forall|k: int| 0 <= k < runs.len() ==> (#[trigger] runs[k]).start <= runs[k].end,
        forall|k: int|
            #![trigger runs[k - 1]]
            1 <= k < runs.len() ==> runs[k - 1].end < runs[k].start,
    ensures
        runs[i].end < runs[j].start,
    decreases j - i,
{
    assert(runs[j - 1].end < runs[j].start);
    if i < j - 1 {
        lemma_stepped(runs, i, j - 1);
        assert(runs[j - 1].start <= runs[j - 1].end);
    }
}

/// A span commits the groups from a run's start to its end, both included, and no others. They lie
/// between the start of its first run and the end of its last one.
pub proof fn law_a_span_commits_what_its_runs_hold(span: SpanView, group: u64)
    ensures
        span.has(group) <==> exists|i: int|
            0 <= i < span.runs.len() && (#[trigger] span.runs[i]).start <= group
                <= span.runs[i].end,
        runs_sound(span.runs) && span.has(group) ==> span.runs[0].start <= group
            <= span.runs[span.runs.len() - 1].end,
        span.first() == span.runs[0].start,
        span.last() == span.runs[span.runs.len() - 1].end,
{
    let runs = span.runs;
    if runs_sound(runs) && span.has(group) {
        let i = choose|i: int| 0 <= i < runs.len() && (#[trigger] runs[i]).has(group);
        let last = runs.len() - 1;
        if i > 0 {
            assert(runs[0].end < runs[i].start);
            assert(runs[0].start <= runs[0].end);
        }
        if i < last {
            assert(runs[i].end < runs[last].start);
            assert(runs[last].start <= runs[last].end);
        }
    }
    if exists|i: int|
        0 <= i < span.runs.len() && (#[trigger] span.runs[i]).start <= group <= span.runs[i].end {
        let i = choose|i: int|
            0 <= i < span.runs.len() && (#[trigger] span.runs[i]).start <= group
                <= span.runs[i].end;
        assert(runs[i].has(group));
    }
}

/// When a record takes a window index, the spans there before it stay as they are, but that those
/// which came with the index belong to no record any more.
pub proof fn law_a_taken_index_only_frees_its_spans(spans: Seq<SpanView>, index: u64, i: int)
    requires
        0 <= i < spans.len(),
    ensures
        released(spans, index).len() == spans.len(),
        released(spans, index)[i].runs == spans[i].runs,
        released(spans, index)[i].pts == spans[i].pts,
        spans[i].owner == Some(index) ==> released(spans, index)[i].owner is None,
        spans[i].owner != Some(index) ==> released(spans, index)[i].owner == spans[i].owner,
{
}

/// A record's runs of a track become one span more, with the record's start and window index, among
/// the spans that were there and that keep their order. Malformed runs add nothing, and neither do
/// runs whose bounds reach into those of a span that is there.
pub proof fn law_an_advertised_span_is_added_where_it_fits(
    before: Seq<SpanView>,
    after: Seq<SpanView>,
    runs: Seq<Run>,
    pts: u64,
    index: u64,
)
    requires
        placed(before, after, runs, pts, index),
    ensures
        ({
            let free = forall|i: int|
                0 <= i < before.len() ==> runs[runs.len() - 1].end < (
                #[trigger] before[i]).runs[0].start || before[i].runs[before[i].runs.len() - 1].end
                    < runs[0].start;
            if runs_sound(runs) && free {
                exists|k: int|
                    {
                        &&& 0 <= k <= before.len()
                        &&& after.len() == before.len() + 1
                        &&& (#[trigger] after[k]).runs == runs
                        &&& after[k].pts == pts
                        &&& after[k].owner == Some(index)
                        &&& after.take(k) =~= before.take(k)
                        &&& after.skip(k + 1) =~= before.skip(k)
                    }
            } else {
                after == before
            }
        }),
{
    let span = SpanView { runs, pts, owner: Some(index) };
    if runs_sound(runs) && !overlaps(before, span) {
        let k = choose|k: int|
            0 <= k <= before.len() && after == #[trigger] before.insert(k, span);
        assert(after[k] == span);
        assert(after.take(k) =~= before.take(k));
        assert(after.skip(k + 1) =~= before.skip(k));
    }
}

/// The leading spans are the ones up to the first that starts past the point.
pub proof fn law_leading_spans_start_at_or_before_the_point(spans: Seq<SpanView>, pts: u64)
    ensures
        0 <= leading(spans, pts) <= spans.len(),
        forall|i: int| 0 <= i < leading(spans, pts) ==> (#[trigger] spans[i]).pts <= pts,
        leading(spans, pts) < spans.len() ==> spans[leading(spans, pts)].pts > pts,
    decreases spans.len(),
{
    if spans.len() > 0 && spans[0].pts <= pts {
        let rest = spans.skip(1);
        law_leading_spans_start_at_or_before_the_point(rest, pts);
        let n = leading(rest, pts);
        assert(leading(spans, pts) == n + 1);
        assert forall|i: int| 0 <= i < n + 1 implies (#[trigger] spans[i]).pts <= pts by {
            if i > 0 {
                assert(rest[i - 1] == spans[i]);
            }
        }
        if n < rest.len() {
            assert(rest[n] == spans[n + 1]);
        }
    }
}

/// A pop keeps a span exactly where the record that added it is not at one of the popped indices,
/// and the kept spans in their order.
pub proof fn law_a_pop_takes_the_spans_of_its_indices(
    front: Seq<SpanView>,
    span: SpanView,
    back: Seq<SpanView>,
    from: u64,
    to: u64,
)
    ensures
        kept(Seq::empty(), from, to) == Seq::<SpanView>::empty(),
        kept(front + back, from, to) == kept(front, from, to) + kept(back, from, to),
        span.owner is Some && from <= span.owner->0 && span.owner->0 < to ==> kept(
            seq![span],
            from,
            to,
        ) == Seq::<SpanView>::empty(),
        (span.owner is None || span.owner->0 < from || span.owner->0 >= to) ==> kept(
            seq![span],
            from,
            to,
        ) == seq![span],
    decreases back.len(),
{
    reveal_with_fuel(kept, 2);
    let one = seq![span];
    assert(one.drop_last() =~= Seq::<SpanView>::empty());
    assert(one.last() == span);
    assert(Seq::<SpanView>::empty().push(span) =~= one);
    if back.len() == 0 {
        assert(front + back =~= front);
        assert(kept(front, from, to) + Seq::<SpanView>::empty() =~= kept(front, from, to));
    } else {
        let all = front + back;
        let init = back.drop_last();
        law_a_pop_takes_the_spans_of_its_indices(front, span, init, from, to);
        assert(all.drop_last() =~= front + init);
        assert(all.last() == back.last());
        assert(kept(front + init, from, to).push(back.last()) =~= kept(front, from, to) + kept(
            init,
            from,
            to,
        ).push(back.last()));
    }
}

/// What a pop evicts is listed by ascending window index, each span once.
pub proof fn law_evictions_are_listed_by_index(
    evicted: Seq<(Seq<char>, SpanView)>,
    i: int,
    j: int,
)
    requires
        eviction_ordered(evicted),
        0 <= i < j < evicted.len(),
    ensures
        evicted[i] != evicted[j],
        evicted[i].1.owner is Some,
        evicted[j].1.owner is Some,
        evicted[i].1.owner->0 <= evicted[j].1.owner->0,
{
}

} // verus!
