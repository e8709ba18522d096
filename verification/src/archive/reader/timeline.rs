//! What a reader follows: the timelines of a recording.

use super::index::{by_sequence, collides, inserted, popped, span_of, Index, Span};
use crate::archive::error::Error;
use crate::archive::path::{Key, KeyView};
use crate::archive::segment::{GroupView, Object, ObjectView, FrameView};
use crate::archive::timeline::Record;
use vstd::prelude::*;

verus! {

/// The default bound on cached object bytes.
pub const DEFAULT_CACHE: u64 = 0x400_0000;

/// The cached bytes that one cache slot is reckoned for.
pub const CACHE_SLOT: u64 = 0x10_0000;

/// What a cached frame weighs beyond its payload.
pub const FRAME_OVERHEAD: u64 = 32;

/// What a cached object weighs beyond its frames.
pub const OBJECT_OVERHEAD: u64 = 64;

/// What a reader serves.
#[derive(Clone, Debug)]
#[non_exhaustive]
pub struct Config {
    /// Each served track with its timeline track.
    pub timelines: Vec<(String, String)>,
    /// Upper bound on cached object bytes shared by every track.
    pub cache: u64,
}

impl Config {
    /// Serve the tracks that `timelines` index, with the default cache.
    pub fn new(timelines: Vec<(String, String)>) -> (r: Self)
        ensures
            r == (Config { timelines, cache: DEFAULT_CACHE }),
    {
        Config { timelines, cache: DEFAULT_CACHE }
    }

    /// Bound the cache by `bytes`.
    pub fn with_cache(self, bytes: u64) -> (r: Self)
        ensures
            r == (Config { cache: bytes, ..self }),
    {
        Config { cache: bytes, ..self }
    }
}

/// How many objects the cache is sized for: one per mebibyte, and at least 16.
pub fn cache_items(cache: u64) -> (r: usize)
    ensures
        r == (if cache / CACHE_SLOT < 16 {
            16int
        } else if cache / CACHE_SLOT > usize::MAX {
            usize::MAX as int
        } else {
            cache as int / CACHE_SLOT as int
        }),
{
    let slots: u64 = cache / CACHE_SLOT;
    if slots < 16 {
        16
    } else if slots > usize::MAX as u64 {
        usize::MAX
    } else {
        slots as usize
    }
}

/// What the first frames of a group weigh.
pub open spec fn frames_weight(frames: Seq<FrameView>) -> int
    decreases frames.len(),
{
    if frames.len() == 0 {
        0
    } else {
        frames_weight(frames.drop_last()) + frames.last().payload.len() + FRAME_OVERHEAD
    }
}

/// What the first groups of an object weigh.
pub open spec fn groups_weight(groups: Seq<GroupView>) -> int
    decreases groups.len(),
{
    if groups.len() == 0 {
        0
    } else {
        groups_weight(groups.drop_last()) + frames_weight(groups.last().frames)
    }
}

/// What a cached object weighs: its payload bytes plus a small overhead per frame.
pub open spec fn object_weight(o: ObjectView) -> int {
    groups_weight(o.groups) + OBJECT_OVERHEAD
}

proof fn lemma_frames_weight_prefix(frames: Seq<FrameView>, i: int)
    requires
        0 <= i <= frames.len(),
    ensures
        0 <= frames_weight(frames.take(i)) <= frames_weight(frames),
    decreases frames.len(),
{
    if i == frames.len() {
        assert(frames.take(i) =~= frames);
        if frames.len() > 0 {
            lemma_frames_weight_prefix(frames.drop_last(), frames.len() - 1);
            assert(frames.drop_last().take(frames.len() - 1) =~= frames.drop_last());
        }
    } else {
        lemma_frames_weight_prefix(frames.drop_last(), i);
        assert(frames.drop_last().take(i) =~= frames.take(i));
    }
}

proof fn lemma_groups_weight_prefix(groups: Seq<GroupView>, i: int)
    requires
        0 <= i <= groups.len(),
    ensures
        0 <= groups_weight(groups.take(i)) <= groups_weight(groups),
    decreases groups.len(),
{
    if groups.len() > 0 {
        let last = groups.last().frames;
        lemma_frames_weight_prefix(last, last.len() as int);
        assert(last.take(last.len() as int) =~= last);
    }
    if i == groups.len() {
        assert(groups.take(i) =~= groups);
        if groups.len() > 0 {
            lemma_groups_weight_prefix(groups.drop_last(), groups.len() - 1);
            assert(groups.drop_last().take(groups.len() - 1) =~= groups.drop_last());
        }
    } else {
        lemma_groups_weight_prefix(groups.drop_last(), i);
        assert(groups.drop_last().take(i) =~= groups.take(i));
    }
}

/// Weigh an object for the cache.
pub fn weight(object: &Object) -> (r: u64)
    requires
        object_weight(object@) <= u64::MAX,
    ensures
        r == object_weight(object@),
{
    let ghost all = object@.groups;
    let mut total: u64 = 0;
    let mut i: usize = 0;
    assert(all.take(0) =~= Seq::<GroupView>::empty());
    while i < object.groups.len()
        invariant
            0 <= i <= object.groups@.len(),
            all == object@.groups,
            object_weight(object@) <= u64::MAX,
            total == groups_weight(all.take(i as int)),
        decreases object.groups@.len() - i,
    {
        let group = &object.groups[i];
        let ghost frames = group@.frames;
        proof {
            assert(all.take(i + 1).drop_last() =~= all.take(i as int));
            assert(all.take(i + 1).last() == group@);
            lemma_groups_weight_prefix(all, i + 1);
        }
        let ghost base = total;
        let mut k: usize = 0;
        assert(frames.take(0) =~= Seq::<FrameView>::empty());
        while k < group.frames.len()
            invariant
                0 <= k <= group.frames@.len(),
                frames == group@.frames,
                base + frames_weight(frames) <= u64::MAX,
                total == base + frames_weight(frames.take(k as int)),
            decreases group.frames@.len() - k,
        {
            proof {
                assert(frames.take(k + 1).drop_last() =~= frames.take(k as int));
                assert(frames.take(k + 1).last() == group.frames@[k as int]@);
                lemma_frames_weight_prefix(frames, k + 1);
            }
            total = total + (group.frames[k].payload.len() as u64 + FRAME_OVERHEAD);
            k = k + 1;
        }
        assert(frames.take(k as int) =~= frames);
        i = i + 1;
    }
    assert(all.take(i as int) =~= all);
    total + OBJECT_OVERHEAD
}

/// Whether `key` names the segment `segment`.
pub open spec fn names(key: KeyView, segment: u64) -> bool {
    match key {
        KeyView::Segments { segment: s, .. } => s == segment,
        _ => false,
    }
}

/// Whether `keys` lists the segment `segment`.
pub open spec fn lists(keys: Seq<Key>, segment: u64) -> bool {
    exists|i: int| 0 <= i < keys.len() && names((#[trigger] keys[i])@, segment)
}

/// Whether `ids` strictly ascend.
pub open spec fn ascending(ids: Seq<u64>) -> bool {
    forall|i: int, j: int| 0 <= i < j < ids.len() ==> ids[i] < ids[j]
}

/// Put `id` where it belongs among strictly ascending ids, once.
pub fn insert_id(ids: &mut Vec<u64>, id: u64)
    requires
        ascending(old(ids)@),
    ensures
        ascending(final(ids)@),
        forall|x: u64| #[trigger] final(ids)@.contains(x) <==> old(ids)@.contains(x) || x == id,
{
    let mut at: usize = ids.len();
    while at > 0 && ids[at - 1] > id
        invariant
            0 <= at <= ids@.len(),
            *ids == *old(ids),
            ascending(ids@),
            forall|i: int| at <= i < ids@.len() ==> ids@[i] > id,
        decreases at,
    {
        at = at - 1;
    }
    if at > 0 && ids[at - 1] == id {
        assert(ids@.contains(id));
        return;
    }
    let ghost before = ids@;
    ids.insert(at, id);
    proof {
        assert forall|i: int, j: int| 0 <= i < j < ids@.len() implies ids@[i] < ids@[j] by {
            if i < at && j == at {
                assert(before[i] <= before[at - 1]);
            } else if i < at && j > at {
                assert(before[i] < before[j - 1]);
            } else if i == at {
                assert(before[j - 1] > id);
            }
        }
        assert forall|x: u64| #[trigger] ids@.contains(x) <==> before.contains(x) || x == id by {
            if before.contains(x) {
                let i = choose|i: int| 0 <= i < before.len() && before[i] == x;
                if i < at {
                    assert(ids@[i] == x);
                } else {
                    assert(ids@[i + 1] == x);
                }
            }
            if x == id {
                assert(ids@[at as int] == x);
            }
            if ids@.contains(x) {
                let i = choose|i: int| 0 <= i < ids@.len() && ids@[i] == x;
                if i < at {
                    assert(before[i] == x);
                } else if i > at {
                    assert(before[i - 1] == x);
                }
            }
        }
    }
}

/// The timeline segments to replay: those listed after the cursor, in order, each once.
pub fn pending_segments(keys: &Vec<Key>, cursor: Option<u64>) -> (r: Vec<u64>)
    ensures
        ascending(r@),
        forall|segment: u64| #[trigger]
            r@.contains(segment) <==> lists(keys@, segment) && (cursor matches Some(c) ==> segment
                > c),
{
    let mut segments: Vec<u64> = Vec::new();
    let mut i: usize = 0;
    while i < keys.len()
        invariant
            0 <= i <= keys@.len(),
            ascending(segments@),
            forall|segment: u64| #[trigger]
                segments@.contains(segment) <==> lists(keys@.take(i as int), segment) && (
                cursor matches Some(c) ==> segment > c),
        decreases keys@.len() - i,
    {
        let ghost before = keys@.take(i as int);
        let ghost here = keys@.take(i + 1);
        proof {
            assert forall|segment: u64| #[trigger] lists(here, segment) <==> lists(before, segment)
                || names(keys@[i as int]@, segment) by {
                if lists(here, segment) {
                    let k = choose|k: int|
                        0 <= k < here.len() && names((#[trigger] here[k])@, segment);
                    if k < i {
                        assert(before[k] == here[k]);
                    }
                }
                if lists(before, segment) {
                    let k = choose|k: int|
                        0 <= k < before.len() && names((#[trigger] before[k])@, segment);
                    assert(here[k] == before[k]);
                }
                if names(keys@[i as int]@, segment) {
                    assert(here[i as int] == keys@[i as int]);
                }
            }
        }
        if let Key::Segments { segment, .. } = &keys[i] {
            let after: bool = match cursor {
                Some(c) => *segment > c,
                None => true,
            };
            if after {
                insert_id(&mut segments, *segment);
            }
        }
        i = i + 1;
    }
    assert(keys@.take(i as int) =~= keys@);
    segments
}

/// What to do after fetching one timeline segment.
#[derive(Clone, Copy, Debug, PartialEq, Eq, Structural)]
pub enum Fetched {
    /// Replay it, and move the cursor to it.
    Replay,
    /// The store itself failed: give up the refresh.
    Fail,
    /// The segment expired or is malformed: the next one restates the window.
    Skip,
}

/// Judge the outcome of fetching one timeline segment.
pub fn judge_fetch(failure: &Option<Error>) -> (r: Fetched)
    ensures
        r == (match failure {
            None => Fetched::Replay,
            Some(Error::Store(_)) => Fetched::Fail,
            Some(_) => Fetched::Skip,
        }),
{
    match failure {
        None => Fetched::Replay,
        Some(Error::Store(_)) => Fetched::Fail,
        Some(_) => Fetched::Skip,
    }
}

/// A change to a replayed timeline window.
#[derive(Clone, Copy, Debug, PartialEq, Eq)]
pub enum Event {
    /// The record at `index` was appended.
    Push {
        /// The record's place in the window.
        index: u64,
        /// The record.
        value: Record,
    },
    /// The records `from..to` left the window.
    Pop {
        /// The first record that left.
        from: u64,
        /// One past the last record that left.
        to: u64,
    },
    /// The records `from..to` were missed.
    Skip {
        /// The first record that was missed.
        from: u64,
        /// One past the last record that was missed.
        to: u64,
    },
}

/// Apply one change of `track`'s timeline to the index, returning the spans that left it: their
/// objects are no longer worth caching. A record filed under another number than its own is
/// ignored.
pub fn apply(index: &mut Index, track: &str, event: &Event) -> (r: Vec<Span>)
    requires
        old(index).wf(),
    ensures
        final(index).wf(),
        by_sequence(r@),
        forall|name: Seq<char>|
            name != track@ ==> #[trigger] final(index).spans(name) == old(index).spans(name),
        match *event {
            Event::Push { index: at, value } => {
                &&& r@.len() == 0
                &&& final(index).spans(track@) == (match span_of(value) {
                    Some(span) => if at != value.sequence || collides(
                        old(index).spans(track@),
                        span,
                    ) {
                        old(index).spans(track@)
                    } else {
                        inserted(old(index).spans(track@), span)
                    },
                    None => old(index).spans(track@),
                })
            },
            Event::Pop { from, to } => {
                &&& final(index).spans(track@) == old(index).spans(track@).filter(
                    |s: Span| !popped(s, from, to),
                )
                &&& forall|s: Span| #[trigger]
                    r@.contains(s) <==> old(index).spans(track@).contains(s) && popped(s, from, to)
            },
            Event::Skip { from, to } => {
                &&& final(index).spans(track@) == old(index).spans(track@).filter(
                    |s: Span| !popped(s, from, to),
                )
                &&& forall|s: Span| #[trigger]
                    r@.contains(s) <==> old(index).spans(track@).contains(s) && popped(s, from, to)
            },
        },
{
    match event {
        Event::Push { index: at, value } => {
            if *at == value.sequence {
                index.push(track, value);
            }
            Vec::new()
        },
        Event::Pop { from, to } => index.pop(track, *from, *to),
        Event::Skip { from, to } => index.pop(track, *from, *to),
    }
}

/// What the cache reckons with: 64 MiB in all where nothing else is asked, one object in each of them,
/// and what a frame and an object cost beside their bytes.
pub proof fn law_the_cache_is_reckoned_in_mebibytes()
    ensures
        DEFAULT_CACHE == 64 * 1024 * 1024,
        CACHE_SLOT == 1024 * 1024,
        FRAME_OVERHEAD == 32,
        OBJECT_OVERHEAD == 64,
{
}

/// An object weighs each of its payloads once, with 32 bytes for each frame and 64 for itself.
pub proof fn law_an_object_weighs_its_payloads(
    groups: Seq<GroupView>,
    group: GroupView,
    frames: Seq<FrameView>,
    frame: FrameView,
    start: u64,
)
    ensures
        object_weight(ObjectView { frame_start: start, groups: Seq::empty() }) == 64,
        object_weight(ObjectView { frame_start: start, groups: groups.push(group) })
            == object_weight(ObjectView { frame_start: start, groups }) + frames_weight(
            group.frames,
        ),
        frames_weight(frames.push(frame)) == frames_weight(frames) + frame.payload.len() + 32,
        frames_weight(Seq::<FrameView>::empty()) == 0,
{
    assert(groups.push(group).drop_last() =~= groups);
    assert(frames.push(frame).drop_last() =~= frames);
}

/// A listed segment is one that a segment key names, whatever its track.
pub proof fn law_segments_are_named_by_their_keys(key: KeyView, segment: u64)
    ensures
        key matches KeyView::Segments { track, segment: s } ==> (names(key, segment) <==> s
            == segment),
        !(key is Segments) ==> !names(key, segment),
{
}

} // verus!
