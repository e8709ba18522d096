//! The timeline of a decoded track: where each packet's samples belong, and what a hole cuts off.

use super::clock::{
    advance, advanced, discontinuous, frames_between, is_discontinuous,
    law_a_hole_is_what_rounding_cannot_explain, law_a_marker_is_rounded_to_the_nearest_frame,
    law_advancing_adds_the_time_of_the_frames,
    law_rewinding_takes_away_the_time_of_the_frames, lasts, nanos_between, nearest_frames, rewind,
    rewound,
};
use crate::audio::activity::Activity;
use crate::audio::error::{Error, ErrorView};
use crate::time::{law_points_are_ordered_in_seconds, lemma_is_quotient, lemma_quotient, Duration, Timestamp};
use std::collections::VecDeque;
use vstd::prelude::*;

verus! {

/// The effective age budget: what is asked for, but no more than the publisher retains.
pub fn max_age(asked: Duration, retained: Duration) -> (r: Duration)
    ensures
        r.nanos == (if asked.nanos <= retained.nanos {
            asked.nanos
        } else {
            retained.nanos
        }),
{
    if asked.nanos <= retained.nanos {
        asked
    } else {
        retained
    }
}

/// Decoded samples on their way out.
#[derive(Debug, PartialEq, Eq)]
pub struct Output<T> {
    /// Interleaved samples.
    pub pcm: Vec<T>,
    /// Presentation timestamp of the first sample.
    pub timestamp: Timestamp,
    /// Whether the packet the first sample came from coded audio.
    pub activity: Activity,
}

/// What an [`Output`] holds.
#[verifier::ext_equal]
pub struct OutputView<T> {
    pub pcm: Seq<T>,
    pub timestamp: Timestamp,
    pub activity: Activity,
}

impl<T> View for Output<T> {
    type V = OutputView<T>;

    open spec fn view(&self) -> OutputView<T> {
        OutputView { pcm: self.pcm@, timestamp: self.timestamp, activity: self.activity }
    }
}

/// Where a packet's activity ends.
#[derive(Clone, Copy, Debug, PartialEq, Eq, Structural)]
pub struct Span {
    /// One past the last sample.
    pub end: Timestamp,
    /// Whether the packet coded audio.
    pub activity: Activity,
}

/// A packet's samples, placed on the timeline.
#[derive(Debug)]
pub struct Placed<T> {
    /// Interleaved samples, at the codec's rate.
    pub samples: Vec<T>,
    /// Where the first sample belongs.
    pub at: Timestamp,
    /// How many frames there are.
    pub frames: usize,
}

/// What a resampler handed back.
#[derive(Debug)]
pub struct Resampled<T> {
    /// Interleaved samples, at the output rate.
    pub pcm: Vec<T>,
    /// Input frames it held from before.
    pub pending: usize,
    /// Output frames of its own startup silence that it dropped.
    pub skipped: usize,
}

/// What a decoded track's timeline remembers.
#[verifier::ext_equal]
pub struct ConsumerView<T> {
    /// The codec's rate.
    pub rate: u32,
    /// The codec's channels.
    pub channels: u32,
    /// The rate samples are delivered at.
    pub output_rate: u32,
    /// Whether samples pass a resampler.
    pub resampling: bool,
    /// One past the last sample handed to the resampler.
    pub tail: Option<Timestamp>,
    /// Where the next packet should land.
    pub next_start: Option<Timestamp>,
    /// What was decoded and not yet handed back.
    pub ready: Seq<OutputView<T>>,
    /// Codec activity that the resampler's buffered output still covers.
    pub spans: Seq<Span>,
    /// Activity of the last span the output ran past.
    pub trailing: Activity,
    /// The first packet of this epoch.
    pub epoch: Option<Timestamp>,
    /// Codec delay trimmed since the epoch began.
    pub delay_trimmed: nat,
    /// Terminal frames emitted since `terminal_start`.
    pub frames_decoded: nat,
    /// Where the track ends, once a marker said so.
    pub end: Option<Timestamp>,
    /// Presentation time of the first terminal frame.
    pub terminal_start: Option<Timestamp>,
    /// The last discontinuity that was applied.
    pub discontinuity: u64,
}

/// The later of two points; the first where they are the same.
pub open spec fn later(a: Timestamp, b: Timestamp) -> Timestamp {
    if b.at_most(a) {
        a
    } else {
        b
    }
}

/// How many frames lie between two points.
pub open spec fn between(start: Timestamp, end: Timestamp, rate: int) -> Result<int, ErrorView> {
    match nanos_between(start, end) {
        None => Err(ErrorView::TimeOverflow),
        Some(nanos) => if nearest_frames(nanos, rate) <= usize::MAX {
            Ok(nearest_frames(nanos, rate))
        } else {
            Err(ErrorView::Unsupported("audio duration does not fit in memory"@))
        },
    }
}

/// How many of the first spans end at or before `timestamp`.
pub open spec fn passed(spans: Seq<Span>, timestamp: Timestamp) -> int
    decreases spans.len(),
{
    if spans.len() == 0 || !spans[0].end.at_most(timestamp) {
        0
    } else {
        1 + passed(spans.skip(1), timestamp)
    }
}

impl<T> ConsumerView<T> {
    /// Whether every output that waits holds samples.
    pub open spec fn filled(self) -> bool {
        forall|i: int| 0 <= i < self.ready.len() ==> (#[trigger] self.ready[i]).pcm.len() > 0
    }

    /// Whether nothing more comes of a track whose source ended.
    pub open spec fn over(self) -> bool {
        self.ready.len() == 0 && !self.resampling
    }

    /// The state in the epoch the container counts as `discontinuity`.
    pub open spec fn interrupted(self, discontinuity: u64) -> Self {
        if discontinuity == self.discontinuity {
            self
        } else {
            ConsumerView {
                discontinuity,
                frames_decoded: 0,
                end: None,
                terminal_start: None,
                ..self.cut()
            }
        }
    }

    /// The state once the track is finished, and the output of what the resampler still held.
    /// Finishing consumes the resampler.
    pub open spec fn flushed(self, held: Option<(Seq<T>, int, int)>) -> (
        Self,
        Result<Option<OutputView<T>>, ErrorView>,
    ) {
        let s = ConsumerView { resampling: false, ..self };
        match (held, s.tail) {
            (Some((pcm, pending, skipped)), Some(tail)) if self.resampling && pcm.len() > 0 => {
                match s.starts_at(tail, pending, skipped) {
                    Some(timestamp) => {
                        let (after, activity) = s.reached(timestamp);
                        (after, Ok(Some(OutputView { pcm, timestamp, activity })))
                    },
                    None => (s, Err(ErrorView::TimeOverflow)),
                }
            },
            _ => (s, Ok(None)),
        }
    }

    /// One read after the source ended: what still waits, and then what finishing the track brings.
    pub open spec fn read_ended(
        self,
        discontinuity: u64,
        held: Option<(Seq<T>, int, int)>,
    ) -> (Self, Result<Option<OutputView<T>>, ErrorView>) {
        if self.ready.len() > 0 {
            (ConsumerView { ready: self.ready.skip(1), ..self }, Ok(Some(self.ready[0])))
        } else {
            self.interrupted(discontinuity).flushed(held)
        }
    }

    /// The state once the output reached `timestamp`, and the activity there.
    pub open spec fn reached(self, timestamp: Timestamp) -> (Self, Activity) {
        let n = passed(self.spans, timestamp);
        let trailing = if n > 0 {
            self.spans[n - 1].activity
        } else {
            self.trailing
        };
        let spans = self.spans.skip(n);
        (
            ConsumerView { spans, trailing, ..self },
            if spans.len() > 0 {
                spans[0].activity
            } else {
                trailing
            },
        )
    }

    /// Where resampled output begins: what it held from before, and the startup silence it dropped,
    /// reach back from `timestamp`, each in its own rate.
    pub open spec fn starts_at(self, timestamp: Timestamp, pending: int, skipped: int) -> Option<
        Timestamp,
    > {
        match rewound(timestamp, pending, self.rate as int) {
            Some(t) => rewound(t, skipped, self.output_rate as int),
            None => None,
        }
    }

    /// The state with one more output to hand back.
    pub open spec fn queued(self, pcm: Seq<T>, timestamp: Timestamp, activity: Activity) -> Self {
        ConsumerView {
            ready: self.ready.push(OutputView { pcm, timestamp, activity }),
            ..self
        }
    }

    /// The state with nothing carried over a hole.
    pub open spec fn cut(self) -> Self {
        ConsumerView {
            tail: None,
            next_start: None,
            spans: Seq::empty(),
            trailing: Activity::Active,
            epoch: None,
            delay_trimmed: 0,
            ..self
        }
    }

    /// The state after a hole, with what the resampler held from before it.
    pub open spec fn holed(self, drained: Option<(Seq<T>, int, int)>) -> (
        Self,
        Result<(), ErrorView>,
    ) {
        match (drained, self.tail) {
            (Some((pcm, pending, skipped)), Some(tail)) if pcm.len() > 0 => match self.starts_at(
                tail,
                pending,
                skipped,
            ) {
                None => (self, Err(ErrorView::TimeOverflow)),
                Some(t) => {
                    let (s, activity) = self.reached(t);
                    (s.queued(pcm, t, activity).cut(), Ok(()))
                },
            },
            _ => (self.cut(), Ok(())),
        }
    }

    /// The state with a packet of `kept` samples placed, where they belong, and how many frames they
    /// are.
    pub open spec fn placing(self, timestamp: Timestamp, trimmed: int, kept: int) -> (
        Self,
        Result<(Timestamp, int, int), ErrorView>,
    ) {
        let rate = self.rate as int;
        let frames = kept / (if self.channels == 0 {
            1
        } else {
            self.channels as int
        });
        let at = match self.terminal_start {
            Some(start) => advanced(start, self.frames_decoded as int, rate),
            None => match rewound(timestamp, self.delay_trimmed as int, rate) {
                Some(t) => Some(later(t, self.epoch->0)),
                None => None,
            },
        };
        match at {
            None => (self, Err(ErrorView::TimeOverflow)),
            Some(at) => {
                let s = if self.end is Some {
                    ConsumerView {
                        frames_decoded: (self.frames_decoded + frames) as nat,
                        ..self
                    }
                } else {
                    self
                };
                match advanced(timestamp, frames + trimmed, rate) {
                    None => (s, Err(ErrorView::TimeOverflow)),
                    Some(next) => (
                        ConsumerView { next_start: Some(next), ..s },
                        Ok((at, frames, kept)),
                    ),
                }
            },
        }
    }

    /// The state after a packet of `len` samples, from which the decoder trimmed `trimmed` frames:
    /// where its samples belong, how many frames they are, and how many samples are kept.
    ///
    /// Codec delay is padding before the epoch, so samples move back over all that was trimmed since
    /// it began. Once the track's end is known, each packet's place is counted from the first
    /// terminal frame, and nothing is kept past the end.
    pub open spec fn packet(self, timestamp: Timestamp, trimmed: int, len: int) -> (
        Self,
        Result<(Timestamp, int, int), ErrorView>,
    ) {
        let rate = self.rate as int;
        let epoch = match self.epoch {
            Some(epoch) => epoch,
            None => timestamp,
        };
        let s = ConsumerView {
            epoch: Some(epoch),
            delay_trimmed: (self.delay_trimmed + trimmed) as nat,
            ..self
        };
        match s.end {
            None => s.placing(timestamp, trimmed, len),
            Some(end) => match rewound(timestamp, s.delay_trimmed as int, rate) {
                None => (s, Err(ErrorView::TimeOverflow)),
                Some(back) => {
                    let start = match s.terminal_start {
                        Some(start) => start,
                        None => later(back, epoch),
                    };
                    let s = ConsumerView { terminal_start: Some(start), ..s };
                    match between(start, end, rate) {
                        Err(e) => (s, Err(e)),
                        Ok(total) => {
                            let remaining = if total < s.frames_decoded {
                                0
                            } else {
                                total - s.frames_decoded
                            };
                            let most = remaining * s.channels;
                            s.placing(
                                timestamp,
                                trimmed,
                                if most < len {
                                    most
                                } else {
                                    len
                                },
                            )
                        },
                    }
                },
            },
        }
    }

    /// The state after a placed packet's samples left the codec, unchanged where nothing resamples
    /// them.
    pub open spec fn delivered(
        self,
        at: Timestamp,
        frames: int,
        activity: Activity,
        pcm: Seq<T>,
        pending: int,
        skipped: int,
    ) -> (Self, Result<(), ErrorView>) {
        let start = if self.resampling {
            self.starts_at(at, pending, skipped)
        } else {
            Some(at)
        };
        match (start, advanced(at, frames, self.rate as int)) {
            (Some(start), Some(end)) => {
                let s = ConsumerView { tail: Some(end), ..self };
                if !self.resampling {
                    (
                        if pcm.len() == 0 {
                            s
                        } else {
                            s.queued(pcm, start, activity)
                        },
                        Ok(()),
                    )
                } else {
                    let s = ConsumerView { spans: s.spans.push(Span { end, activity }), ..s };
                    if pcm.len() == 0 {
                        (s, Ok(()))
                    } else {
                        let (s, activity) = s.reached(start);
                        (s.queued(pcm, start, activity), Ok(()))
                    }
                }
            },
            _ => (self, Err(ErrorView::TimeOverflow)),
        }
    }
}

/// What a resampler handed back, as the timeline sees it.
pub open spec fn held_of<T>(held: Option<Resampled<T>>) -> Option<(Seq<T>, int, int)> {
    match held {
        Some(held) => Some((held.pcm@, held.pending as int, held.skipped as int)),
        None => None,
    }
}

/// The timeline of a decoded track.
#[derive(Debug)]
pub struct Consumer<T> {
    rate: u32,
    channels: u32,
    output_rate: u32,
    resampling: bool,
    tail: Option<Timestamp>,
    next_start: Option<Timestamp>,
    ready: VecDeque<Output<T>>,
    spans: VecDeque<Span>,
    trailing: Activity,
    epoch: Option<Timestamp>,
    delay_trimmed: usize,
    frames_decoded: usize,
    end: Option<Timestamp>,
    terminal_start: Option<Timestamp>,
    discontinuity: u64,
}

impl<T> View for Consumer<T> {
    type V = ConsumerView<T>;

    closed spec fn view(&self) -> ConsumerView<T> {
        ConsumerView {
            rate: self.rate,
            channels: self.channels,
            output_rate: self.output_rate,
            resampling: self.resampling,
            tail: self.tail,
            next_start: self.next_start,
            ready: Seq::new(self.ready@.len(), |i: int| self.ready@[i]@),
            spans: self.spans@,
            trailing: self.trailing,
            epoch: self.epoch,
            delay_trimmed: self.delay_trimmed as nat,
            frames_decoded: self.frames_decoded as nat,
            end: self.end,
            terminal_start: self.terminal_start,
            discontinuity: self.discontinuity,
        }
    }
}

/// Whether an optional timestamp has a unit.
pub open spec fn stamped(t: Option<Timestamp>) -> bool {
    match t {
        Some(t) => t.wf(),
        None => true,
    }
}

proof fn lemma_passed(spans: Seq<Span>, timestamp: Timestamp, n: int)
    requires
        0 <= n <= spans.len(),
        forall|i: int| 0 <= i < n ==> (#[trigger] spans[i]).end.at_most(timestamp),
        n < spans.len() ==> !spans[n].end.at_most(timestamp),
    ensures
        passed(spans, timestamp) == n,
    decreases n,
{
    if n > 0 {
        assert(spans[0].end.at_most(timestamp));
        let rest = spans.skip(1);
        assert forall|i: int| 0 <= i < n - 1 implies (#[trigger] rest[i]).end.at_most(
            timestamp,
        ) by {
            assert(rest[i] == spans[i + 1]);
        }
        lemma_passed(rest, timestamp, n - 1);
    }
}

impl<T> Consumer<T> {
    /// Whether the rates are positive, every timestamp has a unit and every output holds samples.
    pub open spec fn wf(self) -> bool {
        &&& self@.filled()
        &&& self@.rate > 0
        &&& self@.output_rate > 0
        &&& stamped(self@.tail)
        &&& stamped(self@.next_start)
        &&& stamped(self@.epoch)
        &&& stamped(self@.end)
        &&& stamped(self@.terminal_start)
        &&& self@.delay_trimmed <= usize::MAX
        &&& self@.frames_decoded <= usize::MAX
    }

    /// The timeline of a track that decodes at `rate` and is delivered at `output_rate`: samples
    /// are resampled where those differ.
    pub fn new(rate: u32, channels: u32, output_rate: Option<u32>) -> (r: Self)
        requires
            rate > 0,
            output_rate matches Some(rate) ==> rate > 0,
        ensures
            r.wf(),
            r@ == (ConsumerView {
                rate,
                channels,
                output_rate: match output_rate {
                    Some(output) => output,
                    None => rate,
                },
                resampling: output_rate is Some && output_rate->0 != rate,
                tail: None,
                next_start: None,
                ready: Seq::<OutputView<T>>::empty(),
                spans: Seq::empty(),
                trailing: Activity::Active,
                epoch: None,
                delay_trimmed: 0,
                frames_decoded: 0,
                end: None,
                terminal_start: None,
                discontinuity: 0,
            }),
    {
        let output: u32 = match output_rate {
            Some(output) => output,
            None => rate,
        };
        let consumer = Consumer {
            rate,
            channels,
            output_rate: output,
            resampling: output != rate,
            tail: None,
            next_start: None,
            ready: VecDeque::new(),
            spans: VecDeque::new(),
            trailing: Activity::Active,
            epoch: None,
            delay_trimmed: 0,
            frames_decoded: 0,
            end: None,
            terminal_start: None,
            discontinuity: 0,
        };
        assert(consumer@.ready =~= Seq::<OutputView<T>>::empty());
        consumer
    }

    /// How many frames the resampler takes at a time: 20 ms of them.
    pub fn chunk_frames(&self) -> (r: u64)
        requires
            self.wf(),
        ensures
            r == self@.rate * 20 / 1000,
    {
        self.rate as u64 * 20 / 1000
    }

    /// The next output to hand back, oldest first.
    pub fn pop(&mut self) -> (r: Option<Output<T>>)
        requires
            old(self).wf(),
        ensures
            final(self).wf(),
            match r {
                Some(output) => {
                    &&& old(self)@.ready.len() > 0
                    &&& output@ == old(self)@.ready[0]
                    &&& output@.pcm.len() > 0
                    &&& final(self)@ == (ConsumerView { ready: old(self)@.ready.skip(1), ..old(
                        self)@ })
                },
                None => old(self)@.ready.len() == 0 && final(self)@ == old(self)@,
            },
    {
        let ghost before = self@;
        let r = self.ready.pop_front();
        proof {
            if r is Some {
                assert(self@.ready =~= before.ready.skip(1));
            } else {
                assert(self@.ready =~= before.ready);
            }
        }
        r
    }

    /// Take note of the container's discontinuity count. Returns whether it changed: then a new
    /// epoch begins, and the decoder and resampler have to be reset.
    pub fn apply_discontinuity(&mut self, discontinuity: u64) -> (r: bool)
        requires
            old(self).wf(),
        ensures
            final(self).wf(),
            r == (discontinuity != old(self)@.discontinuity),
            final(self)@ == old(self)@.interrupted(discontinuity),
    {
        if discontinuity == self.discontinuity {
            return false;
        }
        let ghost before = self@;
        self.discontinuity = discontinuity;
        self.cut();
        self.frames_decoded = 0;
        self.end = None;
        self.terminal_start = None;
        assert(self@ =~= (ConsumerView {
            discontinuity,
            frames_decoded: 0,
            end: None,
            terminal_start: None,
            ..before.cut()
        }));
        true
    }

    fn cut(&mut self)
        requires
            old(self).wf(),
        ensures
            final(self).wf(),
            final(self)@ == old(self)@.cut(),
    {
        let ghost before = self@;
        self.tail = None;
        self.next_start = None;
        self.spans.clear();
        self.trailing = Activity::Active;
        self.epoch = None;
        self.delay_trimmed = 0;
        assert(self@ =~= before.cut());
    }

    /// Take note of where the track ends, once its container says so. A new end starts a new count
    /// of terminal frames.
    pub fn mark_end(&mut self, end: Option<Timestamp>)
        requires
            old(self).wf(),
            stamped(end),
        ensures
            final(self).wf(),
            final(self)@ == (if end is Some && old(self)@.end != end {
                ConsumerView { end, frames_decoded: 0, terminal_start: None, ..old(self)@ }
            } else {
                old(self)@
            }),
    {
        let ghost before = self@;
        if let Some(end) = end {
            let is_known: bool = match self.end {
                Some(known) => known == end,
                None => false,
            };
            if !is_known {
                self.end = Some(end);
                self.frames_decoded = 0;
                self.terminal_start = None;
                assert(self@ =~= (ConsumerView {
                    end: Some(end),
                    frames_decoded: 0,
                    terminal_start: None,
                    ..before
                }));
            }
        }
    }

    /// Whether a packet misses where the one before it ended. Once the end is known, packets are
    /// counted instead.
    pub fn misses(&self, timestamp: Timestamp) -> (r: bool)
        requires
            self.wf(),
            timestamp.wf(),
        ensures
            r == (self@.end is None && self@.next_start is Some && is_discontinuous(
                self@.next_start->0,
                timestamp,
            )),
    {
        match (self.end, self.next_start) {
            (None, Some(next)) => discontinuous(next, timestamp),
            _ => false,
        }
    }

    fn starts_at(&self, timestamp: Timestamp, pending: usize, skipped: usize) -> (r: Result<
        Timestamp,
        Error,
    >)
        requires
            self.wf(),
            timestamp.wf(),
        ensures
            match r {
                Ok(t) => self@.starts_at(timestamp, pending as int, skipped as int) == Some(t)
                    && t.wf(),
                Err(e) => self@.starts_at(timestamp, pending as int, skipped as int) is None && e@
                    == ErrorView::TimeOverflow,
            },
    {
        match rewind(timestamp, pending, self.rate) {
            Ok(t) => rewind(t, skipped, self.output_rate),
            Err(e) => Err(e),
        }
    }

    /// The codec activity covering `timestamp`, dropping the spans it has passed.
    fn activity_at(&mut self, timestamp: Timestamp) -> (r: Activity)
        requires
            old(self).wf(),
        ensures
            final(self).wf(),
            (final(self)@, r) == old(self)@.reached(timestamp),
    {
        let ghost before = self@;
        let ghost spans = self.spans@;
        let ghost mut n: int = 0;
        loop
            invariant_except_break
                0 <= n <= spans.len(),
                before == old(self)@,
                spans == before.spans,
                self.spans@ == spans.skip(n),
                forall|i: int| 0 <= i < n ==> (#[trigger] spans[i]).end.at_most(timestamp),
                self.trailing == (if n > 0 {
                    spans[n - 1].activity
                } else {
                    before.trailing
                }),
                self@ == (ConsumerView {
                    spans: spans.skip(n),
                    trailing: self.trailing,
                    ..before
                }),
            ensures
                0 <= n <= spans.len(),
                self.spans@ == spans.skip(n),
                n < spans.len() ==> !spans[n].end.at_most(timestamp),
                forall|i: int| 0 <= i < n ==> (#[trigger] spans[i]).end.at_most(timestamp),
                self.trailing == (if n > 0 {
                    spans[n - 1].activity
                } else {
                    before.trailing
                }),
                self@ == (ConsumerView {
                    spans: spans.skip(n),
                    trailing: self.trailing,
                    ..before
                }),
            decreases spans.len() - n,
        {
            if self.spans.len() == 0 {
                break ;
            }
            let span: Span = self.spans[0];
            assert(span == spans[n]);
            if !span.end.le(&timestamp) {
                break ;
            }
            let _ = self.spans.pop_front();
            self.trailing = span.activity;
            proof {
                assert(self.spans@ =~= spans.skip(n + 1));
                n = n + 1;
                assert(self@ =~= (ConsumerView {
                    spans: spans.skip(n),
                    trailing: self.trailing,
                    ..before
                }));
            }
        }
        proof {
            lemma_passed(spans, timestamp, n);
        }
        if self.spans.len() == 0 {
            self.trailing
        } else {
            self.spans[0].activity
        }
    }

    fn queue(&mut self, pcm: Vec<T>, timestamp: Timestamp, activity: Activity)
        requires
            old(self).wf(),
            pcm@.len() > 0,
        ensures
            final(self).wf(),
            final(self)@ == old(self)@.queued(pcm@, timestamp, activity),
    {
        let ghost before = self@;
        let ghost samples = pcm@;
        self.ready.push_back(Output { pcm, timestamp, activity });
        assert(self@ =~= before.queued(samples, timestamp, activity));
    }

    /// Cut the timeline at a hole. What the resampler still held arrived before the hole and comes
    /// out before it, as its own output; nothing else is carried over.
    pub fn gap(&mut self, drained: Option<Resampled<T>>) -> (r: Result<(), Error>)
        requires
            old(self).wf(),
        ensures
            final(self).wf(),
            ({
                let (after, result) = old(self)@.holed(held_of(drained));
                &&& final(self)@ == after
                &&& r is Ok <==> result is Ok
                &&& r is Err ==> result == Err::<(), ErrorView>(r->Err_0@)
            }),
    {
        if let (Some(drained), Some(tail)) = (drained, self.tail) {
            if drained.pcm.len() > 0 {
                match self.starts_at(tail, drained.pending, drained.skipped) {
                    Ok(timestamp) => {
                        let activity = self.activity_at(timestamp);
                        self.queue(drained.pcm, timestamp, activity);
                    },
                    Err(e) => {
                        return Err(e);
                    },
                }
            }
        }
        self.cut();
        Ok(())
    }

    /// Place a packet's samples on the timeline, from which the decoder trimmed `trimmed` frames of
    /// codec delay. `None` where no sample is left.
    pub fn packet(&mut self, timestamp: Timestamp, trimmed: usize, samples: Vec<T>) -> (r: Result<
        Option<Placed<T>>,
        Error,
    >)
        requires
            old(self).wf(),
            timestamp.wf(),
            old(self)@.delay_trimmed + trimmed <= usize::MAX,
            samples@.len() + trimmed <= usize::MAX,
        ensures
            final(self).wf(),
            ({
                let (after, result) = old(self)@.packet(
                    timestamp,
                    trimmed as int,
                    samples@.len() as int,
                );
                &&& final(self)@ == after
                &&& match r {
                    Ok(Some(placed)) => {
                        &&& result is Ok
                        &&& result->Ok_0 == (
                            placed.at,
                            placed.frames as int,
                            placed.samples@.len() as int,
                        )
                        &&& placed.samples@ == samples@.take(placed.samples@.len() as int)
                        &&& placed.samples@.len() > 0
                        &&& placed.at.wf()
                    },
                    Ok(None) => {
                        &&& result is Ok
                        &&& result->Ok_0.2 == 0
                    },
                    Err(e) => result == Err::<(Timestamp, int, int), ErrorView>(e@),
                }
            }),
    {
        let ghost before = self@;
        let ghost given = samples@;
        let mut samples = samples;
        let epoch: Timestamp = match self.epoch {
            Some(epoch) => epoch,
            None => timestamp,
        };
        self.epoch = Some(epoch);
        self.delay_trimmed = self.delay_trimmed + trimmed;
        let ghost started = self@;
        assert(started =~= (ConsumerView {
            epoch: Some(epoch),
            delay_trimmed: (before.delay_trimmed + trimmed) as nat,
            ..before
        }));
        if let Some(end) = self.end {
            let back: Timestamp = match rewind(timestamp, self.delay_trimmed, self.rate) {
                Ok(back) => back,
                Err(e) => {
                    return Err(e);
                },
            };
            let start: Timestamp = match self.terminal_start {
                Some(start) => start,
                None => back.max(epoch),
            };
            self.terminal_start = Some(start);
            assert(self@ =~= (ConsumerView { terminal_start: Some(start), ..started }));
            let total: usize = match frames_between(start, end, self.rate) {
                Ok(total) => total,
                Err(e) => {
                    return Err(e);
                },
            };
            let remaining: usize = if total < self.frames_decoded {
                0
            } else {
                total - self.frames_decoded
            };
            assert(remaining * self.channels <= u64::MAX * u32::MAX) by (nonlinear_arith)
                requires
                    remaining <= u64::MAX,
                    self.channels <= u32::MAX,
            ;
            let most: u128 = remaining as u128 * self.channels as u128;
            if most < samples.len() as u128 {
                samples.truncate(most as usize);
            }
            proof {
                let channels = self.channels as int;
                let kept = samples@.len() as int;
                if channels > 0 {
                    assert(kept / channels <= remaining) by (nonlinear_arith)
                        requires
                            channels > 0,
                            0 <= kept <= remaining * channels,
                    ;
                } else {
                    assert(most == 0) by (nonlinear_arith)
                        requires
                            most == remaining * channels,
                            channels == 0,
                    ;
                }
            }
        }
        let ghost kept = samples@.len() as int;
        assert(samples@ =~= given.take(kept));
        self.place(timestamp, trimmed, samples)
    }

    fn place(&mut self, timestamp: Timestamp, trimmed: usize, samples: Vec<T>) -> (r: Result<
        Option<Placed<T>>,
        Error,
    >)
        requires
            old(self).wf(),
            old(self)@.epoch is Some,
            timestamp.wf(),
            samples@.len() + trimmed <= usize::MAX,
            old(self)@.end is Some ==> old(self)@.frames_decoded + samples@.len() / (if old(
                self)@.channels == 0 {
                1nat
            } else {
                old(self)@.channels as nat
            }) <= usize::MAX,
        ensures
            final(self).wf(),
            ({
                let (after, result) = old(self)@.placing(
                    timestamp,
                    trimmed as int,
                    samples@.len() as int,
                );
                &&& final(self)@ == after
                &&& match r {
                    Ok(Some(placed)) => {
                        &&& result is Ok
                        &&& result->Ok_0 == (
                            placed.at,
                            placed.frames as int,
                            placed.samples@.len() as int,
                        )
                        &&& placed.samples == samples
                        &&& placed.samples@.len() > 0
                        &&& placed.at.wf()
                    },
                    Ok(None) => {
                        &&& result is Ok
                        &&& result->Ok_0.2 == 0
                    },
                    Err(e) => result == Err::<(Timestamp, int, int), ErrorView>(e@),
                }
            }),
    {
        let ghost before = self@;
        let width: usize = if self.channels == 0 {
            1
        } else {
            self.channels as usize
        };
        let frames: usize = samples.len() / width;
        assert(frames <= samples@.len()) by (nonlinear_arith)
            requires
                frames == samples@.len() / (width as nat),
                width >= 1,
        ;
        let at: Timestamp = match self.terminal_start {
            Some(start) => match advance(start, self.frames_decoded, self.rate) {
                Ok(at) => at,
                Err(e) => {
                    return Err(e);
                },
            },
            None => match rewind(timestamp, self.delay_trimmed, self.rate) {
                Ok(back) => match self.epoch {
                    Some(epoch) => back.max(epoch),
                    None => back,
                },
                Err(e) => {
                    return Err(e);
                },
            },
        };
        if self.end.is_some() {
            self.frames_decoded = self.frames_decoded + frames;
        }
        let ghost counted = self@;
        assert(counted =~= (if before.end is Some {
            ConsumerView { frames_decoded: (before.frames_decoded + frames) as nat, ..before }
        } else {
            before
        }));
        match advance(timestamp, frames + trimmed, self.rate) {
            Ok(next) => {
                self.next_start = Some(next);
                assert(self@ =~= (ConsumerView { next_start: Some(next), ..counted }));
            },
            Err(e) => {
                return Err(e);
            },
        }
        if samples.len() == 0 {
            return Ok(None);
        }
        Ok(Some(Placed { samples, at, frames }))
    }

    /// Take in a placed packet's samples, as they left the resampler where there is one. Resampled
    /// output starts with what the resampler held from earlier packets, so it is stamped, and
    /// labelled, by where it actually begins.
    pub fn deliver(
        &mut self,
        at: Timestamp,
        frames: usize,
        activity: Activity,
        out: Resampled<T>,
    ) -> (r: Result<(), Error>)
        requires
            old(self).wf(),
            at.wf(),
        ensures
            final(self).wf(),
            ({
                let (after, result) = old(self)@.delivered(
                    at,
                    frames as int,
                    activity,
                    out.pcm@,
                    out.pending as int,
                    out.skipped as int,
                );
                &&& final(self)@ == after
                &&& r is Ok <==> result is Ok
                &&& r is Err ==> result == Err::<(), ErrorView>(r->Err_0@)
            }),
    {
        let ghost before = self@;
        let start: Timestamp = if self.resampling {
            match self.starts_at(at, out.pending, out.skipped) {
                Ok(start) => start,
                Err(e) => {
                    return Err(e);
                },
            }
        } else {
            at
        };
        let end: Timestamp = match advance(at, frames, self.rate) {
            Ok(end) => end,
            Err(e) => {
                return Err(e);
            },
        };
        self.tail = Some(end);
        assert(self@ =~= (ConsumerView { tail: Some(end), ..before }));
        let mut label: Activity = activity;
        if self.resampling {
            self.spans.push_back(Span { end, activity });
            assert(self@ =~= (ConsumerView {
                tail: Some(end),
                spans: before.spans.push(Span { end, activity }),
                ..before
            }));
            if out.pcm.len() == 0 {
                return Ok(());
            }
            label = self.activity_at(start);
        } else if out.pcm.len() == 0 {
            return Ok(());
        }
        self.queue(out.pcm, start, label);
        Ok(())
    }

    /// Finish the track: the tail the resampler still held, once. Finishing consumes the resampler.
    pub fn flush(&mut self, held: Option<Resampled<T>>) -> (r: Result<Option<Output<T>>, Error>)
        requires
            old(self).wf(),
        ensures
            final(self).wf(),
            ({
                let (after, result) = old(self)@.flushed(held_of(held));
                &&& final(self)@ == after
                &&& match r {
                    Ok(Some(output)) => {
                        &&& result == Ok::<Option<OutputView<T>>, ErrorView>(Some(output@))
                        &&& output@.pcm.len() > 0
                    },
                    Ok(None) => result == Ok::<Option<OutputView<T>>, ErrorView>(None),
                    Err(e) => result == Err::<Option<OutputView<T>>, ErrorView>(e@),
                }
            }),
    {
        let ghost before = self@;
        let resampled: bool = self.resampling;
        self.resampling = false;
        assert(self@ =~= (ConsumerView { resampling: false, ..before }));
        if !resampled {
            return Ok(None);
        }
        match (held, self.tail) {
            (Some(held), Some(tail)) => {
                if held.pcm.len() == 0 {
                    return Ok(None);
                }
                match self.starts_at(tail, held.pending, held.skipped) {
                    Ok(timestamp) => {
                        let activity = self.activity_at(timestamp);
                        Ok(Some(Output { pcm: held.pcm, timestamp, activity }))
                    },
                    Err(e) => Err(e),
                }
            },
            _ => Ok(None),
        }
    }
}

/// A track never runs past the end its marker gave: however many packets follow the marker, the
/// frames kept after it add up to no more than the marker leaves room for.
pub proof fn law_nothing_is_kept_past_the_end<T>(
    s: ConsumerView<T>,
    timestamp: Timestamp,
    trimmed: int,
    len: int,
)
    requires
        s.channels > 0,
        s.end is Some,
        s.terminal_start is Some,
        len >= 0,
        trimmed >= 0,
        between(s.terminal_start->0, s.end->0, s.rate as int) is Ok,
        s.frames_decoded <= between(s.terminal_start->0, s.end->0, s.rate as int)->Ok_0,
    ensures
        s.packet(timestamp, trimmed, len).0.frames_decoded <= between(
            s.terminal_start->0,
            s.end->0,
            s.rate as int,
        )->Ok_0,
{
    let total = between(s.terminal_start->0, s.end->0, s.rate as int)->Ok_0;
    let remaining = total - s.frames_decoded;
    let channels = s.channels as int;
    let most = remaining * channels;
    let kept = if most < len {
        most
    } else {
        len
    };
    assert(0 <= kept / channels <= remaining) by (nonlinear_arith)
        requires
            channels > 0,
            0 <= kept <= remaining * channels,
    ;
}

/// A hole leaves nothing to carry over: the next packet begins an epoch of its own.
pub proof fn law_a_hole_starts_over<T>(
    s: ConsumerView<T>,
    drained: Option<(Seq<T>, int, int)>,
    timestamp: Timestamp,
    trimmed: int,
    len: int,
)
    requires
        s.end is None,
        trimmed >= 0,
        s.holed(drained).1 is Ok,
    ensures
        ({
            let next = s.holed(drained).0.packet(timestamp, trimmed, len).0;
            &&& next.epoch == Some(timestamp)
            &&& next.delay_trimmed == trimmed
            &&& next.spans.len() == 0
        }),
{
}

/// Whatever happens to a track, each output that waits, or that finishing it brings, holds samples.
pub proof fn law_every_output_holds_samples<T>(
    s: ConsumerView<T>,
    held: Option<(Seq<T>, int, int)>,
    discontinuity: u64,
    at: Timestamp,
    count: int,
    len: int,
    activity: Activity,
    pcm: Seq<T>,
    pending: int,
    skipped: int,
)
    requires
        s.filled(),
    ensures
        s.interrupted(discontinuity).filled(),
        s.holed(held).0.filled(),
        s.packet(at, count, len).0.filled(),
        s.delivered(at, count, activity, pcm, pending, skipped).0.filled(),
        s.flushed(held).0.filled(),
        s.flushed(held).1 matches Ok(Some(output)) ==> output.pcm.len() > 0,
{
}

/// What each of the reads after the source ended returns. `polls` holds, for each read, how the
/// container counts discontinuities and what the resampler hands back.
pub open spec fn reads_ended<T>(
    s: ConsumerView<T>,
    polls: Seq<(u64, Option<(Seq<T>, int, int)>)>,
) -> Seq<Result<Option<OutputView<T>>, ErrorView>>
    decreases polls.len(),
{
    if polls.len() == 0 {
        Seq::empty()
    } else {
        let (next, result) = s.read_ended(polls[0].0, polls[0].1);
        seq![result] + reads_ended(next, polls.skip(1))
    }
}

/// The end of a track is final. Once its source ended, the outputs that wait are read, oldest first;
/// then what the resampler held, as at most one more output; and from then on every read returns
/// nothing. No output is empty.
pub proof fn law_a_track_ends_once<T>(
    s: ConsumerView<T>,
    polls: Seq<(u64, Option<(Seq<T>, int, int)>)>,
    i: int,
)
    requires
        s.filled(),
        0 <= i < polls.len(),
    ensures
        ({
            let results = reads_ended(s, polls);
            &&& results.len() == polls.len()
            &&& i < s.ready.len() ==> results[i] == Ok::<Option<OutputView<T>>, ErrorView>(
                Some(s.ready[i]),
            )
            &&& i > s.ready.len() ==> results[i] == Ok::<Option<OutputView<T>>, ErrorView>(None)
            &&& results[i] matches Ok(Some(output)) ==> output.pcm.len() > 0
        }),
    decreases polls.len(),
{
    let (next, result) = s.read_ended(polls[0].0, polls[0].1);
    let rest = reads_ended(next, polls.skip(1));
    assert(next.filled());
    if polls.len() > 1 {
        let j = if i == 0 {
            0
        } else {
            i - 1
        };
        law_a_track_ends_once(next, polls.skip(1), j);
        if s.ready.len() == 0 && i > 0 {
            assert(next.over());
            lemma_over(next, polls.skip(1), i - 1);
        }
    }
    if i > 0 {
        assert((seq![result] + rest)[i] == rest[i - 1]);
    }
}

/// A track that is over stays so, and every read of it returns nothing.
proof fn lemma_over<T>(
    s: ConsumerView<T>,
    polls: Seq<(u64, Option<(Seq<T>, int, int)>)>,
    i: int,
)
    requires
        s.over(),
        0 <= i < polls.len(),
    ensures
        reads_ended(s, polls).len() == polls.len(),
        reads_ended(s, polls)[i] == Ok::<Option<OutputView<T>>, ErrorView>(None),
    decreases polls.len(),
{
    let (next, result) = s.read_ended(polls[0].0, polls[0].1);
    let rest = reads_ended(next, polls.skip(1));
    assert(next.over());
    if polls.len() > 1 {
        let j = if i == 0 {
            0
        } else {
            i - 1
        };
        lemma_over(next, polls.skip(1), j);
    }
    if i > 0 {
        assert((seq![result] + rest)[i] == rest[i - 1]);
    }
}

/// Samples per frame: one for each channel, or one where no channel is named.
pub open spec fn width(channels: u32) -> int {
    if channels == 0 {
        1
    } else {
        channels as int
    }
}

/// Whether `t` is where the time of `frames` at `rate` ends that begins at `from`.
pub open spec fn ends(from: Timestamp, frames: int, rate: int, t: Timestamp) -> bool {
    &&& t.scale == from.scale
    &&& from.value <= t.value
    &&& lasts(frames, rate, t.value - from.value, from.scale as int)
}

/// Whether `t` is where the time of `frames` at `rate` begins that ends at `to`, or zero where that
/// reaches past it.
pub open spec fn begins(to: Timestamp, frames: int, rate: int, t: Timestamp) -> bool {
    &&& t.scale == to.scale
    &&& t.value <= to.value
    &&& if t.value > 0 {
        lasts(frames, rate, to.value - t.value, to.scale as int)
    } else {
        to.value * rate <= frames * to.scale
    }
}

proof fn lemma_ends(from: Timestamp, frames: int, rate: int, t: Timestamp)
    requires
        rate > 0,
        frames >= 0,
        ends(from, frames, rate, t),
    ensures
        advanced(from, frames, rate) == Some(t),
{
    lemma_is_quotient(frames * from.scale, rate, t.value - from.value);
}

proof fn lemma_begins(to: Timestamp, frames: int, rate: int, t: Timestamp)
    requires
        rate > 0,
        frames >= 0,
        rewound(to, frames, rate) == Some(t),
    ensures
        begins(to, frames, rate, t),
{
    law_rewinding_takes_away_the_time_of_the_frames(to, frames, rate);
}

proof fn lemma_begins_once(to: Timestamp, frames: int, rate: int, a: Timestamp, b: Timestamp)
    requires
        rate > 0,
        frames >= 0,
        begins(to, frames, rate, a),
        begins(to, frames, rate, b),
    ensures
        a == b,
{
    let x = frames * to.scale;
    if a.value > 0 && b.value > 0 {
        lemma_is_quotient(x, rate, to.value - a.value);
        lemma_is_quotient(x, rate, to.value - b.value);
    } else if a.value > 0 || b.value > 0 {
        let v = if a.value > 0 {
            a.value as int
        } else {
            b.value as int
        };
        assert(false) by (nonlinear_arith)
            requires
                to.value * rate <= x,
                x < (to.value - v + 1) * rate,
                v >= 1,
                rate > 0,
        ;
    }
}

proof fn lemma_frames(len: int, channels: u32, n: int)
    requires
        n * width(channels) <= len < (n + 1) * width(channels),
    ensures
        len / width(channels) == n,
{
    lemma_is_quotient(len, width(channels), n);
}

/// The packet after one of `n` frames, from which `trimmed` were left out, is in line where it is
/// stamped the time of those frames later, and misses exactly where rounding cannot explain how far
/// off it is. A frame holds one sample of each channel, however many there are.
pub proof fn law_the_next_packet_is_in_line<T>(
    s: ConsumerView<T>,
    timestamp: Timestamp,
    trimmed: int,
    len: int,
    n: int,
    next: Timestamp,
    stamp: Timestamp,
)
    requires
        s.rate > 0,
        s.end is None,
        timestamp.wf(),
        trimmed >= 0,
        n >= 0,
        n * width(s.channels) <= len < (n + 1) * width(s.channels),
        s.packet(timestamp, trimmed, len).1 is Ok,
        ends(timestamp, n + trimmed, s.rate as int, next),
        stamp.scale == timestamp.scale,
    ensures
        ({
            let after = s.packet(timestamp, trimmed, len).0;
            let off = if stamp.value > next.value {
                stamp.value - next.value
            } else {
                next.value - stamp.value
            };
            let per_second = if stamp.scale < 1000 {
                stamp.scale as int
            } else {
                1000
            };
            &&& after.end is None
            &&& after.next_start == Some(next)
            &&& !is_discontinuous(after.next_start->0, next)
            &&& is_discontinuous(after.next_start->0, stamp) <==> (off - 2) * per_second
                >= stamp.scale
        }),
{
    lemma_frames(len, s.channels, n);
    lemma_ends(timestamp, n + trimmed, s.rate as int, next);
    law_a_hole_is_what_rounding_cannot_explain(next, next);
    law_a_hole_is_what_rounding_cannot_explain(next, stamp);
    let p = if stamp.scale < 1000 {
        stamp.scale as int
    } else {
        1000
    };
    assert((0 - 2) * p < stamp.scale);
}

/// Before an end is known a packet keeps all its samples. They belong where the packet is stamped,
/// moved back over the codec delay trimmed since the epoch began, but not before the epoch, which is
/// the first packet's stamp.
pub proof fn law_samples_move_back_over_the_trimmed_delay<T>(
    s: ConsumerView<T>,
    timestamp: Timestamp,
    trimmed: int,
    len: int,
    n: int,
)
    requires
        s.rate > 0,
        s.end is None,
        s.terminal_start is None,
        trimmed >= 0,
        n >= 0,
        n * width(s.channels) <= len < (n + 1) * width(s.channels),
    ensures
        ({
            let (after, result) = s.packet(timestamp, trimmed, len);
            let first = match s.epoch {
                Some(epoch) => epoch,
                None => timestamp,
            };
            &&& after.epoch == Some(first)
            &&& after.delay_trimmed == s.delay_trimmed + trimmed
            &&& after.ready == s.ready
            &&& after.tail == s.tail
            &&& after.spans == s.spans
            &&& after.trailing == s.trailing
            &&& after.frames_decoded == s.frames_decoded
            &&& after.end is None
            &&& after.terminal_start is None
            &&& result matches Ok((at, frames, kept)) ==> {
                &&& frames == n
                &&& kept == len
                &&& first.at_most(at)
                &&& at == first || begins(
                    timestamp,
                    s.delay_trimmed + trimmed,
                    s.rate as int,
                    at,
                )
                &&& forall|back: Timestamp| #[trigger]
                    begins(timestamp, s.delay_trimmed + trimmed, s.rate as int, back)
                        && first.at_most(back) ==> at == back
            }
            &&& result matches Err(e) ==> e == ErrorView::TimeOverflow
        }),
{
    lemma_frames(len, s.channels, n);
    let rate = s.rate as int;
    let delay = s.delay_trimmed + trimmed;
    let first = match s.epoch {
        Some(epoch) => epoch,
        None => timestamp,
    };
    law_rewinding_takes_away_the_time_of_the_frames(timestamp, delay, rate);
    if let Some(t) = rewound(timestamp, delay, rate) {
        lemma_begins(timestamp, delay, rate, t);
        assert forall|back: Timestamp| #[trigger]
            begins(timestamp, delay, rate, back) && first.at_most(back) implies later(t, first)
            == back by {
            lemma_begins_once(timestamp, delay, rate, t, back);
        }
    }
}

/// Codec delay leaves no hole: where the first packet of an epoch had `trimmed` frames left out, the
/// next packet in line belongs where the first one's `n` frames end.
pub proof fn law_trimmed_delay_leaves_no_hole<T>(
    s: ConsumerView<T>,
    timestamp: Timestamp,
    trimmed: int,
    len: int,
    n: int,
    next: Timestamp,
    more: int,
)
    requires
        s.rate > 0,
        s.end is None,
        s.terminal_start is None,
        s.epoch is None,
        s.delay_trimmed == 0,
        timestamp.wf(),
        trimmed >= 0,
        n >= 0,
        more >= 0,
        n * width(s.channels) <= len < (n + 1) * width(s.channels),
        next.scale == timestamp.scale,
        next.value >= timestamp.value,
        (next.value - timestamp.value) * s.rate == (n + trimmed) * timestamp.scale,
        trimmed * timestamp.scale % s.rate as int == 0,
        s.packet(timestamp, trimmed, len).1 is Ok,
        s.packet(timestamp, trimmed, len).0.packet(next, 0, more).1 is Ok,
    ensures
        ({
            let (after, first) = s.packet(timestamp, trimmed, len);
            let second = after.packet(next, 0, more).1;
            &&& first->Ok_0.0 == timestamp
            &&& second->Ok_0.0.scale == timestamp.scale
            &&& (second->Ok_0.0.value - timestamp.value) * s.rate == n * timestamp.scale
        }),
{
    let rate = s.rate as int;
    let scale = timestamp.scale as int;
    let q = trimmed * scale / rate;
    lemma_frames(len, s.channels, n);
    assert(trimmed * scale == q * rate) by {
        vstd::arithmetic::div_mod::lemma_fundamental_div_mod(trimmed * scale, rate);
        assert(q * rate == rate * q) by (nonlinear_arith);
    }
    assert(q >= 0) by (nonlinear_arith)
        requires
            q * rate == trimmed * scale,
            trimmed >= 0,
            scale >= 0,
            rate > 0,
    ;
    let d = next.value - timestamp.value;
    assert((d - q) * rate == n * scale) by (nonlinear_arith)
        requires
            d * rate == (n + trimmed) * scale,
            q * rate == trimmed * scale,
    ;
    assert(d >= q) by (nonlinear_arith)
        requires
            (d - q) * rate == n * scale,
            n >= 0,
            scale >= 0,
            rate > 0,
    ;
    let back = rewound(timestamp, trimmed, rate);
    assert(back is Some && back->0.value <= timestamp.value);
    assert(back->0.at_most(timestamp)) by (nonlinear_arith)
        requires
            back->0.value <= timestamp.value,
            back->0.scale == timestamp.scale,
            back->0.at_most(timestamp) == (back->0.value * timestamp.scale <= timestamp.value
                * back->0.scale),
    ;
    law_points_are_ordered_in_seconds(timestamp, back->0);
    assert(s.packet(timestamp, trimmed, len).1->Ok_0.0 == timestamp);
    let b = (next.value - q) as u64;
    let moved = Timestamp { value: b, scale: next.scale };
    assert(rewound(next, trimmed, rate) == Some(moved));
    assert(timestamp.at_most(moved)) by (nonlinear_arith)
        requires
            timestamp.value <= moved.value,
            moved.scale == timestamp.scale,
            timestamp.at_most(moved) == (timestamp.value * moved.scale <= moved.value
                * timestamp.scale),
    ;
    let after = s.packet(timestamp, trimmed, len).0;
    assert(after.delay_trimmed == trimmed);
    assert(after.epoch == Some(timestamp));
    assert(after.packet(next, 0, more).1->Ok_0.0 == moved);
}

/// Once the end is known, packets are counted from the first terminal frame. Each belongs where the
/// ones before it end, keeps all its frames while there is room, and at the end exactly those that
/// fit: no sample of a frame before the end is left out.
pub proof fn law_a_track_is_kept_up_to_its_end<T>(
    s: ConsumerView<T>,
    timestamp: Timestamp,
    trimmed: int,
    len: int,
    total: int,
)
    requires
        s.rate > 0,
        s.channels > 0,
        s.end is Some,
        s.terminal_start is Some,
        trimmed >= 0,
        len >= 0,
        between(s.terminal_start->0, s.end->0, s.rate as int) == Ok::<int, ErrorView>(total),
        s.packet(timestamp, trimmed, len).1 is Ok,
    ensures
        ({
            let (after, result) = s.packet(timestamp, trimmed, len);
            let (at, frames, kept) = result->Ok_0;
            let c = s.channels as int;
            &&& ends(s.terminal_start->0, s.frames_decoded as int, s.rate as int, at)
            &&& frames * c <= kept < (frames + 1) * c
            &&& 0 <= kept <= len
            &&& after.frames_decoded == s.frames_decoded + frames
            &&& after.end == s.end
            &&& after.terminal_start == s.terminal_start
            &&& after.ready == s.ready
            &&& s.frames_decoded <= total ==> after.frames_decoded <= total
            &&& kept < len ==> after.frames_decoded >= total
            &&& s.frames_decoded >= total ==> kept == 0
        }),
{
    let c = s.channels as int;
    let kept = s.packet(timestamp, trimmed, len).1->Ok_0.2;
    let remaining = if total < s.frames_decoded {
        0
    } else {
        total - s.frames_decoded
    };
    let most = remaining * c;
    assert(most >= 0) by (nonlinear_arith)
        requires
            most == remaining * c,
            remaining >= 0,
            c > 0,
    ;
    lemma_quotient(kept, c);
    law_advancing_adds_the_time_of_the_frames(
        s.terminal_start->0,
        s.frames_decoded as int,
        s.rate as int,
    );
    let frames = kept / c;
    if kept == most {
        assert(frames == remaining) by (nonlinear_arith)
            requires
                kept == remaining * c,
                c > 0,
                frames * c <= kept < (frames + 1) * c,
        ;
    }
    assert(frames <= remaining) by (nonlinear_arith)
        requires
            kept <= remaining * c,
            c > 0,
            frames * c <= kept,
    ;
    if remaining == 0 {
        assert(most == 0) by (nonlinear_arith)
            requires
                most == remaining * c,
                remaining == 0,
        ;
    }
}

/// The first terminal frame belongs where the packet that brings it does: its stamp moved back over
/// the trimmed delay, but not before the epoch.
pub proof fn law_the_terminal_count_starts_with_its_first_packet<T>(
    s: ConsumerView<T>,
    timestamp: Timestamp,
    trimmed: int,
    len: int,
)
    requires
        s.rate > 0,
        s.end is Some,
        s.terminal_start is None,
        trimmed >= 0,
        s.packet(timestamp, trimmed, len).1 is Ok,
    ensures
        ({
            let after = s.packet(timestamp, trimmed, len).0;
            let first = match s.epoch {
                Some(epoch) => epoch,
                None => timestamp,
            };
            &&& after.terminal_start is Some
            &&& first.at_most(after.terminal_start->0)
            &&& after.terminal_start->0 == first || begins(
                timestamp,
                s.delay_trimmed + trimmed,
                s.rate as int,
                after.terminal_start->0,
            )
        }),
{
    let delay = s.delay_trimmed + trimmed;
    lemma_begins(timestamp, delay, s.rate as int, rewound(timestamp, delay, s.rate as int)->0);
}

/// No decoded sample is lost at a hole. What the resampler held from before it comes out as one more
/// output, whole and behind the ones that waited, stamped the end of what was decoded moved back over
/// the frames held and the silence skipped. Without samples, or before any packet, there is none.
pub proof fn law_a_hole_hands_out_what_was_held<T>(
    s: ConsumerView<T>,
    pcm: Seq<T>,
    pending: int,
    skipped: int,
)
    requires
        s.rate > 0,
        s.output_rate > 0,
        pending >= 0,
        skipped >= 0,
    ensures
        ({
            let (after, result) = s.holed(Some((pcm, pending, skipped)));
            let n = s.ready.len() as int;
            if pcm.len() > 0 && s.tail is Some {
                &&& result is Ok ==> {
                    &&& after.ready.len() == n + 1
                    &&& after.ready.take(n) == s.ready
                    &&& after.ready[n].pcm == pcm
                    &&& exists|held: Timestamp|
                        begins(s.tail->0, pending, s.rate as int, held) && #[trigger] begins(
                            held,
                            skipped,
                            s.output_rate as int,
                            after.ready[n].timestamp,
                        )
                }
                &&& result is Err ==> after == s && result == Err::<(), ErrorView>(
                    ErrorView::TimeOverflow,
                )
            } else {
                result is Ok && after.ready == s.ready
            }
        }),
        s.holed(None).1 is Ok,
        s.holed(None).0.ready == s.ready,
{
    let (after, result) = s.holed(Some((pcm, pending, skipped)));
    if pcm.len() > 0 && s.tail is Some && result is Ok {
        let held = rewound(s.tail->0, pending, s.rate as int)->0;
        let at = rewound(held, skipped, s.output_rate as int)->0;
        lemma_begins(s.tail->0, pending, s.rate as int, held);
        lemma_begins(held, skipped, s.output_rate as int, at);
        assert(after.ready.take(s.ready.len() as int) =~= s.ready);
        assert(begins(held, skipped, s.output_rate as int, after.ready[s.ready.len() as int].timestamp));
    }
}

/// Past a hole nothing is expected of the next packet, and nothing of before is remembered but what
/// waits to be read, where the track ends, and how it is delivered.
pub proof fn law_nothing_is_carried_over_a_hole<T>(
    s: ConsumerView<T>,
    held: Option<(Seq<T>, int, int)>,
)
    requires
        s.holed(held).1 is Ok,
    ensures
        ({
            let after = s.holed(held).0;
            &&& after.tail is None
            &&& after.next_start is None
            &&& after.spans.len() == 0
            &&& after.trailing is Active
            &&& after.epoch is None
            &&& after.delay_trimmed == 0
            &&& after.rate == s.rate
            &&& after.channels == s.channels
            &&& after.output_rate == s.output_rate
            &&& after.resampling == s.resampling
            &&& after.frames_decoded == s.frames_decoded
            &&& after.end == s.end
            &&& after.terminal_start == s.terminal_start
            &&& after.discontinuity == s.discontinuity
        }),
{
}

/// A container's new discontinuity forgets all that a hole does and the end too, but hands out
/// nothing and drops nothing that waits. The same discontinuity changes nothing.
pub proof fn law_a_discontinuity_starts_over<T>(s: ConsumerView<T>, discontinuity: u64)
    ensures
        ({
            let after = s.interrupted(discontinuity);
            &&& discontinuity == s.discontinuity ==> after == s
            &&& discontinuity != s.discontinuity ==> {
                &&& after.discontinuity == discontinuity
                &&& after.tail is None
                &&& after.next_start is None
                &&& after.spans.len() == 0
                &&& after.trailing is Active
                &&& after.epoch is None
                &&& after.delay_trimmed == 0
                &&& after.frames_decoded == 0
                &&& after.end is None
                &&& after.terminal_start is None
                &&& after.ready == s.ready
                &&& after.rate == s.rate
                &&& after.channels == s.channels
                &&& after.output_rate == s.output_rate
                &&& after.resampling == s.resampling
            }
        }),
{
}

/// Samples that nothing resamples are handed out as they were decoded, where they belong.
pub proof fn law_samples_pass_through<T>(
    s: ConsumerView<T>,
    at: Timestamp,
    frames: int,
    activity: Activity,
    pcm: Seq<T>,
    pending: int,
    skipped: int,
)
    requires
        !s.resampling,
        s.rate > 0,
        frames >= 0,
        pcm.len() > 0,
        s.delivered(at, frames, activity, pcm, pending, skipped).1 is Ok,
    ensures
        ({
            let after = s.delivered(at, frames, activity, pcm, pending, skipped).0;
            let n = s.ready.len() as int;
            &&& after.ready.len() == n + 1
            &&& after.ready.take(n) == s.ready
            &&& after.ready[n].pcm == pcm
            &&& after.ready[n].timestamp == at
            &&& after.ready[n].activity == activity
            &&& after.tail is Some
            &&& ends(at, frames, s.rate as int, after.tail->0)
            &&& after.spans == s.spans
        }),
{
    let after = s.delivered(at, frames, activity, pcm, pending, skipped).0;
    law_advancing_adds_the_time_of_the_frames(at, frames, s.rate as int);
    assert(after.ready.take(s.ready.len() as int) =~= s.ready);
}

/// How the spans behind the output lie: those passed end at or before the point, and the next does
/// not.
pub proof fn law_packets_are_passed_by_their_end<T>(s: ConsumerView<T>, timestamp: Timestamp)
    ensures
        ({
            let n = passed(s.spans, timestamp);
            &&& 0 <= n <= s.spans.len()
            &&& forall|i: int| 0 <= i < n ==> (#[trigger] s.spans[i]).end.at_most(timestamp)
            &&& n < s.spans.len() ==> !s.spans[n].end.at_most(timestamp)
        }),
    decreases s.spans.len(),
{
    if s.spans.len() > 0 && s.spans[0].end.at_most(timestamp) {
        let rest = ConsumerView { spans: s.spans.skip(1), ..s };
        law_packets_are_passed_by_their_end(rest, timestamp);
        let n = passed(s.spans, timestamp);
        assert forall|i: int| 0 <= i < n implies (#[trigger] s.spans[i]).end.at_most(timestamp) by {
            if i > 0 {
                assert(rest.spans[i - 1] == s.spans[i]);
            }
        }
    }
}

/// The activity at a point is that of the packet whose samples cover it: the first one `i` that ends
/// past the point. Past them all it is that of the last packet; with none, that of what came before.
pub proof fn law_a_label_comes_from_the_packet_that_covers_it<T>(
    s: ConsumerView<T>,
    timestamp: Timestamp,
    i: int,
)
    requires
        0 <= i <= s.spans.len(),
        forall|j: int| 0 <= j < i ==> (#[trigger] s.spans[j]).end.at_most(timestamp),
        i < s.spans.len() ==> !s.spans[i].end.at_most(timestamp),
    ensures
        ({
            let (after, activity) = s.reached(timestamp);
            &&& activity == if i < s.spans.len() {
                s.spans[i].activity
            } else if i > 0 {
                s.spans[i - 1].activity
            } else {
                s.trailing
            }
            &&& after.spans.len() == s.spans.len() - i
            &&& forall|j: int| 0 <= j < after.spans.len() ==> #[trigger] after.spans[j] == s.spans[i + j]
            &&& after.ready == s.ready
            &&& after.tail == s.tail
            &&& after.reached(timestamp).1 == activity
        }),
{
    lemma_passed(s.spans, timestamp, i);
    let after = s.reached(timestamp).0;
    lemma_passed(after.spans, timestamp, 0);
}

/// Resampled samples are handed out whole, stamped where they begin: the packet's place moved back
/// over the frames the resampler held and the silence it skipped. They are labelled by the packet
/// that covers that point, and where the packet's own samples end is remembered.
pub proof fn law_resampled_samples_are_stamped_where_they_begin<T>(
    s: ConsumerView<T>,
    at: Timestamp,
    frames: int,
    activity: Activity,
    pcm: Seq<T>,
    pending: int,
    skipped: int,
    i: int,
)
    requires
        s.resampling,
        s.rate > 0,
        s.output_rate > 0,
        frames >= 0,
        pending >= 0,
        skipped >= 0,
        s.delivered(at, frames, activity, pcm, pending, skipped).1 is Ok,
    ensures
        ({
            let after = s.delivered(at, frames, activity, pcm, pending, skipped).0;
            let n = s.ready.len() as int;
            &&& after.tail is Some
            &&& ends(at, frames, s.rate as int, after.tail->0)
            &&& pcm.len() == 0 ==> after.ready == s.ready && after.spans == s.spans.push(
                Span { end: after.tail->0, activity },
            )
            &&& pcm.len() > 0 ==> {
                let all = s.spans.push(Span { end: after.tail->0, activity });
                let out = after.ready[n];
                &&& after.ready.len() == n + 1
                &&& after.ready.take(n) == s.ready
                &&& out.pcm == pcm
                &&& exists|held: Timestamp|
                    begins(at, pending, s.rate as int, held) && #[trigger] begins(
                        held,
                        skipped,
                        s.output_rate as int,
                        out.timestamp,
                    )
                &&& 0 <= i < all.len() && !all[i].end.at_most(out.timestamp) && (forall|j: int|
                    0 <= j < i ==> (#[trigger] all[j]).end.at_most(out.timestamp)) ==> out.activity
                    == all[i].activity
            }
        }),
{
    let after = s.delivered(at, frames, activity, pcm, pending, skipped).0;
    law_advancing_adds_the_time_of_the_frames(at, frames, s.rate as int);
    if pcm.len() > 0 {
        let n = s.ready.len() as int;
        let held = rewound(at, pending, s.rate as int)->0;
        let start = rewound(held, skipped, s.output_rate as int)->0;
        lemma_begins(at, pending, s.rate as int, held);
        lemma_begins(held, skipped, s.output_rate as int, start);
        assert(after.ready.take(n) =~= s.ready);
        assert(after.ready[n].timestamp == start);
        let all = s.spans.push(Span { end: after.tail->0, activity });
        if 0 <= i < all.len() && !all[i].end.at_most(start) && (forall|j: int|
            0 <= j < i ==> (#[trigger] all[j]).end.at_most(start)) {
            lemma_passed(all, start, i);
        }
    }
}

/// Finishing hands out, once and whole, what the resampler held: stamped the end of what was decoded
/// moved back over the frames held and the silence skipped. What waits is not touched.
pub proof fn law_finishing_hands_out_what_was_held<T>(
    s: ConsumerView<T>,
    pcm: Seq<T>,
    pending: int,
    skipped: int,
)
    requires
        s.rate > 0,
        s.output_rate > 0,
        pending >= 0,
        skipped >= 0,
    ensures
        ({
            let (after, result) = s.flushed(Some((pcm, pending, skipped)));
            &&& !after.resampling
            &&& after.ready == s.ready
            &&& if s.resampling && pcm.len() > 0 && s.tail is Some {
                match result {
                    Ok(Some(out)) => out.pcm == pcm && exists|held: Timestamp|
                        begins(s.tail->0, pending, s.rate as int, held) && #[trigger] begins(
                            held,
                            skipped,
                            s.output_rate as int,
                            out.timestamp,
                        ),
                    Ok(None) => false,
                    Err(e) => e == ErrorView::TimeOverflow,
                }
            } else {
                result == Ok::<Option<OutputView<T>>, ErrorView>(None)
            }
        }),
{
    if s.resampling && pcm.len() > 0 && s.tail is Some {
        if let Some(held) = rewound(s.tail->0, pending, s.rate as int) {
            lemma_begins(s.tail->0, pending, s.rate as int, held);
            if let Some(at) = rewound(held, skipped, s.output_rate as int) {
                lemma_begins(held, skipped, s.output_rate as int, at);
                let out = s.flushed(Some((pcm, pending, skipped))).1->Ok_0->0;
                assert(out.timestamp == at);
                assert(begins(held, skipped, s.output_rate as int, out.timestamp));
            }
        }
    }
}

/// Whether `frames` at `rate` last longer than a timestamp of this scale can count.
pub open spec fn uncountable(frames: int, rate: int, scale: int) -> bool {
    (u64::MAX + 1) * rate <= frames * scale
}

/// Nothing is refused but time that timestamps cannot count: held samples where the frames to go back
/// over last too long, and a packet where it ends behind the last timestamp.
pub proof fn law_only_uncountable_time_is_refused<T>(
    s: ConsumerView<T>,
    at: Timestamp,
    frames: int,
    activity: Activity,
    pcm: Seq<T>,
    pending: int,
    skipped: int,
)
    requires
        s.rate > 0,
        s.output_rate > 0,
        frames >= 0,
        pending >= 0,
        skipped >= 0,
    ensures
        ({
            let held = Some((pcm, pending, skipped));
            let late = |t: Timestamp|
                uncountable(pending, s.rate as int, t.scale as int) || uncountable(
                    skipped,
                    s.output_rate as int,
                    t.scale as int,
                );
            let (after, result) = s.delivered(at, frames, activity, pcm, pending, skipped);
            &&& s.holed(held).1 is Err ==> s.tail is Some && late(s.tail->0)
            &&& s.flushed(held).1 is Err ==> s.tail is Some && late(s.tail->0)
            &&& result is Err ==> after == s && (s.resampling && late(at) || (u64::MAX + 1
                - at.value) * s.rate <= frames * at.scale)
        }),
{
    law_advancing_adds_the_time_of_the_frames(at, frames, s.rate as int);
    lemma_countable(s, at, pending, skipped);
    if let Some(tail) = s.tail {
        lemma_countable(s, tail, pending, skipped);
        let quiet = ConsumerView { resampling: false, ..s };
        assert(quiet.starts_at(tail, pending, skipped) == s.starts_at(tail, pending, skipped));
    }
}

proof fn lemma_countable<T>(s: ConsumerView<T>, at: Timestamp, pending: int, skipped: int)
    requires
        s.rate > 0,
        s.output_rate > 0,
        pending >= 0,
        skipped >= 0,
    ensures
        s.starts_at(at, pending, skipped) is None ==> uncountable(
            pending,
            s.rate as int,
            at.scale as int,
        ) || uncountable(skipped, s.output_rate as int, at.scale as int),
{
    law_rewinding_takes_away_the_time_of_the_frames(at, pending, s.rate as int);
    if let Some(t) = rewound(at, pending, s.rate as int) {
        law_rewinding_takes_away_the_time_of_the_frames(t, skipped, s.output_rate as int);
    }
}

/// A packet before the end of its track is known is refused only where its delay or its end cannot
/// be counted.
pub proof fn law_a_packet_is_refused_only_past_counting<T>(
    s: ConsumerView<T>,
    timestamp: Timestamp,
    trimmed: int,
    len: int,
    n: int,
)
    requires
        s.rate > 0,
        s.end is None,
        s.terminal_start is None,
        trimmed >= 0,
        n >= 0,
        n * width(s.channels) <= len < (n + 1) * width(s.channels),
    ensures
        s.packet(timestamp, trimmed, len).1 is Err ==> uncountable(
            s.delay_trimmed + trimmed,
            s.rate as int,
            timestamp.scale as int,
        ) || (u64::MAX + 1 - timestamp.value) * s.rate <= (n + trimmed) * timestamp.scale,
{
    lemma_is_quotient(len, width(s.channels), n);
    law_rewinding_takes_away_the_time_of_the_frames(
        timestamp,
        s.delay_trimmed + trimmed,
        s.rate as int,
    );
    law_advancing_adds_the_time_of_the_frames(timestamp, n + trimmed, s.rate as int);
}

/// Every placed packet, also one that the end of its track cuts, says where the next one starts: as
/// far behind its own stamp as the frames that were kept of it and trimmed from it last.
pub proof fn law_every_packet_says_where_the_next_one_starts<T>(
    s: ConsumerView<T>,
    timestamp: Timestamp,
    trimmed: int,
    len: int,
)
    requires
        s.rate > 0,
        trimmed >= 0,
        len >= 0,
        s.packet(timestamp, trimmed, len).1 is Ok,
    ensures
        ({
            let (after, result) = s.packet(timestamp, trimmed, len);
            let (at, frames, kept) = result->Ok_0;
            &&& 0 <= kept <= len
            &&& frames * width(s.channels) <= kept < (frames + 1) * width(s.channels)
            &&& after.next_start is Some
            &&& ends(timestamp, frames + trimmed, s.rate as int, after.next_start->0)
        }),
{
    let (after, result) = s.packet(timestamp, trimmed, len);
    let (at, frames, kept) = result->Ok_0;
    if s.end is Some {
        let total = between(after.terminal_start->0, s.end->0, s.rate as int)->Ok_0;
        let remaining = if total < s.frames_decoded {
            0
        } else {
            total - s.frames_decoded
        };
        assert(0 <= remaining * s.channels) by (nonlinear_arith)
            requires
                0 <= remaining,
        ;
    }
    lemma_quotient(kept, width(s.channels));
    law_advancing_adds_the_time_of_the_frames(timestamp, frames + trimmed, s.rate as int);
}

/// Held samples are labelled, at a hole and at the end, like any at the point where they start.
pub proof fn law_held_samples_are_labelled_where_they_start<T>(
    s: ConsumerView<T>,
    pcm: Seq<T>,
    pending: int,
    skipped: int,
)
    requires
        pcm.len() > 0,
        s.tail is Some,
    ensures
        ({
            let held = Some((pcm, pending, skipped));
            let n = s.ready.len() as int;
            &&& s.holed(held).1 is Ok ==> s.holed(held).0.ready[n].activity == s.reached(
                s.holed(held).0.ready[n].timestamp,
            ).1
            &&& s.flushed(held).1 matches Ok(Some(out)) ==> out.activity == s.reached(
                out.timestamp,
            ).1
        }),
{
}

/// The frames up to the end of a track are those that fit the time best. They are refused only where
/// the end comes before the start, or where memory could not hold them.
pub proof fn law_the_frames_up_to_the_end_fit_it_best(start: Timestamp, end: Timestamp, rate: int)
    requires
        start.wf(),
        end.wf(),
        rate >= 0,
    ensures
        match between(start, end, rate) {
            Ok(frames) => nanos_between(start, end) is Some && {
                let nanos = nanos_between(start, end)->0;
                &&& frames <= usize::MAX
                &&& 2 * (frames * 1_000_000_000) <= 2 * (nanos * rate) + 1_000_000_000
                &&& 2 * (nanos * rate) < 2 * (frames * 1_000_000_000) + 1_000_000_000
            },
            Err(ErrorView::TimeOverflow) => (end.value + 1) * start.scale <= start.value
                * end.scale,
            Err(_) => nanos_between(start, end) is Some && 2 * (nanos_between(start, end)->0 * rate)
                + 1_000_000_000 >= 2 * ((usize::MAX + 1) * 1_000_000_000),
        },
{
    law_a_marker_is_rounded_to_the_nearest_frame(start, end, rate);
}

/// A packet before the end of its track is refused only where its delay, its start or its end cannot
/// be counted, or the frames up to the end cannot.
pub proof fn law_a_last_packet_is_refused_only_past_counting<T>(
    s: ConsumerView<T>,
    timestamp: Timestamp,
    trimmed: int,
    len: int,
    n: int,
)
    requires
        s.rate > 0,
        s.end is Some,
        trimmed >= 0,
        n >= 0,
        n * width(s.channels) <= len < (n + 1) * width(s.channels),
        s.packet(timestamp, trimmed, len).1 is Err,
    ensures
        ({
            let start = s.packet(timestamp, trimmed, len).0.terminal_start;
            ||| uncountable(s.delay_trimmed + trimmed, s.rate as int, timestamp.scale as int)
            ||| (u64::MAX + 1 - timestamp.value) * s.rate <= (n + trimmed) * timestamp.scale
            ||| start is Some && {
                ||| between(start->0, s.end->0, s.rate as int) is Err
                ||| (u64::MAX + 1 - start->0.value) * s.rate <= s.frames_decoded * start->0.scale
            }
        }),
{
    let rate = s.rate as int;
    law_rewinding_takes_away_the_time_of_the_frames(timestamp, s.delay_trimmed + trimmed, rate);
    if rewound(timestamp, s.delay_trimmed + trimmed, rate) is Some {
        let start = s.packet(timestamp, trimmed, len).0.terminal_start->0;
        if let Ok(total) = between(start, s.end->0, rate) {
            law_advancing_adds_the_time_of_the_frames(start, s.frames_decoded as int, rate);
            let remaining = if total < s.frames_decoded {
                0
            } else {
                total - s.frames_decoded
            };
            let most = remaining * s.channels;
            let kept = if most < len {
                most
            } else {
                len
            };
            let w = width(s.channels);
            let frames = kept / w;
            assert(0 <= most) by (nonlinear_arith)
                requires
                    0 <= remaining,
                    most == remaining * s.channels,
            ;
            assert(0 <= len) by (nonlinear_arith)
                requires
                    0 <= n,
                    0 < w,
                    n * w <= len,
            ;
            lemma_quotient(kept, w);
            assert(frames <= n) by (nonlinear_arith)
                requires
                    frames * w <= kept,
                    kept <= len,
                    len < (n + 1) * w,
                    0 < w,
            ;
            law_advancing_adds_the_time_of_the_frames(timestamp, frames + trimmed, rate);
            assert((frames + trimmed) * timestamp.scale <= (n + trimmed) * timestamp.scale)
                by (nonlinear_arith)
                requires
                    frames <= n,
            ;
        }
    }
}

} // verus!
