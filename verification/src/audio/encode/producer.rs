//! The published timeline: PTS counts samples from an epoch, and frames leave whole.

use super::encoder::{codec_name, Codec, Drain};
use crate::audio::activity::Activity;
use crate::audio::error::{Error, ErrorView};
use crate::time::Duration;
use vstd::prelude::*;
use vstd::string::StringExecFns;

verus! {

/// The PTS of a frame, in microseconds: the epoch plus the samples emitted since it.
pub open spec fn pts(epoch_us: int, frames: int, rate: int) -> int {
    epoch_us + frames * 1_000_000 / rate
}

/// How a published track gets its name.
#[derive(Debug)]
pub enum TrackName {
    /// The name the caller chose.
    Given(String),
    /// A suffix, for the broadcast to make a unique name with.
    Suffix(String),
}

/// Resolve a track's name: the one that was asked for, or one derived from the codec.
pub fn track_name(track: &Option<String>, codec: Codec) -> (r: TrackName)
    ensures
        match (*track, r) {
            (Some(name), TrackName::Given(given)) => given@ == name@,
            (None, TrackName::Suffix(suffix)) => suffix@ == "."@ + codec_name(codec),
            _ => false,
        },
{
    match track {
        Some(name) => TrackName::Given(name.as_str().to_owned()),
        None => {
            let mut suffix: String = ".".to_owned();
            suffix.append(codec.as_str());
            TrackName::Suffix(suffix)
        },
    }
}

/// How many input frames the resampler takes at a time, where the rates differ: the span of one
/// codec frame, to the microsecond.
pub fn resample_chunk(input_rate: u32, codec_rate: u32, frame: Duration) -> (r: Option<usize>)
    requires
        input_rate == codec_rate || input_rate * frame.micros() / 1_000_000 <= usize::MAX,
    ensures
        r == (if input_rate == codec_rate {
            None
        } else {
            Some((input_rate * frame.micros() / 1_000_000) as usize)
        }),
{
    if input_rate == codec_rate {
        return None;
    }
    let micros: u128 = frame.as_micros();
    assert(0 <= input_rate * micros) by (nonlinear_arith)
        requires
            0 <= input_rate,
            0 <= micros,
    ;
    Some((input_rate as u128 * micros / 1_000_000) as usize)
}

/// What a published track's timeline remembers.
#[verifier::ext_equal]
pub struct ProducerView<T> {
    /// The codec's rate.
    pub rate: u32,
    /// The codec's channels.
    pub channels: int,
    /// Samples per channel in one frame.
    pub frame_size: int,
    /// Samples that did not fill a frame yet.
    pub pending: Seq<T>,
    /// Frames per channel emitted since the epoch.
    pub frames_produced: int,
    /// The timestamp the epoch began with.
    pub epoch_us: Option<u64>,
    /// Whether a marker is owed before the next packet.
    pub pending_discontinuity: bool,
    /// Whether a marker already separates the next packet from prior codec state.
    pub decoder_boundary: bool,
    /// How the last published packet was classified.
    pub activity: Activity,
    /// Whether the track is finished.
    pub finished: bool,
}

impl<T> ProducerView<T> {
    /// Where the epoch began, or zero before any write.
    pub open spec fn origin(self) -> int {
        match self.epoch_us {
            Some(epoch) => epoch as int,
            None => 0,
        }
    }

    /// Whether the timeline reaches `frames` further frames before its clock runs out.
    pub open spec fn reaches(self, frames: int) -> bool {
        &&& (self.frames_produced + frames) * 1_000_000 <= u64::MAX
        &&& pts(self.origin(), self.frames_produced + frames, self.rate as int) <= u64::MAX
    }

    /// The state with nothing buffered and no epoch.
    pub open spec fn forgotten(self) -> Self {
        ProducerView {
            epoch_us: None,
            activity: Activity::Active,
            frames_produced: 0,
            pending: Seq::empty(),
            ..self
        }
    }
}

/// A published track's timeline.
#[derive(Debug)]
pub struct Producer<T> {
    rate: u32,
    channels: u32,
    frame_size: usize,
    pending: Vec<T>,
    frames_produced: u64,
    epoch_us: Option<u64>,
    pending_discontinuity: bool,
    decoder_boundary: bool,
    activity: Activity,
    finished: bool,
}

impl<T> View for Producer<T> {
    type V = ProducerView<T>;

    closed spec fn view(&self) -> ProducerView<T> {
        ProducerView {
            rate: self.rate,
            channels: self.channels as int,
            frame_size: self.frame_size as int,
            pending: self.pending@,
            frames_produced: self.frames_produced as int,
            epoch_us: self.epoch_us,
            pending_discontinuity: self.pending_discontinuity,
            decoder_boundary: self.decoder_boundary,
            activity: self.activity,
            finished: self.finished,
        }
    }
}

fn stamp(epoch_us: u64, frames: u64, rate: u32) -> (r: u64)
    requires
        rate > 0,
        frames * 1_000_000 <= u64::MAX,
        pts(epoch_us as int, frames as int, rate as int) <= u64::MAX,
    ensures
        r == pts(epoch_us as int, frames as int, rate as int),
{
    epoch_us + frames * 1_000_000 / rate as u64
}

/// When a finished track's last packets are presented.
#[derive(Clone, Copy, Debug, PartialEq, Eq, Structural)]
pub struct Terminal {
    /// The first terminal packet, in microseconds.
    pub start_us: u64,
    /// The logical end of the track, in microseconds.
    pub end_us: u64,
    /// Whether an empty frame has to carry the end, because the packets run past it.
    pub marked: bool,
}

impl<T: Copy> Producer<T> {
    /// Whether a frame is not empty and fits in memory.
    pub open spec fn wf(self) -> bool {
        &&& self@.rate > 0
        &&& self@.frame_size > 0
        &&& self@.channels > 0
        &&& self@.frame_size * self@.channels <= usize::MAX
    }

    /// A track that nothing was written to.
    pub fn new(rate: u32, channels: u32, frame_size: usize) -> (r: Self)
        requires
            rate > 0,
            channels > 0,
            frame_size > 0,
            frame_size * channels <= usize::MAX,
        ensures
            r.wf(),
            r@ == (ProducerView {
                rate,
                channels: channels as int,
                frame_size: frame_size as int,
                pending: Seq::<T>::empty(),
                frames_produced: 0,
                epoch_us: None,
                pending_discontinuity: false,
                decoder_boundary: true,
                activity: Activity::Active,
                finished: false,
            }),
    {
        let r = Producer {
            rate,
            channels,
            frame_size,
            pending: Vec::new(),
            frames_produced: 0,
            epoch_us: None,
            pending_discontinuity: false,
            decoder_boundary: true,
            activity: Activity::Active,
            finished: false,
        };
        assert(r@.pending =~= Seq::<T>::empty());
        r
    }

    /// How the last published packet was classified.
    pub fn activity(&self) -> (r: Activity)
        ensures
            r == self@.activity,
    {
        self.activity
    }

    /// Begin a write. Returns whether a marker has to be published first; it stays owed until it was.
    /// A finished track takes no writes.
    pub fn begin(&self) -> (r: Result<bool, Error>)
        ensures
            if self@.finished {
                r is Err && r->Err_0@ == ErrorView::Net("closed"@)
            } else {
                r == Ok::<bool, Error>(self@.pending_discontinuity)
            },
    {
        if self.finished {
            return Err(Error::Net("closed".to_owned()));
        }
        Ok(self.pending_discontinuity)
    }

    /// The marker that was owed is published: it separates the next packet from prior codec state.
    pub fn marked(&mut self)
        requires
            old(self).wf(),
        ensures
            final(self).wf(),
            final(self)@ == (ProducerView {
                pending_discontinuity: false,
                decoder_boundary: true,
                ..old(self)@
            }),
    {
        self.pending_discontinuity = false;
        self.decoder_boundary = true;
    }

    /// Anchor the timeline with the first write after construction or a reset; the timestamps of
    /// later writes are ignored.
    pub fn anchor(&mut self, timestamp_us: u64)
        requires
            old(self).wf(),
        ensures
            final(self).wf(),
            final(self)@ == (ProducerView {
                epoch_us: match old(self)@.epoch_us {
                    Some(epoch) => Some(epoch),
                    None => Some(timestamp_us),
                },
                ..old(self)@
            }),
    {
        if self.epoch_us.is_none() {
            self.epoch_us = Some(timestamp_us);
        }
    }

    /// Buffer samples at the codec's rate and channels.
    pub fn push(&mut self, samples: &Vec<T>)
        requires
            old(self).wf(),
            old(self)@.pending.len() + samples@.len() <= usize::MAX,
        ensures
            final(self).wf(),
            final(self)@ == (ProducerView {
                pending: old(self)@.pending + samples@,
                ..old(self)@
            }),
    {
        let ghost before = self.pending@;
        let mut i: usize = 0;
        assert(before =~= before + samples@.take(0));
        while i < samples.len()
            invariant
                0 <= i <= samples@.len(),
                self.pending@ == before + samples@.take(i as int),
                self@ == (ProducerView { pending: self.pending@, ..old(self)@ }),
            decreases samples@.len() - i,
        {
            self.pending.push(samples[i]);
            assert(self.pending@ =~= before + samples@.take(i + 1));
            assert(self@ =~= (ProducerView { pending: self.pending@, ..old(self)@ }));
            i = i + 1;
        }
        assert(samples@.take(i as int) =~= samples@);
    }

    /// The next whole frame to encode, if enough is buffered. A partial frame stays for later.
    pub fn next_frame(&mut self) -> (r: Option<Vec<T>>)
        requires
            old(self).wf(),
        ensures
            final(self).wf(),
            ({
                let size = old(self)@.frame_size * old(self)@.channels;
                match r {
                    Some(frame) => {
                        &&& old(self)@.pending.len() >= size
                        &&& frame@ == old(self)@.pending.take(size)
                        &&& final(self)@ == (ProducerView {
                            pending: old(self)@.pending.skip(size),
                            ..old(self)@
                        })
                    },
                    None => old(self)@.pending.len() < size && final(self)@ == old(self)@,
                }
            }),
            r matches Some(frame) ==> frame@ + final(self)@.pending == old(self)@.pending
                && frame@.len() == old(self)@.frame_size * old(self)@.channels,
    {
        let ghost before = self@;
        let size: usize = self.frame_size * self.channels as usize;
        if self.pending.len() < size {
            return None;
        }
        let mut frame: Vec<T> = Vec::new();
        let mut rest: Vec<T> = Vec::new();
        let mut i: usize = 0;
        while i < self.pending.len()
            invariant
                0 <= i <= self.pending@.len(),
                size <= self.pending@.len(),
                self@ == before,
                frame@ == self.pending@.take(if i < size {
                    i as int
                } else {
                    size as int
                }),
                rest@ == self.pending@.subrange(
                    size as int,
                    if i < size {
                        size as int
                    } else {
                        i as int
                    },
                ),
            decreases self.pending@.len() - i,
        {
            if i < size {
                frame.push(self.pending[i]);
                assert(frame@ =~= self.pending@.take(i + 1));
            } else {
                rest.push(self.pending[i]);
                assert(rest@ =~= self.pending@.subrange(size as int, i + 1));
            }
            i = i + 1;
        }
        assert(rest@ =~= self.pending@.skip(size as int));
        self.pending = rest;
        assert(self@ =~= (ProducerView { pending: before.pending.skip(size as int), ..before }));
        Some(frame)
    }

    /// Whether the timeline reaches `frames` further frames per channel before its clock runs out.
    pub fn reaches(&self, frames: usize) -> (r: bool)
        requires
            self.wf(),
        ensures
            r == self@.reaches(frames as int),
    {
        let total: u64 = match self.frames_produced.checked_add(frames as u64) {
            Some(total) => total,
            None => {
                return false;
            },
        };
        match total.checked_mul(1_000_000) {
            Some(scaled) => {
                let offset: u64 = scaled / self.rate as u64;
                match self.epoch_us {
                    Some(epoch) => offset <= u64::MAX - epoch,
                    None => true,
                }
            },
            None => false,
        }
    }

    /// When the next packet is presented.
    pub fn next_timestamp(&self) -> (r: u64)
        requires
            self.wf(),
            self@.reaches(0),
        ensures
            r == pts(self@.origin(), self@.frames_produced, self@.rate as int),
    {
        let epoch: u64 = match self.epoch_us {
            Some(epoch) => epoch,
            None => 0,
        };
        stamp(epoch, self.frames_produced, self.rate)
    }

    /// Count one frame of the codec.
    pub fn count(&mut self)
        requires
            old(self).wf(),
            old(self)@.reaches(old(self)@.frame_size),
        ensures
            final(self).wf(),
            final(self)@ == (ProducerView {
                frames_produced: old(self)@.frames_produced + old(self)@.frame_size,
                ..old(self)@
            }),
    {
        self.frames_produced = self.frames_produced + self.frame_size as u64;
    }

    /// Take note of how a packet was classified.
    pub fn classify(&mut self, activity: Activity)
        requires
            old(self).wf(),
        ensures
            final(self).wf(),
            final(self)@ == (ProducerView { activity, ..old(self)@ }),
    {
        self.activity = activity;
    }

    /// Stamp a packet that was just encoded, and count its frame.
    pub fn publish(&mut self, activity: Activity) -> (r: u64)
        requires
            old(self).wf(),
            old(self)@.reaches(old(self)@.frame_size),
        ensures
            final(self).wf(),
            r == pts(old(self)@.origin(), old(self)@.frames_produced, old(self)@.rate as int),
            final(self)@ == (ProducerView {
                frames_produced: old(self)@.frames_produced + old(self)@.frame_size,
                activity,
                ..old(self)@
            }),
    {
        proof {
            law_pts_never_goes_back(
                self@.origin(),
                self@.frames_produced,
                self@.frames_produced + self@.frame_size,
                self.rate as int,
            );
        }
        let timestamp: u64 = self.next_timestamp();
        self.count();
        self.classify(activity);
        timestamp
    }

    /// The packet is published: the next one follows on its codec state.
    pub fn published(&mut self)
        requires
            old(self).wf(),
        ensures
            final(self).wf(),
            final(self)@ == (ProducerView { decoder_boundary: false, ..old(self)@ }),
    {
        self.decoder_boundary = false;
    }

    fn forget(&mut self)
        requires
            old(self).wf(),
        ensures
            final(self).wf(),
            final(self)@ == old(self)@.forgotten(),
    {
        let ghost before = self@;
        self.epoch_us = None;
        self.activity = Activity::Active;
        self.frames_produced = 0;
        self.pending.clear();
        assert(self@ =~= before.forgotten());
    }

    /// Re-anchor the timeline to the next write's timestamp, dropping any buffered samples. If the
    /// codec had started and nothing separates the next packet from it yet, a marker is owed.
    pub fn reset_epoch(&mut self, started: bool)
        requires
            old(self).wf(),
        ensures
            final(self).wf(),
            final(self)@ == (ProducerView {
                pending_discontinuity: old(self)@.pending_discontinuity || started && !old(
                    self)@.decoder_boundary,
                ..old(self)@.forgotten()
            }),
    {
        if started && !self.decoder_boundary {
            self.pending_discontinuity = true;
        }
        self.forget();
    }

    /// Mark a break in the published timeline: a marker was just published.
    pub fn discontinuity(&mut self)
        requires
            old(self).wf(),
        ensures
            final(self).wf(),
            final(self)@ == (ProducerView {
                pending_discontinuity: false,
                decoder_boundary: true,
                ..old(self)@.forgotten()
            }),
    {
        self.pending_discontinuity = false;
        self.decoder_boundary = true;
        self.forget();
    }

    /// Whether the track is finished already: finishing it again does nothing.
    pub fn finished(&self) -> (r: bool)
        ensures
            r == self@.finished,
    {
        self.finished
    }

    /// Plan the end of the track, with every whole frame published: when the partial frame that is
    /// left starts, and when the source ends. Packets that run past the source need the end marked.
    pub fn terminal(&self, drain: &Drain) -> (r: Terminal)
        requires
            self.wf(),
            self@.reaches(self@.pending.len() as int / self@.channels),
        ensures
            r.start_us == pts(self@.origin(), self@.frames_produced, self@.rate as int),
            r.end_us == pts(
                self@.origin(),
                self@.frames_produced + self@.pending.len() as int / self@.channels,
                self@.rate as int,
            ),
            r.marked == (drain.discard_padding > 0),
    {
        let epoch: u64 = match self.epoch_us {
            Some(epoch) => epoch,
            None => 0,
        };
        let source: usize = self.pending.len() / self.channels as usize;
        proof {
            let n = self.pending@.len() as int;
            let c = self.channels as int;
            assert(0 <= source <= n) by (nonlinear_arith)
                requires
                    source == n / c,
                    c >= 1,
                    n >= 0,
            ;
            law_pts_never_goes_back(
                epoch as int,
                self.frames_produced as int,
                self.frames_produced + source,
                self.rate as int,
            );
        }
        Terminal {
            start_us: stamp(epoch, self.frames_produced, self.rate),
            end_us: stamp(epoch, self.frames_produced + source as u64, self.rate),
            marked: drain.discard_padding > 0,
        }
    }

    /// When terminal packet `index` is presented, counted from the first.
    pub fn terminal_stamp(&self, start_us: u64, index: usize) -> (r: Result<u64, Error>)
        requires
            self.wf(),
            index * self@.frame_size <= usize::MAX,
        ensures
            ({
                let at = pts(start_us as int, index * self@.frame_size, self@.rate as int);
                match r {
                    Ok(stamp) => stamp == at,
                    Err(e) => at > u64::MAX && e@ == ErrorView::TimeOverflow,
                }
            }),
    {
        let frames: u128 = (index * self.frame_size) as u128;
        assert(0 <= frames * 1_000_000 / (self.rate as int) <= frames * 1_000_000)
            by (nonlinear_arith)
            requires
                self.rate > 0,
                0 <= frames,
        ;
        let at: u128 = start_us as u128 + frames * 1_000_000 / self.rate as u128;
        if at > u64::MAX as u128 {
            return Err(Error::TimeOverflow);
        }
        Ok(at as u64)
    }

    /// The track was finished.
    pub fn finish(&mut self)
        requires
            old(self).wf(),
        ensures
            final(self).wf(),
            final(self)@ == (ProducerView { finished: true, ..old(self)@ }),
    {
        self.finished = true;
    }

    /// The samples that did not fill a frame.
    pub fn pending(&self) -> (r: &Vec<T>)
        ensures
            r@ == self@.pending,
    {
        &self.pending
    }
}

/// PTS follow the samples: more frames never lead to an earlier one.
pub proof fn law_pts_never_goes_back(epoch: int, fewer: int, more: int, rate: int)
    requires
        0 <= fewer <= more,
        rate > 0,
    ensures
        epoch <= pts(epoch, fewer, rate) <= pts(epoch, more, rate),
{
    assert(0 <= fewer * 1_000_000 / rate <= more * 1_000_000 / rate) by (nonlinear_arith)
        requires
            0 <= fewer <= more,
            rate > 0,
    ;
}

/// PTS do not drift: after any number of frames the PTS is within a microsecond of the exact time.
pub proof fn law_pts_do_not_drift(epoch: int, frames: int, rate: int)
    requires
        0 <= frames,
        rate > 0,
    ensures
        (pts(epoch, frames, rate) - epoch) * rate <= frames * 1_000_000 < (pts(epoch, frames, rate)
            - epoch + 1) * rate,
{
    let n = frames * 1_000_000;
    let q = n / rate;
    vstd::arithmetic::div_mod::lemma_fundamental_div_mod(n, rate);
    vstd::arithmetic::div_mod::lemma_mod_bound(n, rate);
    assert(q * rate == rate * q) by (nonlinear_arith);
    assert((q + 1) * rate == q * rate + rate) by (nonlinear_arith);
}

/// A reset moves the gap into the PTS: the first packet after it is stamped with the first write
/// after it.
pub proof fn law_reset_reanchors<T>(s: ProducerView<T>, timestamp_us: u64)
    requires
        s.rate > 0,
    ensures
        ({
            let anchored = ProducerView { epoch_us: Some(timestamp_us), ..s.forgotten() };
            pts(anchored.origin(), anchored.frames_produced, anchored.rate as int) == timestamp_us
        }),
{
}

/// A packet is stamped with the microseconds that the frames before it last, cut to a whole one,
/// after the point where they began.
pub proof fn law_a_stamp_is_the_time_of_the_frames_before(epoch: int, frames: int, rate: int)
    requires
        rate > 0,
        frames >= 0,
    ensures
        (pts(epoch, frames, rate) - epoch) * rate <= frames * 1_000_000,
        frames * 1_000_000 < (pts(epoch, frames, rate) - epoch + 1) * rate,
{
    let x = frames * 1_000_000;
    let q = x / rate;
    vstd::arithmetic::div_mod::lemma_fundamental_div_mod(x, rate);
    assert(q * rate == rate * q) by (nonlinear_arith);
    assert((q + 1) * rate == q * rate + rate) by (nonlinear_arith);
}

/// A producer that forgets keeps its shape and its boundaries, and starts over in all else: nothing
/// waits, nothing was produced, and the next samples say when it begins.
pub proof fn law_a_producer_that_forgets_starts_over<T>(s: ProducerView<T>)
    ensures
        s.forgotten().rate == s.rate,
        s.forgotten().channels == s.channels,
        s.forgotten().frame_size == s.frame_size,
        s.forgotten().pending_discontinuity == s.pending_discontinuity,
        s.forgotten().decoder_boundary == s.decoder_boundary,
        s.forgotten().finished == s.finished,
        s.forgotten().pending.len() == 0,
        s.forgotten().frames_produced == 0,
        s.forgotten().epoch_us is None,
        s.forgotten().activity is Active,
{
}

/// A producer counts from the point that its first samples came with, and from zero before any did.
pub proof fn law_a_producer_counts_from_its_epoch<T>(s: ProducerView<T>)
    ensures
        s.epoch_us is None ==> s.origin() == 0,
        s.epoch_us matches Some(epoch) ==> s.origin() == epoch,
{
}

/// A producer reaches as many frames as 64 bits can count in millionths and stamp in microseconds.
pub proof fn law_a_producer_reaches_what_it_can_stamp<T>(s: ProducerView<T>, frames: int)
    requires
        s.rate > 0,
        frames >= 0,
        s.frames_produced >= 0,
    ensures
        s.reaches(frames) <==> {
            let all = (s.frames_produced + frames) * 1_000_000;
            let epoch = match s.epoch_us {
                Some(epoch) => epoch as int,
                None => 0,
            };
            &&& all <= u64::MAX
            &&& all < (u64::MAX + 1 - epoch) * s.rate
        },
{
    let rate = s.rate as int;
    let x = (s.frames_produced + frames) * 1_000_000;
    let q = x / rate;
    let room = u64::MAX + 1 - s.origin();
    vstd::arithmetic::div_mod::lemma_fundamental_div_mod(x, rate);
    assert(q < room <==> x < room * rate) by (nonlinear_arith)
        requires
            rate > 0,
            x == rate * q + x % rate,
            0 <= x % rate < rate,
    ;
}

} // verus!
