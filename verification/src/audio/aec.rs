//! Acoustic echo cancellation: keep the speaker out of the microphone.
//!
//! The work happens in the microphone callback, on 10 ms frames. What does not fill a frame is held
//! back, and each callback gets as many samples back as it brought. The callback works in place: its
//! buffers are made when a microphone opens, and only a callback longer than that grows them.

use super::error::{Error, ErrorView};
use crate::text::{decimal_text, push_decimal};
use vstd::prelude::*;
use vstd::string::StringExecFns;

verus! {

/// Sample rate the echo reference arrives at.
pub const REFERENCE_RATE: u32 = 48_000;

/// Samples per channel in one 10 ms reference frame.
pub const REFERENCE_FRAME: usize = 480;

/// Channels of the echo reference.
pub const BUS_CHANNELS: u32 = 2;

/// The frames per callback that an open microphone's buffers are made for.
pub const MAX_CALLBACK: usize = 4096;

/// Echo cancellation settings.
#[derive(Clone, Copy, Debug, PartialEq, Eq, Structural)]
#[non_exhaustive]
pub struct Config {
    /// Also suppress steady background noise: fans, hum, street noise.
    pub noise_suppression: bool,
    /// Also level the microphone toward a consistent loudness.
    pub auto_gain: bool,
}

impl Default for Config {
    fn default() -> (r: Self)
        ensures
            r == (Config { noise_suppression: true, auto_gain: true }),
    {
        Config { noise_suppression: true, auto_gain: true }
    }
}

/// Why a microphone cannot be processed, if it cannot.
pub open spec fn microphone_fault(sample_rate: u32, channels: u32) -> Option<ErrorView> {
    if !(8_000 <= sample_rate <= 384_000) {
        Some(
            ErrorView::Unsupported(
                "echo cancellation needs a microphone between 8 and 384 kHz (got "@ + decimal_text(
                    sample_rate as nat,
                ) + ")"@,
            ),
        )
    } else if channels == 0 || channels > BUS_CHANNELS {
        Some(
            ErrorView::Unsupported(
                "echo cancellation accepts a mono or stereo microphone (got "@ + decimal_text(
                    channels as nat,
                ) + " channels)"@,
            ),
        )
    } else {
        None
    }
}

/// What a callback is to do with its samples.
#[derive(Clone, Copy, Debug, PartialEq, Eq, Structural)]
pub enum Pass {
    /// Leave them as they are.
    Untouched,
    /// Leave them as they are, and discard the reference that nobody read.
    Bypassed,
    /// Feed the reference, and then the samples, to the processor.
    Process,
}

/// What the microphone callback owns.
#[verifier::ext_equal]
pub struct StateView<T> {
    /// The microphone's format, once one opened.
    pub format: Option<(u32, u32)>,
    /// Whether the last callback cancelled.
    pub running: bool,
    /// Samples that didn't fill a frame, interleaved.
    pub pending: Seq<T>,
    /// Processed samples waiting to be handed back, interleaved.
    pub processed: Seq<T>,
}

impl<T> StateView<T> {
    /// The samples of one 10 ms frame.
    pub open spec fn stride(self) -> int {
        match self.format {
            Some((rate, channels)) => (rate as int / 100) * channels,
            None => 0,
        }
    }

    /// The microphone's channels.
    pub open spec fn channels(self) -> int {
        match self.format {
            Some((_, channels)) => channels as int,
            None => 0,
        }
    }

    /// The samples that came in and did not go back yet.
    pub open spec fn in_flight(self) -> int {
        (self.pending.len() + self.processed.len()) as int
    }

    /// The state with no sample in flight.
    pub open spec fn dropped(self) -> Self {
        StateView { pending: Seq::empty(), processed: Seq::empty(), running: false, ..self }
    }
}

/// The microphone callback's buffers.
#[derive(Debug)]
pub struct State<T> {
    format: Option<(u32, u32)>,
    running: bool,
    pending: Vec<T>,
    processed: Vec<T>,
}

impl<T> View for State<T> {
    type V = StateView<T>;

    closed spec fn view(&self) -> StateView<T> {
        StateView {
            format: self.format,
            running: self.running,
            pending: self.pending@,
            processed: self.processed@,
        }
    }
}

fn same_format(a: Option<(u32, u32)>, rate: u32, channels: u32) -> (r: bool)
    ensures
        r == (a == Some((rate, channels))),
{
    match a {
        Some((r, c)) => r == rate && c == channels,
        None => false,
    }
}

impl<T: Copy> State<T> {
    /// Whether an open microphone has a format that can be processed.
    pub open spec fn wf(self) -> bool {
        match self@.format {
            Some((rate, channels)) => microphone_fault(rate, channels) is None,
            None => true,
        }
    }

    /// No microphone yet.
    pub fn new() -> (r: Self)
        ensures
            r.wf(),
            r@ == (StateView {
                format: None,
                running: false,
                pending: Seq::<T>::empty(),
                processed: Seq::<T>::empty(),
            }),
    {
        let r = State { format: None, running: false, pending: Vec::new(), processed: Vec::new() };
        assert(r@.pending =~= Seq::<T>::empty());
        assert(r@.processed =~= Seq::<T>::empty());
        r
    }

    /// Point the canceller at a microphone with this format, forgetting the samples in flight.
    /// Returns whether the processor has to be rebuilt: an adaptive filter survives as long as the
    /// format hasn't changed, since it is still the same room.
    pub fn open(&mut self, sample_rate: u32, channels: u32) -> (r: Result<bool, Error>)
        requires
            old(self).wf(),
        ensures
            final(self).wf(),
            match r {
                Ok(rebuild) => {
                    &&& microphone_fault(sample_rate, channels) is None
                    &&& rebuild == (old(self)@.format != Some((sample_rate, channels)))
                    &&& final(self)@ == (StateView {
                        format: Some((sample_rate, channels)),
                        ..old(self)@.dropped()
                    })
                },
                Err(e) => microphone_fault(sample_rate, channels) == Some(e@) && final(self)@
                    == old(self)@,
            },
    {
        if !(8_000 <= sample_rate && sample_rate <= 384_000) {
            let mut text = "echo cancellation needs a microphone between 8 and 384 kHz (got ".to_owned();
            push_decimal(&mut text, sample_rate as u64);
            text.append(")");
            return Err(Error::Unsupported(text));
        }
        if channels == 0 || channels > BUS_CHANNELS {
            let mut text = "echo cancellation accepts a mono or stereo microphone (got ".to_owned();
            push_decimal(&mut text, channels as u64);
            text.append(" channels)");
            return Err(Error::Unsupported(text));
        }
        let ghost before = self@;
        let rebuild: bool = !same_format(self.format, sample_rate, channels);
        self.format = Some((sample_rate, channels));
        if rebuild {
            assert((sample_rate as int / 100 + MAX_CALLBACK) * channels <= 7_936 * 2) by (nonlinear_arith)
                requires
                    0 <= sample_rate <= 384_000,
                    0 <= channels <= 2,
            ;
            let headroom: usize = ((sample_rate / 100) as usize + MAX_CALLBACK) * channels as usize;
            self.pending = Vec::with_capacity(headroom);
            self.processed = Vec::with_capacity(headroom);
        }
        self.reset();
        assert(self@ =~= (StateView {
            format: Some((sample_rate, channels)),
            ..before.dropped()
        }));
        Ok(rebuild)
    }

    /// Forget the samples in flight, because the stream they belong to is gone.
    pub fn reset(&mut self)
        requires
            old(self).wf(),
        ensures
            final(self).wf(),
            final(self)@ == old(self)@.dropped(),
    {
        let ghost before = self@;
        self.pending.clear();
        self.processed.clear();
        self.running = false;
        assert(self@ =~= before.dropped());
    }

    /// Take note that samples were dropped before the next callback: what is in flight does not join
    /// up with it.
    pub fn mark_discontinuous(&mut self)
        requires
            old(self).wf(),
        ensures
            final(self).wf(),
            final(self)@ == old(self)@.dropped(),
    {
        self.reset();
    }

    /// How many samples wait for a whole frame.
    pub fn pending_samples(&self) -> (r: usize)
        ensures
            r == self@.pending.len(),
    {
        self.pending.len()
    }

    /// The samples of one 10 ms frame, zero without a microphone.
    pub fn frame_samples(&self) -> (r: usize)
        requires
            self.wf(),
        ensures
            r == self@.stride(),
    {
        match self.format {
            Some((rate, channels)) => {
                assert((rate as int / 100) * channels <= 3_840 * 2) by (nonlinear_arith)
                    requires
                        0 <= rate <= 384_000,
                        0 <= channels <= 2,
                ;
                (rate / 100) as usize * channels as usize
            },
            None => 0,
        }
    }

    /// Begin a callback of `len` samples. Without a microphone, or with a partial frame of channels,
    /// nothing is done. Switched off, the partial frames are dropped, which would otherwise resurface
    /// out of order when it is switched back on.
    pub fn begin(&mut self, len: usize, enabled: bool) -> (r: Pass)
        requires
            old(self).wf(),
        ensures
            final(self).wf(),
            match old(self)@.format {
                None => r == Pass::Untouched && final(self)@ == old(self)@,
                Some((_, channels)) => if len as int % channels as int != 0 {
                    r == Pass::Untouched && final(self)@ == old(self)@
                } else if !enabled {
                    r == Pass::Bypassed && final(self)@ == (if old(self)@.running {
                        old(self)@.dropped()
                    } else {
                        old(self)@
                    })
                } else {
                    r == Pass::Process && final(self)@ == (StateView { running: true, ..old(
                        self)@ })
                },
            },
    {
        let channels: usize = match self.format {
            Some((_, channels)) => channels as usize,
            None => {
                return Pass::Untouched;
            },
        };
        if len % channels != 0 {
            return Pass::Untouched;
        }
        if !enabled {
            if self.running {
                self.reset();
            }
            return Pass::Bypassed;
        }
        self.running = true;
        Pass::Process
    }

    /// Take in the callback's samples.
    pub fn accept(&mut self, samples: &Vec<T>)
        requires
            old(self).wf(),
            old(self)@.pending.len() + samples@.len() <= usize::MAX,
        ensures
            final(self).wf(),
            final(self)@ == (StateView { pending: old(self)@.pending + samples@, ..old(self)@ }),
    {
        let ghost before = self@;
        let mut i: usize = 0;
        assert(self@ =~= (StateView { pending: before.pending + samples@.take(0), ..before }));
        while i < samples.len()
            invariant
                0 <= i <= samples@.len(),
                self@ == (StateView {
                    pending: before.pending + samples@.take(i as int),
                    ..before
                }),
            decreases samples@.len() - i,
        {
            self.pending.push(samples[i]);
            assert(self@ =~= (StateView {
                pending: before.pending + samples@.take(i + 1),
                ..before
            }));
            i = i + 1;
        }
        assert(samples@.take(i as int) =~= samples@);
    }

    /// Move the next whole frame to `heard`, channel-major. Returns whether there was one.
    pub fn next_frame(&mut self, heard: &mut Vec<T>) -> (r: bool)
        requires
            old(self).wf(),
            old(self)@.format is Some,
            old(heard)@.len() == old(self)@.stride(),
        ensures
            final(self).wf(),
            r == (old(self)@.pending.len() >= old(self)@.stride()),
            if r {
                &&& final(heard)@ == channel_major(
                    old(self)@.pending.take(old(self)@.stride()),
                    old(self)@.channels(),
                )
                &&& final(self)@ == (StateView {
                    pending: old(self)@.pending.skip(old(self)@.stride()),
                    ..old(self)@
                })
            } else {
                final(heard)@ == old(heard)@ && final(self)@ == old(self)@
            },
            r ==> final(heard)@.len() == old(heard)@.len() && old(self)@.pending.take(
                old(heard)@.len() as int,
            ) + final(self)@.pending == old(self)@.pending,
    {
        let ghost before = self@;
        let stride: usize = self.frame_samples();
        if self.pending.len() < stride {
            return false;
        }
        let (rate, channels): (u32, usize) = match self.format {
            Some((rate, channels)) => (rate, channels as usize),
            None => (0, 1),
        };
        proof {
            vstd::arithmetic::div_mod::lemma_mod_multiples_basic(
                rate as int / 100,
                channels as int,
            );
        }
        spread(&self.pending, stride, channels, heard);
        remove_first(&mut self.pending, stride);
        assert(self@ =~= (StateView { pending: before.pending.skip(stride as int), ..before }));
        true
    }

    /// Keep a processed frame, channel-major, until it is handed back.
    pub fn keep(&mut self, clean: &Vec<T>)
        requires
            old(self).wf(),
            old(self)@.format is Some,
            clean@.len() as int % old(self)@.channels() == 0,
            old(self)@.processed.len() + clean@.len() <= usize::MAX,
        ensures
            final(self).wf(),
            final(self)@ == (StateView {
                processed: old(self)@.processed + interleaved(clean@, old(self)@.channels()),
                ..old(self)@
            }),
    {
        let ghost before = self@;
        let channels: usize = match self.format {
            Some((_, channels)) => channels as usize,
            None => 1,
        };
        interleave(clean, channels, &mut self.processed);
        assert(self@ =~= (StateView {
            processed: before.processed + interleaved(clean@, channels as int),
            ..before
        }));
    }

    /// Hand back as many samples as came in: the oldest processed ones, and silence where there are
    /// not enough of them.
    pub fn hand_back(&mut self, buf: &mut Vec<T>, silence: T)
        requires
            old(self).wf(),
        ensures
            final(self).wf(),
            final(buf)@.len() == old(buf)@.len(),
            ({
                let len = old(buf)@.len() as int;
                let held = old(self)@.processed;
                let ready = if held.len() < len {
                    held.len() as int
                } else {
                    len
                };
                &&& final(buf)@ == held.take(ready) + Seq::new(
                    (len - ready) as nat,
                    |i: int| silence,
                )
                &&& final(self)@ == (StateView { processed: held.skip(ready), ..old(self)@ })
            }),
            forall|i: int|
                0 <= i < old(buf)@.len() ==> #[trigger] final(buf)@[i] == (if i < old(
                    self,
                )@.processed.len() {
                    old(self)@.processed[i]
                } else {
                    silence
                }),
            forall|i: int|
                0 <= i < final(self)@.processed.len() ==> #[trigger] final(self)@.processed[i]
                    == old(self)@.processed[i + old(buf)@.len()],
            old(self)@.processed.len() <= old(buf)@.len() ==> final(self)@.processed.len() == 0,
            old(self)@.processed.len() > old(buf)@.len() ==> final(self)@.processed.len()
                + old(buf)@.len() == old(self)@.processed.len(),
    {
        let ghost before = self@;
        let ghost held = self.processed@;
        let len: usize = buf.len();
        let ready: usize = if self.processed.len() < len {
            self.processed.len()
        } else {
            len
        };
        let ghost handed = held.take(ready as int) + Seq::new(
            (len - ready) as nat,
            |i: int| silence,
        );
        let mut i: usize = 0;
        while i < len
            invariant
                0 <= i <= len,
                buf@.len() == len,
                ready <= len,
                ready <= held.len(),
                held == self.processed@,
                self@ == before,
                handed == held.take(ready as int) + Seq::new(
                    (len - ready) as nat,
                    |i: int| silence,
                ),
                forall|j: int| 0 <= j < i ==> buf@[j] == handed[j],
            decreases len - i,
        {
            let sample: T = if i < ready {
                self.processed[i]
            } else {
                silence
            };
            buf[i] = sample;
            i = i + 1;
        }
        assert(buf@ =~= handed);
        remove_first(&mut self.processed, ready);
        assert(self@ =~= (StateView { processed: before.processed.skip(ready as int), ..before }));
    }
}

/// Remove the first `n` items, in place.
fn remove_first<T: Copy>(items: &mut Vec<T>, n: usize)
    requires
        n <= old(items)@.len(),
    ensures
        final(items)@ == old(items)@.skip(n as int),
{
    let ghost given = items@;
    let len: usize = items.len();
    let left: usize = len - n;
    let mut i: usize = 0;
    while i < left
        invariant
            0 <= i <= left,
            left + n == len == given.len(),
            items@.len() == given.len(),
            forall|j: int| 0 <= j < i ==> items@[j] == given[j + n],
            forall|j: int| i <= j < given.len() ==> items@[j] == given[j],
        decreases left - i,
    {
        let item: T = items[i + n];
        items[i] = item;
        i = i + 1;
    }
    items.truncate(left);
    assert(items@ =~= given.skip(n as int));
}

/// Interleaved samples as channel-major: every sample of the first channel, then of the second.
pub open spec fn channel_major<T>(samples: Seq<T>, channels: int) -> Seq<T> {
    let frames = samples.len() as int / channels;
    Seq::new(samples.len(), |i: int| samples[(i % frames) * channels + i / frames])
}

/// Channel-major samples as interleaved: one sample of each channel in turn.
pub open spec fn interleaved<T>(samples: Seq<T>, channels: int) -> Seq<T> {
    let frames = samples.len() as int / channels;
    Seq::new(samples.len(), |i: int| samples[(i % channels) * frames + i / channels])
}

proof fn lemma_transposed(i: int, rows: int, columns: int)
    requires
        rows > 0,
        columns > 0,
        0 <= i < rows * columns,
    ensures
        ({
            let j = (i % columns) * rows + i / columns;
            0 <= j < rows * columns && j / rows == i % columns && j % rows == i / columns && (j
                % rows) * columns + j / rows == i
        }),
{
    let c = i % columns;
    let r = i / columns;
    let j = c * rows + r;
    assert(0 <= c < columns && 0 <= r < rows) by (nonlinear_arith)
        requires
            rows > 0,
            columns > 0,
            0 <= i < rows * columns,
            c == i % columns,
            r == i / columns,
    ;
    vstd::arithmetic::div_mod::lemma_fundamental_div_mod_converse(j, rows, c, r);
    vstd::arithmetic::div_mod::lemma_fundamental_div_mod(i, columns);
    assert(r * columns + c == i) by (nonlinear_arith)
        requires
            i == columns * r + c,
    ;
    assert(0 <= j < rows * columns) by (nonlinear_arith)
        requires
            0 <= c < columns,
            0 <= r < rows,
            j == c * rows + r,
    ;
}

proof fn lemma_whole(len: int, channels: int)
    requires
        channels > 0,
        len > 0,
        len % channels == 0,
    ensures
        len / channels > 0,
        (len / channels) * channels == len,
{
    vstd::arithmetic::div_mod::lemma_fundamental_div_mod(len, channels);
    let q = len / channels;
    assert(q * channels == channels * q) by (nonlinear_arith);
    assert(q > 0) by (nonlinear_arith)
        requires
            channels * q > 0,
            channels > 0,
    ;
}

/// Rewrite the first `len` samples, interleaved, as channel-major.
fn spread<T: Copy>(samples: &Vec<T>, len: usize, channels: usize, out: &mut Vec<T>)
    requires
        channels > 0,
        len <= samples@.len(),
        len as int % channels as int == 0,
        old(out)@.len() == len,
    ensures
        final(out)@ == channel_major(samples@.take(len as int), channels as int),
{
    let ghost all = channel_major(samples@.take(len as int), channels as int);
    let frames: usize = len / channels;
    let mut i: usize = 0;
    while i < len
        invariant
            0 <= i <= len,
            len <= samples@.len(),
            channels > 0,
            len as int % channels as int == 0,
            frames == len as int / channels as int,
            all == channel_major(samples@.take(len as int), channels as int),
            out@.len() == len,
            forall|j: int| 0 <= j < i ==> out@[j] == all[j],
        decreases len - i,
    {
        proof {
            lemma_whole(len as int, channels as int);
            assert(frames * channels == channels * frames) by (nonlinear_arith);
            lemma_transposed(i as int, channels as int, frames as int);
            let c = i as int / frames as int;
            let f = i as int % frames as int;
            assert(0 <= f * channels <= f * channels + c) by (nonlinear_arith)
                requires
                    0 <= f,
                    0 <= c,
                    channels > 0,
            ;
        }
        let sample: T = samples[(i % frames) * channels + i / frames];
        out[i] = sample;
        i = i + 1;
    }
    assert(out@ =~= all);
}

/// Rewrite interleaved samples as channel-major, in a buffer of the same length.
pub fn deinterleave<T: Copy>(samples: &Vec<T>, out: &mut Vec<T>, channels: usize)
    requires
        channels > 0,
        samples@.len() as int % channels as int == 0,
        old(out)@.len() == samples@.len(),
    ensures
        final(out)@ == channel_major(samples@, channels as int),
{
    spread(samples, samples.len(), channels, out);
    assert(samples@.take(samples@.len() as int) =~= samples@);
}

/// Append channel-major samples to `out`, interleaved.
pub fn interleave<T: Copy>(samples: &Vec<T>, channels: usize, out: &mut Vec<T>)
    requires
        channels > 0,
        samples@.len() as int % channels as int == 0,
        old(out)@.len() + samples@.len() <= usize::MAX,
    ensures
        final(out)@ == old(out)@ + interleaved(samples@, channels as int),
{
    let ghost given = out@;
    let ghost all = interleaved(samples@, channels as int);
    let frames: usize = samples.len() / channels;
    let mut i: usize = 0;
    assert(given + all.take(0) =~= given);
    while i < samples.len()
        invariant
            0 <= i <= samples@.len(),
            channels > 0,
            samples@.len() as int % channels as int == 0,
            frames == samples@.len() as int / channels as int,
            all == interleaved(samples@, channels as int),
            out@ == given + all.take(i as int),
        decreases samples@.len() - i,
    {
        proof {
            lemma_whole(samples@.len() as int, channels as int);
            lemma_transposed(i as int, frames as int, channels as int);
            let c = i as int % channels as int;
            let f = i as int / channels as int;
            assert(0 <= c * frames <= c * frames + f) by (nonlinear_arith)
                requires
                    0 <= f,
                    0 <= c,
                    frames > 0,
            ;
        }
        out.push(samples[(i % channels) * frames + i / channels]);
        assert(out@ =~= given + all.take(i + 1));
        i = i + 1;
    }
    assert(all.take(i as int) =~= all);
}

/// Interleaving undoes deinterleaving, for whole frames.
pub proof fn law_interleaving_undoes_deinterleaving<T>(samples: Seq<T>, channels: int)
    requires
        channels > 0,
        samples.len() as int % channels == 0,
    ensures
        interleaved(channel_major(samples, channels), channels) == samples,
{
    let major = channel_major(samples, channels);
    let back = interleaved(major, channels);
    let n = samples.len() as int;
    assert forall|i: int| 0 <= i < n implies back[i] == samples[i] by {
        lemma_whole(n, channels);
        let frames = n / channels;
        lemma_transposed(i, frames, channels);
        let j = (i % channels) * frames + i / channels;
        assert(back[i] == major[j]);
        assert(major[j] == samples[(j % frames) * channels + j / frames]);
    }
    assert(back =~= samples);
}

/// What a callback leaves behind, given the samples it brought and what the processor made of the
/// frames they completed, and how much silence it hands back.
pub open spec fn after_callback<T>(before: StateView<T>, given: Seq<T>, clean: Seq<T>) -> (
    StateView<T>,
    int,
) {
    let held = before.processed + clean;
    let ready = if held.len() < given.len() {
        held.len() as int
    } else {
        given.len() as int
    };
    (
        StateView {
            running: true,
            pending: (before.pending + given).skip(clean.len() as int),
            processed: held.skip(ready),
            ..before
        },
        given.len() - ready,
    )
}

/// The latency is bounded: silence is handed back only as the samples in flight grow, and they stay
/// under one frame. So over any run of callbacks less than one frame of silence is inserted, and no
/// sample is lost.
pub proof fn law_latency_is_under_a_frame<T>(before: StateView<T>, given: Seq<T>, clean: Seq<T>)
    requires
        before.stride() > 0,
        before.in_flight() < before.stride(),
        clean.len() == (before.pending.len() + given.len()) as int / before.stride()
            * before.stride(),
    ensures
        ({
            let (after, silence) = after_callback(before, given, clean);
            &&& silence >= 0
            &&& after.in_flight() == before.in_flight() + silence
            &&& after.in_flight() < after.stride()
        }),
{
    let n = (before.pending.len() + given.len()) as int;
    let stride = before.stride();
    vstd::arithmetic::div_mod::lemma_fundamental_div_mod(n, stride);
    vstd::arithmetic::div_mod::lemma_mod_bound(n, stride);
    assert(n / stride * stride == stride * (n / stride)) by (nonlinear_arith);
    assert(n / stride * stride >= 0) by (nonlinear_arith)
        requires
            n >= 0,
            stride > 0,
    ;
}

/// Callbacks of whole frames are not delayed: with nothing in flight, no silence comes back.
pub proof fn law_whole_frames_are_not_delayed<T>(
    before: StateView<T>,
    given: Seq<T>,
    clean: Seq<T>,
)
    requires
        before.stride() > 0,
        before.in_flight() == 0,
        given.len() as int % before.stride() == 0,
        clean.len() == (before.pending.len() + given.len()) as int / before.stride()
            * before.stride(),
    ensures
        after_callback(before, given, clean).1 == 0,
        after_callback(before, given, clean).0.in_flight() == 0,
{
    let n = given.len() as int;
    vstd::arithmetic::div_mod::lemma_fundamental_div_mod(n, before.stride());
    let q = n / before.stride();
    assert(q * before.stride() == before.stride() * q) by (nonlinear_arith);
}

/// How many whole reference frames a pass reads, of the frames available: all of them, since what
/// is left queued is delay on top of the hardware's.
pub fn reference_reads(available: usize) -> (r: usize)
    ensures
        r * REFERENCE_FRAME <= available < (r + 1) * REFERENCE_FRAME,
{
    available / REFERENCE_FRAME
}

/// The echo reference as the playback driver sees it: enough to rebuild the tap when the output
/// device changes underneath it. `P` is the end of the tap the mixer pushes into.
#[derive(Debug)]
pub struct Reference<P> {
    id: u64,
    pending: Option<P>,
}

impl<P> View for Reference<P> {
    type V = (u64, Option<P>);

    closed spec fn view(&self) -> (u64, Option<P>) {
        (self.id, self.pending)
    }
}

impl<P> Reference<P> {
    /// The tap of the canceller with this id, not built yet.
    pub fn new(id: u64) -> (r: Self)
        ensures
            r@ == (id, None::<P>),
    {
        Reference { id, pending: None }
    }

    /// Whether this tap belongs to the canceller with this id.
    pub fn owned_by(&self, id: u64) -> (r: bool)
        ensures
            r == (self@.0 == id),
    {
        self.id == id
    }

    /// Whether the mixer has the producer, i.e. there is nothing left to retry.
    pub fn attached(&self) -> (r: bool)
        ensures
            r == (self@.1 is None),
    {
        self.pending.is_none()
    }

    /// The producer to hand to a running mixer, or `None` if one is already there.
    pub fn take(&mut self) -> (r: Option<P>)
        ensures
            r == old(self)@.1,
            final(self)@ == (old(self)@.0, None::<P>),
    {
        self.pending.take()
    }

    /// Put back a producer the mixer refused, so the next attach retries.
    pub fn restore(&mut self, producer: P)
        ensures
            final(self)@ == (old(self)@.0, Some(producer)),
    {
        self.pending = Some(producer);
    }

    /// Take the producer of a tap re-created for a new output stream. Returns whether the canceller
    /// is still around; the registration is dropped when it isn't.
    pub fn rebuild(&mut self, alive: bool, producer: P) -> (r: bool)
        ensures
            r == alive,
            final(self)@ == (if alive {
                (old(self)@.0, Some(producer))
            } else {
                old(self)@
            }),
    {
        if !alive {
            return false;
        }
        self.pending = Some(producer);
        true
    }
}

/// Echoes are cancelled of a microphone with one channel or two that runs at 8 to 384 kHz, against
/// 10 ms frames of a stereo reference at 48 kHz.
pub proof fn law_a_microphone_is_mono_or_stereo(sample_rate: u32, channels: u32)
    ensures
        microphone_fault(sample_rate, channels) is None <==> 8_000 <= sample_rate && sample_rate
            <= 384_000 && 1 <= channels && channels <= 2,
        REFERENCE_RATE == 48_000,
        100 * REFERENCE_FRAME == REFERENCE_RATE,
        BUS_CHANNELS == 2,
        MAX_CALLBACK == 4_096,
{
}

/// A frame is 10 ms of every channel, in whole samples.
pub proof fn law_a_frame_is_a_hundredth_of_a_second<T>(
    state: StateView<T>,
    rate: u32,
    channels: u32,
    samples: int,
)
    requires
        state.format == Some((rate, channels)),
        100 * samples <= rate < 100 * (samples + 1),
    ensures
        state.stride() == samples * channels,
        state.channels() == channels,
{
}

/// Deinterleaved samples stand channel by channel, and interleaved ones frame by frame, each channel
/// and each frame in its order.
pub proof fn law_samples_stand_by_channel_or_by_frame<T>(
    samples: Seq<T>,
    channels: int,
    frames: int,
    channel: int,
    frame: int,
)
    requires
        0 <= channel < channels,
        0 <= frame < frames,
        samples.len() == frames * channels,
    ensures
        channel_major(samples, channels)[channel * frames + frame] == samples[frame * channels
            + channel],
        interleaved(samples, channels)[frame * channels + channel] == samples[channel * frames
            + frame],
        channel_major(samples, channels).len() == samples.len(),
        interleaved(samples, channels).len() == samples.len(),
{
    assert(samples.len() as int / channels == frames) by {
        vstd::arithmetic::div_mod::lemma_div_multiples_vanish(frames, channels);
        assert(channels * frames == frames * channels) by (nonlinear_arith);
    }
    let i = channel * frames + frame;
    let j = frame * channels + channel;
    vstd::arithmetic::div_mod::lemma_fundamental_div_mod_converse(i, frames, channel, frame);
    vstd::arithmetic::div_mod::lemma_fundamental_div_mod_converse(j, channels, frame, channel);
    assert(0 <= i < frames * channels) by (nonlinear_arith)
        requires
            i == channel * frames + frame,
            0 <= channel < channels,
            0 <= frame < frames,
    ;
    assert(0 <= j < frames * channels) by (nonlinear_arith)
        requires
            j == frame * channels + channel,
            0 <= channel < channels,
            0 <= frame < frames,
    ;
}

/// A callback loses nothing: what it hands out, and then what it holds, is what was processed before
/// and what came back clean; what waits is what waited and was given without as much at its front.
/// It hands out as much as was given, as far as there is as much, and fills the rest with silence.
pub proof fn law_a_callback_loses_nothing<T>(before: StateView<T>, given: Seq<T>, clean: Seq<T>)
    requires
        clean.len() <= before.pending.len() + given.len(),
    ensures
        ({
            let (after, silence) = after_callback(before, given, clean);
            let out = given.len() - silence;
            let have = before.processed.len() + clean.len();
            &&& after.format == before.format
            &&& after.running
            &&& 0 <= silence <= given.len()
            &&& out <= have
            &&& silence > 0 ==> out == have
            &&& (before.processed + clean).take(out) + after.processed =~= before.processed + clean
            &&& (before.pending + given).take(clean.len() as int) + after.pending =~= before.pending
                + given
        }),
{
}

/// What is dropped leaves the format alone, and nothing in flight.
pub proof fn law_dropping_keeps_the_format_alone<T>(state: StateView<T>)
    ensures
        state.dropped().format == state.format,
        state.dropped().in_flight() == 0,
        !state.dropped().running,
        state.in_flight() == state.pending.len() + state.processed.len(),
{
}

} // verus!
