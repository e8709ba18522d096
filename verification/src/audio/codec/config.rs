//! Encoder settings, and what a decoder makes of a catalog entry.

use super::head::{head_bytes, plain, Head};
use super::opus::{channels_fault, channels_for, rate_fault, validate_sample_rate, Rendition};
use crate::audio::error::{Error, ErrorView};
use crate::audio::format::AudioFormat;
use crate::text::{decimal_text, push_decimal, push_wide_decimal};
use crate::time::{Duration, Timestamp};
use vstd::prelude::*;
use vstd::string::StringExecFns;

verus! {

/// Codec identifier.
#[derive(Clone, Copy, Debug, PartialEq, Eq, Structural)]
#[non_exhaustive]
pub enum Codec {
    /// Opus.
    Opus,
}

/// Encoder configuration.
///
/// The input fields describe what the caller will pass to the encoder. They are baked in at
/// construction so individual frames don't carry format information.
#[derive(Clone, Debug)]
pub struct EncoderConfig {
    /// The codec to encode with.
    pub codec: Codec,
    /// The sample format of the input.
    pub input_format: AudioFormat,
    /// The sample rate of the input.
    pub input_sample_rate: u32,
    /// The channels of the input.
    pub input_channels: u32,
    /// Bitrate in bits per second. `None` lets the codec pick.
    pub bitrate: Option<u32>,
    /// Encoded frame duration. Opus accepts 2.5 / 5 / 10 / 20 / 40 / 60 ms.
    pub frame_duration: Duration,
}

impl Default for EncoderConfig {
    fn default() -> (r: Self)
        ensures
            r.codec == Codec::Opus,
            r.input_format == AudioFormat::F32,
            r.input_sample_rate == 48_000,
            r.input_channels == 2,
            r.bitrate is None,
            r.frame_duration.nanos == 20_000_000,
    {
        EncoderConfig {
            codec: Codec::Opus,
            input_format: AudioFormat::F32,
            input_sample_rate: 48_000,
            input_channels: 2,
            bitrate: None,
            frame_duration: Duration::from_millis(20),
        }
    }
}

/// Decoder configuration: how the caller wants samples delivered. `None` for rate or channels means
/// "match the codec's native shape from the catalog".
#[derive(Clone, Debug)]
pub struct DecoderConfig {
    /// The sample format of the output.
    pub output_format: AudioFormat,
    /// The sample rate of the output.
    pub output_sample_rate: Option<u32>,
    /// The channels of the output.
    pub output_channels: Option<u32>,
}

/// Whether Opus runs at `rate`.
pub open spec fn opus_rate(rate: u32) -> bool {
    rate == 8_000 || rate == 12_000 || rate == 16_000 || rate == 24_000 || rate == 48_000
}

/// Pick a supported rate close to `input_rate`: the least that is no lower, or the highest.
pub fn pick_opus_rate(input_rate: u32) -> (r: u32)
    ensures
        opus_rate(r),
        input_rate <= 48_000 ==> r >= input_rate && forall|other: u32|
            #![trigger opus_rate(other)]
            opus_rate(other) && other >= input_rate ==> r <= other,
        input_rate > 48_000 ==> r == 48_000,
{
    if input_rate <= 8_000 {
        8_000
    } else if input_rate <= 12_000 {
        12_000
    } else if input_rate <= 16_000 {
        16_000
    } else if input_rate <= 24_000 {
        24_000
    } else {
        48_000
    }
}

/// A rate that Opus runs at is picked as it is.
pub proof fn law_supported_rates_are_kept(rate: u32, picked: u32)
    requires
        opus_rate(rate),
        opus_rate(picked),
        picked >= rate,
        forall|other: u32| #![trigger opus_rate(other)] opus_rate(other) && other >= rate ==> picked
            <= other,
    ensures
        picked == rate,
{
}

/// Refuse a rate that Opus does not run at.
pub fn validate_opus_rate(rate: u32) -> (r: Result<(), Error>)
    ensures
        match r {
            Ok(_) => opus_rate(rate),
            Err(e) => !opus_rate(rate) && e@ == rate_fault(rate),
        },
{
    validate_sample_rate(rate)
}

/// Whether Opus takes frames of this duration: 2.5, 5, 10, 20, 40 or 60 ms, to the nanosecond.
pub open spec fn opus_duration(duration: Duration) -> bool {
    ||| duration.nanos == 2_500_000
    ||| duration.nanos == 5_000_000
    ||| duration.nanos == 10_000_000
    ||| duration.nanos == 20_000_000
    ||| duration.nanos == 40_000_000
    ||| duration.nanos == 60_000_000
}

/// Input frames in one encoded frame. Opus only accepts a few exact durations; the refusal of another
/// names it in whole microseconds.
pub fn frame_size_for(sample_rate: u32, duration: Duration) -> (r: Result<usize, Error>)
    ensures
        match r {
            Ok(frames) => opus_duration(duration) && frames == sample_rate
                * duration.micros() / 1_000_000,
            Err(e) => !opus_duration(duration) && e@ == ErrorView::Unsupported(
                "opus frame duration must be 2.5/5/10/20/40/60 ms (got "@ + decimal_text(
                    duration.micros() as nat,
                ) + " us)"@,
            ),
        },
{
    let micros: u128 = duration.as_micros();
    let nanos: u128 = duration.nanos;
    if !(nanos == 2_500_000 || nanos == 5_000_000 || nanos == 10_000_000 || nanos == 20_000_000
        || nanos == 40_000_000 || nanos == 60_000_000) {
        let mut text = "opus frame duration must be 2.5/5/10/20/40/60 ms (got ".to_owned();
        push_wide_decimal(&mut text, micros);
        text.append(" us)");
        return Err(Error::Unsupported(text));
    }
    assert(sample_rate * micros <= u32::MAX * 60_000) by (nonlinear_arith)
        requires
            sample_rate <= u32::MAX,
            micros <= 60_000,
    ;
    assert(sample_rate * micros / 1_000_000 <= u32::MAX) by (nonlinear_arith)
        requires
            0 <= sample_rate * micros <= u32::MAX * 60_000,
    ;
    Ok((sample_rate as u128 * micros / 1_000_000) as usize)
}

/// The shape of an encoder: what it was asked for, and what the codec runs at.
#[derive(Clone, Debug)]
pub struct Encoder {
    config: EncoderConfig,
    codec_rate: u32,
    frame_size: usize,
}

impl Encoder {
    /// What it was asked for.
    pub closed spec fn asked(self) -> EncoderConfig {
        self.config
    }

    /// The rate the codec runs at.
    pub closed spec fn rate(self) -> u32 {
        self.codec_rate
    }

    /// Input frames in one encoded frame.
    pub closed spec fn frames(self) -> usize {
        self.frame_size
    }

    /// Shape an encoder: snap the rate to one the codec runs at, and check the channels and the
    /// frame duration.
    pub fn new(config: EncoderConfig) -> (r: Result<Self, Error>)
        ensures
            match r {
                Ok(encoder) => {
                    &&& channels_fault(config.input_channels) is None
                    &&& opus_duration(config.frame_duration)
                    &&& encoder.asked() == config
                    &&& opus_rate(encoder.rate())
                    &&& config.input_sample_rate <= 48_000 ==> encoder.rate()
                        >= config.input_sample_rate && forall|other: u32|
                        #![trigger opus_rate(other)]
                        opus_rate(other) && other >= config.input_sample_rate ==> encoder.rate()
                            <= other
                    &&& config.input_sample_rate > 48_000 ==> encoder.rate() == 48_000
                    &&& encoder.frames() == encoder.rate() * config.frame_duration.micros()
                        / 1_000_000
                },
                Err(e) => match channels_fault(config.input_channels) {
                    Some(fault) => e@ == fault,
                    None => !opus_duration(config.frame_duration) && e@
                        == ErrorView::Unsupported(
                        "opus frame duration must be 2.5/5/10/20/40/60 ms (got "@ + decimal_text(
                            config.frame_duration.micros() as nat,
                        ) + " us)"@,
                    ),
                },
            },
    {
        let codec_rate: u32 = pick_opus_rate(config.input_sample_rate);
        let _ = channels_for(config.input_channels)?;
        let frame_size: usize = frame_size_for(codec_rate, config.frame_duration)?;
        Ok(Encoder { config, codec_rate, frame_size })
    }

    /// What it was asked for.
    pub fn config(&self) -> (r: &EncoderConfig)
        ensures
            *r == self.asked(),
    {
        &self.config
    }

    /// The rate the codec runs at: the input's where the codec supports it, otherwise snapped up.
    pub fn codec_rate(&self) -> (r: u32)
        ensures
            r == self.rate(),
    {
        self.codec_rate
    }

    /// Number of input frames the codec consumes per call.
    pub fn frame_size(&self) -> (r: usize)
        ensures
            r == self.frames(),
    {
        self.frame_size
    }

    /// The catalog rendition of this encoder's output stream.
    pub fn catalog_config(&self) -> (r: Rendition)
        requires
            channels_fault(self.asked().input_channels) is None,
        ensures
            r.sample_rate == self.rate(),
            r.channel_count == self.asked().input_channels,
            r.bitrate == (match self.asked().bitrate {
                Some(bitrate) => Some(bitrate as u64),
                None => None,
            }),
            r.description is Some,
            r.description->0@ == head_bytes(
                plain(self.rate(), self.asked().input_channels, 0),
            ),
    {
        let head = Head::new(self.codec_rate, self.config.input_channels, 0);
        Rendition {
            sample_rate: self.codec_rate,
            channel_count: self.config.input_channels,
            bitrate: match self.config.bitrate {
                Some(bitrate) => Some(bitrate as u64),
                None => None,
            },
            description: Some(head.encode()),
        }
    }

    /// Refuse a buffer of `len` samples that is not exactly one frame.
    pub fn check_input(&self, len: usize) -> (r: Result<(), Error>)
        requires
            self.frames() * self.asked().input_channels * 4 <= usize::MAX,
            len * 4 <= usize::MAX,
        ensures
            match r {
                Ok(_) => len == self.frames() * self.asked().input_channels,
                Err(e) => len != self.frames() * self.asked().input_channels && e@ == (
                ErrorView::Misaligned {
                    got: (len * 4) as usize,
                    expected: (self.frames() * self.asked().input_channels * 4) as usize,
                }),
            },
    {
        let expected: usize = self.frame_size * self.config.input_channels as usize;
        if len != expected {
            return Err(Error::Misaligned { got: len * 4, expected: expected * 4 });
        }
        Ok(())
    }
}

/// The rate and channels samples are delivered with, or why they cannot be.
pub open spec fn resolved(config: DecoderConfig, rate: u32, channels: u32) -> Result<
    (u32, u32),
    ErrorView,
> {
    let wanted = match config.output_channels {
        Some(wanted) => wanted,
        None => channels,
    };
    if wanted != channels {
        Err(
            ErrorView::Unsupported(
                "channel remapping not implemented (decoder "@ + decimal_text(channels as nat)
                    + "ch, requested "@ + decimal_text(wanted as nat) + "ch)"@,
            ),
        )
    } else {
        Ok(
            (
                match config.output_sample_rate {
                    Some(wanted) => wanted,
                    None => rate,
                },
                channels,
            ),
        )
    }
}

/// The rate and channels samples are delivered with, resolved against the codec's own. Channels
/// cannot be remapped.
pub fn resolve_output(config: &DecoderConfig, rate: u32, channels: u32) -> (r: Result<
    (u32, u32),
    Error,
>)
    ensures
        match resolved(*config, rate, channels) {
            Ok(out) => r == Ok::<(u32, u32), Error>(out),
            Err(fault) => r is Err && r->Err_0@ == fault,
        },
{
    let output_rate: u32 = match config.output_sample_rate {
        Some(wanted) => wanted,
        None => rate,
    };
    let output_channels: u32 = match config.output_channels {
        Some(wanted) => wanted,
        None => channels,
    };
    if output_channels != channels {
        let mut text = "channel remapping not implemented (decoder ".to_owned();
        push_decimal(&mut text, channels as u64);
        text.append("ch, requested ");
        push_decimal(&mut text, output_channels as u64);
        text.append("ch)");
        return Err(Error::Unsupported(text));
    }
    Ok((output_rate, output_channels))
}

/// How the samples of a decoded track are delivered.
#[derive(Clone, Debug)]
pub struct AudioConsumer {
    config: DecoderConfig,
    output_rate: u32,
    output_channels: u32,
    chunk_frames: Option<usize>,
}

impl AudioConsumer {
    /// The config it was built with.
    pub closed spec fn asked(self) -> DecoderConfig {
        self.config
    }

    /// The rate samples are delivered at.
    pub closed spec fn rate(self) -> u32 {
        self.output_rate
    }

    /// The channels samples are delivered with.
    pub closed spec fn channels(self) -> u32 {
        self.output_channels
    }

    /// Frames that the resampler takes at a time, where there is one.
    pub closed spec fn chunk(self) -> Option<usize> {
        self.chunk_frames
    }

    /// Deliver what a decoder of this rate and these channels gives, resampled 20 ms at a time where
    /// another rate is asked for. Channels cannot be remapped.
    pub fn new(config: DecoderConfig, rate: u32, channels: u32) -> (r: Result<Self, Error>)
        ensures
            match resolved(config, rate, channels) {
                Err(fault) => r is Err && r->Err_0@ == fault,
                Ok(out) => {
                    &&& r is Ok
                    &&& r->Ok_0.asked() == config
                    &&& r->Ok_0.rate() == out.0
                    &&& r->Ok_0.channels() == out.1
                    &&& r->Ok_0.chunk() == (if out.0 == rate {
                        None
                    } else {
                        Some((rate * 20 / 1000) as usize)
                    })
                },
            },
    {
        let (output_rate, output_channels): (u32, u32) = resolve_output(&config, rate, channels)?;
        let chunk_frames: Option<usize> = if output_rate == rate {
            None
        } else {
            Some((rate as u64 * 20 / 1000) as usize)
        };
        Ok(AudioConsumer { config, output_rate, output_channels, chunk_frames })
    }

    /// The config it was built with.
    pub fn config(&self) -> (r: &DecoderConfig)
        ensures
            *r == self.asked(),
    {
        &self.config
    }

    /// The rate samples are delivered at.
    pub fn output_rate(&self) -> (r: u32)
        ensures
            r == self.rate(),
    {
        self.output_rate
    }

    /// The channels samples are delivered with.
    pub fn output_channels(&self) -> (r: u32)
        ensures
            r == self.channels(),
    {
        self.output_channels
    }

    /// Frames that the resampler takes at a time, where there is one.
    pub fn chunk_frames(&self) -> (r: Option<usize>)
        ensures
            r == self.chunk(),
    {
        self.chunk_frames
    }

    /// A packet's timestamp in whole microseconds.
    pub fn timestamp_us(&self, timestamp: Timestamp) -> (r: Result<u64, Error>)
        requires
            timestamp.wf(),
        ensures
            match r {
                Ok(us) => us == timestamp.units(1_000_000),
                Err(e) => timestamp.units(1_000_000) > u64::MAX && e@ == ErrorView::Unsupported(
                    "timestamp overflow"@,
                ),
            },
    {
        let micros: u128 = timestamp.as_scale(1_000_000);
        if micros > u64::MAX as u128 {
            return Err(Error::Unsupported("timestamp overflow".to_owned()));
        }
        Ok(micros as u64)
    }
}

/// Opus runs at 8, 12, 16, 24 or 48 thousand samples a second: those divide 48 thousand by 1, 2, 3,
/// 4 or 6.
pub proof fn law_opus_rates_divide_the_fastest(rate: u32)
    ensures
        opus_rate(rate) <==> exists|n: int|
            1 <= n <= 6 && n != 5 && #[trigger] (rate * n) == 48_000,
{
    if opus_rate(rate) {
        assert(rate * 1 == 48_000 || rate * 2 == 48_000 || rate * 3 == 48_000 || rate * 4 == 48_000
            || rate * 6 == 48_000);
    }
    if exists|n: int| 1 <= n <= 6 && n != 5 && #[trigger] (rate * n) == 48_000 {
        let n = choose|n: int| 1 <= n <= 6 && n != 5 && #[trigger] (rate * n) == 48_000;
        if n == 1 {
            assert(rate * 1 == 48_000);
        } else if n == 2 {
            assert(rate * 2 == 48_000);
        } else if n == 3 {
            assert(rate * 3 == 48_000);
        } else if n == 4 {
            assert(rate * 4 == 48_000);
        } else {
            assert(rate * 6 == 48_000);
        }
    }
}

/// Opus takes frames of 2.5 ms, doubled up to four times, and of 60 ms.
pub proof fn law_opus_frames_double_from_the_shortest(duration: Duration)
    ensures
        opus_duration(duration) <==> {
            ||| duration.nanos == 2_500_000
            ||| duration.nanos == 2 * 2_500_000
            ||| duration.nanos == 2 * (2 * 2_500_000)
            ||| duration.nanos == 2 * (2 * (2 * 2_500_000))
            ||| duration.nanos == 2 * (2 * (2 * (2 * 2_500_000)))
            ||| duration.nanos == 60 * 1_000_000
        },
{
}

/// Output comes at the rate that was asked for, or at the decoder's where none was. Channels are
/// never changed: another number than the decoder's is refused.
pub proof fn law_channels_are_never_changed(config: DecoderConfig, rate: u32, channels: u32)
    ensures
        resolved(config, rate, channels) is Ok <==> (config.output_channels is None
            || config.output_channels->0 == channels),
        resolved(config, rate, channels) matches Ok((out, count)) ==> {
            &&& count == channels
            &&& config.output_sample_rate is Some ==> out == config.output_sample_rate->0
            &&& config.output_sample_rate is None ==> out == rate
        },
        resolved(config, rate, channels) matches Err(e) ==> e is Unsupported,
{
}

} // verus!
