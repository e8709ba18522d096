//! What every encoder shares: its settings, its frames, and draining its startup delay at the end.

use super::encoded::Encoded;
use crate::audio::codec::config::{
    frame_size_for, opus_duration, opus_rate, pick_opus_rate, validate_opus_rate,
};
use crate::audio::codec::head::{head_bytes, plain, Head};
use crate::audio::codec::opus::{rate_fault, Rendition};
use crate::audio::error::{Error, ErrorView};
use crate::audio::format::{next_multiple, AudioFormat};
use crate::audio::layout::{channels_of, no_channels, Layout};
use crate::audio::pcm;
use crate::text::{decimal_text, push_decimal, same};
use crate::time::Duration;
use std::str::FromStr;
use vstd::prelude::*;
use vstd::string::StringExecFns;

verus! {

/// Output audio codec.
#[derive(Clone, Copy, Debug, PartialEq, Eq, Structural)]
#[non_exhaustive]
pub enum Codec {
    /// Opus, and the default.
    Opus,
    /// Uncompressed interleaved little-endian binary32 PCM.
    Pcm,
}

/// The codec's name.
pub open spec fn codec_name(codec: Codec) -> Seq<char> {
    match codec {
        Codec::Opus => "opus"@,
        Codec::Pcm => "pcm"@,
    }
}

impl Codec {
    /// Canonical lowercase identifier. Used as the codec name everywhere.
    pub fn as_str(self) -> (r: &'static str)
        ensures
            r@ == codec_name(self),
    {
        match self {
            Codec::Opus => "opus",
            Codec::Pcm => "pcm",
        }
    }

    /// The codec's name.
    pub fn to_string(self) -> (r: String)
        ensures
            r@ == codec_name(self),
    {
        self.as_str().to_owned()
    }

    /// The codec of this name.
    pub fn named(name: &str) -> (r: Result<Self, Error>)
        ensures
            match r {
                Ok(codec) => name@ == codec_name(codec),
                Err(e) => name@ != codec_name(Codec::Opus) && name@ != codec_name(Codec::Pcm) && e@
                    == ErrorView::Unsupported("unknown codec: "@ + name@),
            },
    {
        if same(name, "opus") {
            Ok(Codec::Opus)
        } else if same(name, "pcm") {
            Ok(Codec::Pcm)
        } else {
            let mut text = "unknown codec: ".to_owned();
            text.append(name);
            Err(Error::Unsupported(text))
        }
    }
}

impl FromStr for Codec {
    type Err = Error;

    fn from_str(s: &str) -> Result<Self, Error> {
        Codec::named(s)
    }
}

impl Default for Codec {
    fn default() -> (r: Self)
        ensures
            r == Codec::Opus,
    {
        Codec::Opus
    }
}

/// No two codecs share a name, so a name leads back to its codec.
pub proof fn law_names_tell_codecs_apart(a: Codec, b: Codec)
    requires
        codec_name(a) == codec_name(b),
    ensures
        a == b,
{
    reveal_strlit("opus");
    reveal_strlit("pcm");
    assert("opus"@.len() == 4);
    assert("pcm"@.len() == 3);
}

/// PCM supplied to an encoder.
#[derive(Clone, Copy, Debug, PartialEq, Eq, Structural)]
#[non_exhaustive]
pub struct Input {
    /// How samples are packed in each buffer.
    pub format: AudioFormat,
    /// Samples per second per channel.
    pub sample_rate: u32,
    /// Speaker meaning and channel order.
    pub layout: Layout,
}

impl Input {
    /// Describe interleaved `f32` PCM at `sample_rate` in `layout`.
    pub fn new(sample_rate: u32, layout: Layout) -> (r: Self)
        ensures
            r == (Input { format: AudioFormat::F32, sample_rate, layout }),
    {
        Input { format: AudioFormat::F32, sample_rate, layout }
    }
}

impl Default for Input {
    fn default() -> (r: Self)
        ensures
            r == (Input {
                format: AudioFormat::F32,
                sample_rate: 48_000,
                layout: Layout::Stereo,
            }),
    {
        Self::new(48_000, Layout::Stereo)
    }
}

/// How an encoder trades latency for compression.
///
/// A preset sets packetization only: codec, sample rate, layout, bitrate, and DTX stay as
/// configured.
#[derive(Clone, Copy, Debug, PartialEq, Eq, Hash, Structural)]
#[non_exhaustive]
pub enum Preset {
    /// 10 ms packets: the shortest packetization Opus codes with its full toolset, at twice the
    /// packet rate.
    LowLatency,
    /// 20 ms packets, the Opus default.
    Balanced,
    /// 20 ms packets. Identical to [`Balanced`](Self::Balanced): a longer packet would only add
    /// delay.
    Quality,
}

impl Default for Preset {
    fn default() -> (r: Self)
        ensures
            r == Preset::LowLatency,
    {
        Preset::LowLatency
    }
}

impl Preset {
    /// The packet duration this preset encodes.
    pub fn frame_duration(self) -> (r: Duration)
        ensures
            r.nanos == (match self {
                Preset::LowLatency => 10_000_000u128,
                _ => 20_000_000u128,
            }),
    {
        match self {
            Preset::LowLatency => Duration::from_millis(10),
            Preset::Balanced => Duration::from_millis(20),
            Preset::Quality => Duration::from_millis(20),
        }
    }
}

/// Audio codec settings.
#[derive(Clone, Copy, Debug, PartialEq, Eq, Structural)]
#[non_exhaustive]
pub struct Settings {
    /// Output codec. Defaults to [`Codec::Opus`].
    pub codec: Codec,
    /// Sample rate accepted by the codec.
    pub sample_rate: u32,
    /// Layout accepted by the codec.
    pub layout: Layout,
    /// Bitrate in bits per second. `None` lets Opus pick. PCM requires `None` because its bitrate is
    /// fixed by the sample rate and channel count.
    pub bitrate: Option<u64>,
    /// Enable Opus discontinuous transmission during silence.
    pub dtx: bool,
    /// Encoded frame duration. Opus accepts 2.5 / 5 / 10 / 20 / 40 / 60 ms. PCM accepts any duration
    /// containing a whole number of samples.
    pub frame_duration: Duration,
}

impl Settings {
    /// Build default Opus settings for `sample_rate` and `layout`.
    pub fn new(sample_rate: u32, layout: Layout) -> (r: Self)
        ensures
            r == (Settings {
                codec: Codec::Opus,
                sample_rate,
                layout,
                bitrate: None,
                dtx: false,
                frame_duration: Duration { nanos: 20_000_000 },
            }),
    {
        Settings {
            codec: Codec::Opus,
            sample_rate,
            layout,
            bitrate: None,
            dtx: false,
            frame_duration: Duration::from_millis(20),
        }
    }

    /// Apply `preset`'s packetization, keeping every other setting.
    pub fn with_preset(self, preset: Preset) -> (r: Self)
        ensures
            r == (Settings { frame_duration: r.frame_duration, ..self }),
            r.frame_duration.nanos == (match preset {
                Preset::LowLatency => 10_000_000u128,
                _ => 20_000_000u128,
            }),
    {
        let mut settings = self;
        settings.frame_duration = preset.frame_duration();
        settings
    }

    /// Derive concrete codec settings from source PCM.
    pub fn from_input(codec: Codec, input: &Input) -> (r: Self)
        ensures
            r == (Settings {
                codec,
                sample_rate: r.sample_rate,
                layout: input.layout,
                bitrate: None,
                dtx: false,
                frame_duration: Duration { nanos: 20_000_000 },
            }),
            match codec {
                Codec::Pcm => r.sample_rate == input.sample_rate,
                Codec::Opus => {
                    &&& opus_rate(r.sample_rate)
                    &&& input.sample_rate <= 48_000 ==> r.sample_rate >= input.sample_rate
                        && forall|other: u32|
                        #![trigger opus_rate(other)]
                        opus_rate(other) && other >= input.sample_rate ==> r.sample_rate <= other
                    &&& input.sample_rate > 48_000 ==> r.sample_rate == 48_000
                },
            },
    {
        let sample_rate: u32 = match codec {
            Codec::Opus => pick_opus_rate(input.sample_rate),
            Codec::Pcm => input.sample_rate,
        };
        let mut settings = Settings::new(sample_rate, input.layout);
        settings.codec = codec;
        settings
    }
}

impl Default for Settings {
    fn default() -> (r: Self)
        ensures
            r == (Settings {
                codec: Codec::Opus,
                sample_rate: 48_000,
                layout: Layout::Stereo,
                bitrate: None,
                dtx: false,
                frame_duration: Duration { nanos: 20_000_000 },
            }),
    {
        Self::new(48_000, Layout::Stereo)
    }
}

/// Why settings are refused before a codec is opened, if they are.
pub open spec fn settings_fault(s: Settings) -> Option<ErrorView> {
    if channels_of(s.layout) == 0 {
        Some(no_channels())
    } else {
        match s.codec {
            Codec::Opus => if !opus_rate(s.sample_rate) {
                Some(rate_fault(s.sample_rate))
            } else if s.layout != Layout::Mono && s.layout != Layout::Stereo {
                Some(ErrorView::Unsupported("opus requires a named mono or stereo layout"@))
            } else if !opus_duration(s.frame_duration) {
                Some(
                    ErrorView::Unsupported(
                        "opus frame duration must be 2.5/5/10/20/40/60 ms (got "@ + decimal_text(
                            s.frame_duration.micros() as nat,
                        ) + " us)"@,
                    ),
                )
            } else {
                None
            },
            Codec::Pcm => {
                let frames = s.sample_rate * s.frame_duration.nanos / 1_000_000_000;
                if s.bitrate is Some {
                    Some(
                        ErrorView::Unsupported(
                            "pcm bitrate is fixed; leave Settings::bitrate unset"@,
                        ),
                    )
                } else if s.dtx {
                    Some(
                        ErrorView::Unsupported("pcm does not support discontinuous transmission"@),
                    )
                } else if s.sample_rate == 0 {
                    Some(ErrorView::Unsupported("pcm sample rate must be greater than zero"@))
                } else if !pcm::whole_samples(s.sample_rate, s.frame_duration) {
                    Some(
                        ErrorView::Unsupported(
                            "pcm frame duration must contain a whole number of samples"@,
                        ),
                    )
                } else if frames > usize::MAX || frames * channels_of(s.layout) * 4 > usize::MAX {
                    Some(ErrorView::Unsupported("pcm frame does not fit in memory"@))
                } else if s.sample_rate * channels_of(s.layout) * 32 > u64::MAX {
                    Some(ErrorView::Unsupported("pcm bitrate does not fit 64 bits"@))
                } else {
                    None
                }
            },
        }
    }
}

/// Samples per channel in one frame.
pub open spec fn frame_of(s: Settings) -> int {
    match s.codec {
        Codec::Opus => s.sample_rate * s.frame_duration.micros() / 1_000_000,
        Codec::Pcm => s.sample_rate * s.frame_duration.nanos / 1_000_000_000,
    }
}

/// Check settings, and give the samples per channel in one frame.
pub fn frame_size(settings: &Settings) -> (r: Result<usize, Error>)
    ensures
        match r {
            Ok(frames) => settings_fault(*settings) is None && frames == frame_of(*settings)
                && frames > 0,
            Err(e) => settings_fault(*settings) == Some(e@),
        },
{
    match settings.layout.validate() {
        Ok(_) => {},
        Err(e) => {
            return Err(e);
        },
    }
    match settings.codec {
        Codec::Opus => {
            match validate_opus_rate(settings.sample_rate) {
                Ok(_) => {},
                Err(e) => {
                    return Err(e);
                },
            }
            if settings.layout != Layout::Mono && settings.layout != Layout::Stereo {
                return Err(
                    Error::Unsupported("opus requires a named mono or stereo layout".to_owned()),
                );
            }
            match frame_size_for(settings.sample_rate, settings.frame_duration) {
                Ok(frames) => {
                    let ghost micros = settings.frame_duration.micros();
                    assert(settings.sample_rate * micros >= 8_000 * 2_500) by (nonlinear_arith)
                        requires
                            settings.sample_rate >= 8_000,
                            micros >= 2_500,
                    ;
                    Ok(frames)
                },
                Err(e) => Err(e),
            }
        },
        Codec::Pcm => {
            if settings.bitrate.is_some() {
                return Err(
                    Error::Unsupported(
                        "pcm bitrate is fixed; leave Settings::bitrate unset".to_owned(),
                    ),
                );
            }
            if settings.dtx {
                return Err(
                    Error::Unsupported(
                        "pcm does not support discontinuous transmission".to_owned(),
                    ),
                );
            }
            if settings.sample_rate == 0 {
                return Err(
                    Error::Unsupported("pcm sample rate must be greater than zero".to_owned()),
                );
            }
            let channels: u32 = settings.layout.channels();
            let frames: usize = match pcm::frame_size(
                settings.sample_rate,
                settings.frame_duration,
            ) {
                Ok(frames) => frames,
                Err(e) => {
                    return Err(e);
                },
            };
            match pcm::frame_bytes(frames, channels) {
                Ok(_) => {},
                Err(e) => {
                    return Err(e);
                },
            }
            match pcm::bitrate(settings.sample_rate, channels) {
                Ok(_) => Ok(frames),
                Err(e) => Err(e),
            }
        },
    }
}

/// The least bitrate at which Opus codes anything: three bytes in each frame, and 2400 bits per
/// second where a frame is longer than 20 ms.
pub open spec fn floor_of(sample_rate: u32, frame_size: int) -> int {
    let per_second = sample_rate as int / frame_size;
    if per_second < 50 {
        2_400
    } else {
        24 * per_second
    }
}

/// The least bitrate at which Opus codes anything.
pub fn bitrate_floor(sample_rate: u32, frame_size: usize) -> (r: u64)
    requires
        frame_size > 0,
    ensures
        r == floor_of(sample_rate, frame_size as int),
{
    assert(0 <= sample_rate as int / frame_size as int <= sample_rate) by (nonlinear_arith)
        requires
            frame_size > 0,
            sample_rate >= 0,
    ;
    let per_second: u64 = sample_rate as u64 / frame_size as u64;
    if per_second < 50 {
        2_400
    } else {
        24 * per_second
    }
}

/// Where the bitrate of an Opus encoder has to lie. Rates outside would silently be clamped.
pub open spec fn bitrate_bounds(channels: u32, sample_rate: u32, frame_size: int) -> (int, int) {
    let floor = floor_of(sample_rate, frame_size);
    (
        if floor < 500 {
            500
        } else {
            floor
        },
        300_000 * channels,
    )
}

/// What a bitrate out of bounds is refused with.
pub open spec fn bitrate_fault(
    channels: u32,
    sample_rate: u32,
    frame_size: int,
    bitrate: u64,
) -> Option<ErrorView> {
    let (min, max) = bitrate_bounds(channels, sample_rate, frame_size);
    if min <= bitrate <= max {
        None
    } else {
        Some(
            ErrorView::Unsupported(
                "Opus bitrate must be between "@ + decimal_text(min as nat) + " and "@
                    + decimal_text(max as nat) + " bits per second for "@ + decimal_text(
                    channels as nat,
                ) + " channel(s) at "@ + decimal_text(frame_size as nat) + " samples, got "@
                    + decimal_text(bitrate as nat),
            ),
        )
    }
}

/// Refuse a bitrate that Opus would silently clamp.
pub fn check_bitrate(channels: u32, sample_rate: u32, frame_size: usize, bitrate: u64) -> (r: Result<
    (),
    Error,
>)
    requires
        frame_size > 0,
    ensures
        match r {
            Ok(_) => bitrate_fault(channels, sample_rate, frame_size as int, bitrate) is None,
            Err(e) => bitrate_fault(channels, sample_rate, frame_size as int, bitrate) == Some(e@),
        },
{
    let max: u64 = 300_000 * channels as u64;
    let floor: u64 = bitrate_floor(sample_rate, frame_size);
    let min: u64 = if floor < 500 {
        500
    } else {
        floor
    };
    if min <= bitrate && bitrate <= max {
        return Ok(());
    }
    let mut text = "Opus bitrate must be between ".to_owned();
    push_decimal(&mut text, min);
    text.append(" and ");
    push_decimal(&mut text, max);
    text.append(" bits per second for ");
    push_decimal(&mut text, channels as u64);
    text.append(" channel(s) at ");
    push_decimal(&mut text, frame_size as u64);
    text.append(" samples, got ");
    push_decimal(&mut text, bitrate);
    Err(Error::Unsupported(text))
}

/// What draining an encoder takes.
#[derive(Clone, Copy, Debug, PartialEq, Eq, Structural)]
pub struct Drain {
    /// Frames of silence that complete the last partial frame, where there is one.
    pub padding: usize,
    /// Whether there is a last partial frame to encode.
    pub partial: bool,
    /// Frames of silence to encode after it.
    pub silent_packets: usize,
    /// Decoded frames per channel to discard from the end of the final packet.
    pub discard_padding: usize,
}

impl Drain {
    /// How many packets come out.
    pub open spec fn packets(self) -> int {
        self.silent_packets + (if self.partial {
            1int
        } else {
            0
        })
    }
}

/// Packets that finishing an encoder emitted, and the decoded padding at their end.
#[derive(Debug)]
pub struct Finish {
    packets: Vec<Encoded>,
    discard_padding: usize,
}

impl Finish {
    /// Encoded packets in decode order.
    pub closed spec fn emitted(self) -> Seq<Encoded> {
        self.packets@
    }

    /// Decoded frames per channel to discard from the end of the final packet.
    pub closed spec fn padding(self) -> usize {
        self.discard_padding
    }

    /// What `drain` asked for, done: `packets` are what encoding its frames gave.
    pub fn new(drain: &Drain, packets: Vec<Encoded>) -> (r: Self)
        requires
            packets@.len() == drain.packets(),
        ensures
            r.emitted() == packets@,
            r.padding() == drain.discard_padding,
    {
        Finish { packets, discard_padding: drain.discard_padding }
    }

    /// Encoded packets in decode order.
    pub fn packets(&self) -> (r: &Vec<Encoded>)
        ensures
            r@ == self.emitted(),
    {
        &self.packets
    }

    /// Decoded frames per channel to discard from the end of the final packet.
    pub fn discard_padding(&self) -> (r: usize)
        ensures
            r == self.padding(),
    {
        self.discard_padding
    }

    /// Give up the result for its encoded packets.
    pub fn into_packets(self) -> (r: Vec<Encoded>)
        ensures
            r@ == self.emitted(),
    {
        self.packets
    }
}

/// How many frames of `size` hold `n` samples.
pub open spec fn frames_for(n: int, size: int) -> int {
    (n + size - 1) / size
}

/// An encoder's frames and bitrate.
#[derive(Clone, Copy, Debug, PartialEq, Eq, Structural)]
pub struct Encoder {
    settings: Settings,
    channels: u32,
    bitrate: u64,
    lookahead: usize,
    pre_skip: u16,
    frame_size: usize,
    started: bool,
}

/// What an [`Encoder`] is.
#[verifier::ext_equal]
pub struct EncoderView {
    /// The settings, including the latest accepted bitrate.
    pub settings: Settings,
    /// The current bitrate.
    pub bitrate: u64,
    /// Startup delay, in frames at the codec's rate.
    pub lookahead: int,
    /// Startup delay, in frames at 48 kHz.
    pub pre_skip: int,
    /// Samples per channel in one frame.
    pub frame_size: int,
    /// Whether input has reached the codec.
    pub started: bool,
}

impl View for Encoder {
    type V = EncoderView;

    closed spec fn view(&self) -> EncoderView {
        EncoderView {
            settings: self.settings,
            bitrate: self.bitrate,
            lookahead: self.lookahead as int,
            pre_skip: self.pre_skip as int,
            frame_size: self.frame_size as int,
            started: self.started,
        }
    }
}

/// What an opened Opus codec is refused with for what it reports, if it is.
pub open spec fn report_fault(bitrate: i32, lookahead: i32, sample_rate: u32) -> Option<ErrorView> {
    if bitrate < 0 {
        Some(
            ErrorView::Unsupported(
                "Opus reported negative bitrate -"@ + decimal_text((-bitrate) as nat),
            ),
        )
    } else if lookahead < 0 {
        Some(
            ErrorView::Unsupported(
                "Opus reported negative lookahead -"@ + decimal_text((-lookahead) as nat),
            ),
        )
    } else if lookahead * 48_000 / sample_rate as int > u16::MAX {
        Some(
            ErrorView::Unsupported(
                "Opus lookahead "@ + decimal_text(lookahead as nat) + " does not fit in OpusHead"@,
            ),
        )
    } else {
        None
    }
}

impl Encoder {
    /// Whether the encoder is consistent.
    pub closed spec fn wf(self) -> bool {
        &&& settings_fault(Settings { bitrate: None, ..self.settings }) is None
        &&& self.frame_size == frame_of(self.settings)
        &&& self.frame_size > 0
        &&& self.channels == channels_of(self.settings.layout)
        &&& self.channels > 0
        &&& self.frame_size * self.channels * 4 <= usize::MAX
    }

    /// An encoder of PCM, which needs no codec.
    pub fn new_pcm(settings: Settings) -> (r: Result<Self, Error>)
        requires
            settings.codec == Codec::Pcm,
        ensures
            match r {
                Ok(encoder) => {
                    &&& settings_fault(settings) is None
                    &&& encoder.wf()
                    &&& encoder@ == (EncoderView {
                        settings,
                        bitrate: (settings.sample_rate * channels_of(settings.layout) * 32) as u64,
                        lookahead: 0,
                        pre_skip: 0,
                        frame_size: frame_of(settings),
                        started: false,
                    })
                },
                Err(e) => settings_fault(settings) == Some(e@),
            },
    {
        let frame_size: usize = match frame_size(&settings) {
            Ok(frames) => frames,
            Err(e) => {
                return Err(e);
            },
        };
        let channels: u32 = settings.layout.channels();
        let bitrate: u64 = match pcm::bitrate(settings.sample_rate, channels) {
            Ok(bitrate) => bitrate,
            Err(e) => {
                return Err(e);
            },
        };
        Ok(
            Encoder {
                settings,
                channels,
                bitrate,
                lookahead: 0,
                pre_skip: 0,
                frame_size,
                started: false,
            },
        )
    }

    /// An encoder of Opus, once the codec was opened with these settings and reported its bitrate
    /// and lookahead.
    pub fn new_opus(settings: Settings, bitrate: i32, lookahead: i32) -> (r: Result<Self, Error>)
        requires
            settings.codec == Codec::Opus,
        ensures
            match r {
                Ok(encoder) => {
                    &&& settings_fault(settings) is None
                    &&& report_fault(bitrate, lookahead, settings.sample_rate) is None
                    &&& encoder.wf()
                    &&& encoder@ == (EncoderView {
                        settings,
                        bitrate: bitrate as u64,
                        lookahead: lookahead as int,
                        pre_skip: lookahead * 48_000 / settings.sample_rate as int,
                        frame_size: frame_of(settings),
                        started: false,
                    })
                },
                Err(e) => match settings_fault(settings) {
                    Some(fault) => e@ == fault,
                    None => report_fault(bitrate, lookahead, settings.sample_rate) == Some(e@),
                },
            },
    {
        let frame_size: usize = match frame_size(&settings) {
            Ok(frames) => frames,
            Err(e) => {
                return Err(e);
            },
        };
        if bitrate < 0 {
            let mut text = "Opus reported negative bitrate -".to_owned();
            push_decimal(&mut text, (-(bitrate as i64)) as u64);
            return Err(Error::Unsupported(text));
        }
        if lookahead < 0 {
            let mut text = "Opus reported negative lookahead -".to_owned();
            push_decimal(&mut text, (-(lookahead as i64)) as u64);
            return Err(Error::Unsupported(text));
        }
        let pre_skip: u64 = lookahead as u64 * 48_000 / settings.sample_rate as u64;
        if pre_skip > u16::MAX as u64 {
            let mut text = "Opus lookahead ".to_owned();
            push_decimal(&mut text, lookahead as u64);
            text.append(" does not fit in OpusHead");
            return Err(Error::Unsupported(text));
        }
        let channels: u32 = settings.layout.channels();
        proof {
            let micros = settings.frame_duration.micros();
            assert(settings.sample_rate * micros / 1_000_000 <= 2_880) by (nonlinear_arith)
                requires
                    0 <= settings.sample_rate <= 48_000,
                    0 <= micros <= 60_000,
            ;
            assert(frame_size * channels * 4 <= 2_880 * 2 * 4) by (nonlinear_arith)
                requires
                    frame_size <= 2_880,
                    channels <= 2,
            ;
        }
        Ok(
            Encoder {
                settings,
                channels,
                bitrate: bitrate as u64,
                lookahead: lookahead as usize,
                pre_skip: pre_skip as u16,
                frame_size,
                started: false,
            },
        )
    }

    /// The encoder settings, including the latest accepted runtime bitrate.
    pub fn settings(&self) -> (r: &Settings)
        ensures
            *r == self@.settings,
    {
        &self.settings
    }

    /// The codec this encoder emits.
    pub fn codec(&self) -> (r: Codec)
        ensures
            r == self@.settings.codec,
    {
        self.settings.codec
    }

    /// Sample rate the codec actually runs at.
    pub fn codec_rate(&self) -> (r: u32)
        ensures
            r == self@.settings.sample_rate,
    {
        self.settings.sample_rate
    }

    /// Channel count the codec actually runs at.
    pub fn codec_channels(&self) -> (r: u32)
        requires
            self.wf(),
        ensures
            r == channels_of(self@.settings.layout),
            r > 0,
    {
        self.channels
    }

    /// Number of samples per channel the codec consumes per call.
    pub fn frame_size(&self) -> (r: usize)
        requires
            self.wf(),
        ensures
            r == self@.frame_size,
            r > 0,
    {
        self.frame_size
    }

    /// Startup delay, in frames at 48 kHz.
    pub fn pre_skip(&self) -> (r: u16)
        ensures
            r == self@.pre_skip,
    {
        self.pre_skip
    }

    /// Current target bitrate.
    pub fn bitrate(&self) -> (r: u64)
        ensures
            r == self@.bitrate,
    {
        self.bitrate
    }

    /// Catalog rendition describing this encoder's output stream.
    pub fn catalog(&self) -> (r: Rendition)
        requires
            self.wf(),
        ensures
            r.sample_rate == self@.settings.sample_rate,
            r.channel_count == channels_of(self@.settings.layout),
            match self@.settings.codec {
                Codec::Opus => {
                    &&& r.bitrate == self@.settings.bitrate
                    &&& r.description is Some
                    &&& r.description->0@ == head_bytes(
                        plain(r.sample_rate, r.channel_count, self@.pre_skip as u16),
                    )
                },
                Codec::Pcm => {
                    &&& r.bitrate == Some((r.sample_rate * r.channel_count * 32) as u64)
                    &&& r.description is None
                },
            },
    {
        match self.settings.codec {
            Codec::Opus => {
                let head = Head::new(self.settings.sample_rate, self.channels, self.pre_skip);
                Rendition {
                    sample_rate: self.settings.sample_rate,
                    channel_count: self.channels,
                    bitrate: self.settings.bitrate,
                    description: Some(head.encode()),
                }
            },
            Codec::Pcm => {
                assert(self.settings.sample_rate * self.channels <= u32::MAX * u32::MAX)
                    by (nonlinear_arith)
                    requires
                        self.settings.sample_rate <= u32::MAX,
                        self.channels <= u32::MAX,
                ;
                let samples: u64 = self.settings.sample_rate as u64 * self.channels as u64;
                Rendition {
                    sample_rate: self.settings.sample_rate,
                    channel_count: self.channels,
                    bitrate: Some(samples * 32),
                    description: None,
                }
            },
        }
    }

    /// Whether this epoch has submitted audio to the codec.
    pub fn started(&self) -> (r: bool)
        ensures
            r == self@.started,
    {
        self.started
    }

    /// Retune a live Opus encoder. Returns whether the codec has to be told, which the bitrate it runs
    /// at already does not need.
    pub fn set_bitrate(&mut self, bitrate: u64) -> (r: Result<bool, Error>)
        requires
            old(self).wf(),
        ensures
            final(self).wf(),
            ({
                let s = old(self)@;
                let channels = channels_of(s.settings.layout) as u32;
                let fault = bitrate_fault(
                    channels,
                    s.settings.sample_rate,
                    s.frame_size,
                    bitrate,
                );
                if s.settings.codec == Codec::Pcm {
                    r is Err && r->Err_0@ == ErrorView::Unsupported("pcm bitrate is fixed"@)
                        && final(self)@ == s
                } else if bitrate == s.bitrate {
                    r == Ok::<bool, Error>(false) && final(self)@ == s
                } else if fault is Some {
                    r is Err && fault == Some(r->Err_0@) && final(self)@ == s
                } else {
                    r == Ok::<bool, Error>(true) && final(self)@ == (EncoderView {
                        bitrate,
                        settings: Settings { bitrate: Some(bitrate), ..s.settings },
                        ..s
                    })
                }
            }),
    {
        if self.settings.codec == Codec::Pcm {
            return Err(Error::Unsupported("pcm bitrate is fixed".to_owned()));
        }
        if bitrate == self.bitrate {
            return Ok(false);
        }
        match check_bitrate(self.channels, self.settings.sample_rate, self.frame_size, bitrate) {
            Ok(_) => {},
            Err(e) => {
                return Err(e);
            },
        }
        self.bitrate = bitrate;
        self.settings.bitrate = Some(bitrate);
        Ok(true)
    }

    /// Drop all codec history so a later epoch cannot emit audio from this one.
    pub fn reset(&mut self)
        requires
            old(self).wf(),
        ensures
            final(self).wf(),
            final(self)@ == (EncoderView { started: false, ..old(self)@ }),
    {
        self.started = false;
    }

    /// Refuse a buffer of `len` samples that is not exactly one frame; otherwise the codec is about
    /// to get it.
    pub fn encode(&mut self, len: usize) -> (r: Result<(), Error>)
        requires
            old(self).wf(),
            len * 4 <= usize::MAX,
        ensures
            final(self).wf(),
            ({
                let s = old(self)@;
                let expected = s.frame_size * channels_of(s.settings.layout);
                match r {
                    Ok(_) => len == expected && final(self)@ == (EncoderView {
                        started: true,
                        ..s
                    }),
                    Err(e) => len != expected && final(self)@ == s && e@ == (
                    ErrorView::Misaligned {
                        got: (len * 4) as usize,
                        expected: (expected * 4) as usize,
                    }),
                }
            }),
    {
        let expected: usize = self.frame_size * self.channels as usize;
        if len != expected {
            return Err(Error::Misaligned { got: len * 4, expected: expected * 4 });
        }
        self.started = true;
        Ok(())
    }

    /// Plan how to finish with `len` samples of a last partial frame: it is completed with silence,
    /// and silence follows until everything supplied has left the codec. A codec that never got
    /// input owes nothing.
    pub fn drain(&mut self, len: usize) -> (r: Result<Drain, Error>)
        requires
            old(self).wf(),
            old(self)@.lookahead + 2 * old(self)@.frame_size <= usize::MAX,
            len * 4 <= usize::MAX,
            len + channels_of(old(self)@.settings.layout) <= usize::MAX / 4,
        ensures
            final(self).wf(),
            ({
                let s = old(self)@;
                let channels = channels_of(s.settings.layout) as int;
                let frame = s.frame_size * channels;
                if len > frame || len as int % channels != 0 {
                    r is Err && final(self)@ == s && r->Err_0@ == (ErrorView::Misaligned {
                        got: (len * 4) as usize,
                        expected: (if len > frame {
                            frame * 4
                        } else {
                            next_multiple(len as int, channels) * 4
                        }) as usize,
                    })
                } else {
                    let source = len as int / channels;
                    let padding = if len == 0 {
                        0
                    } else {
                        s.frame_size - source
                    };
                    let left = if padding < s.lookahead {
                        s.lookahead - padding
                    } else {
                        0
                    };
                    &&& r is Ok
                    &&& final(self)@ == (EncoderView { started: s.started || len > 0, ..s })
                    &&& r->Ok_0.partial == (len > 0)
                    &&& r->Ok_0.padding == padding
                    &&& if s.started || len > 0 {
                        &&& r->Ok_0.silent_packets == frames_for(left, s.frame_size)
                        &&& r->Ok_0.discard_padding == (if r->Ok_0.packets() * s.frame_size
                            > s.lookahead + source {
                            r->Ok_0.packets() * s.frame_size - s.lookahead - source
                        } else {
                            0
                        })
                    } else {
                        r->Ok_0.silent_packets == 0 && r->Ok_0.discard_padding == 0
                    }
                }
            }),
    {
        let channels: usize = self.channels as usize;
        let frame: usize = self.frame_size * channels;
        if len > frame || len % channels != 0 {
            let expected: usize = if len > frame {
                frame
            } else {
                proof {
                    vstd::arithmetic::div_mod::lemma_mod_decreases(len as nat, channels as nat);
                }
                len - len % channels + channels
            };
            return Err(Error::Misaligned { got: len * 4, expected: expected * 4 });
        }
        let source: usize = len / channels;
        let partial: bool = len > 0;
        proof {
            let n = channels as int;
            let size = self.frame_size as int;
            vstd::arithmetic::div_mod::lemma_fundamental_div_mod(len as int, n);
            assert(source <= size) by (nonlinear_arith)
                requires
                    len == n * source,
                    len <= size * n,
                    n > 0,
            ;
        }
        let padding: usize = if partial {
            self.frame_size - source
        } else {
            0
        };
        if partial {
            self.started = true;
        }
        if !self.started {
            return Ok(
                Drain { padding, partial, silent_packets: 0, discard_padding: 0 },
            );
        }
        let left: usize = if padding < self.lookahead {
            self.lookahead - padding
        } else {
            0
        };
        let size: usize = self.frame_size;
        let silent_packets: usize = (left + size - 1) / size;
        proof {
            let k = silent_packets as int;
            let n = size as int;
            vstd::arithmetic::div_mod::lemma_fundamental_div_mod(left + n - 1, n);
            assert(k * n == n * k) by (nonlinear_arith);
            assert(k * n <= left + n - 1);
            assert((k + 1) * n == k * n + n) by (nonlinear_arith);
            assert(0 <= k * n) by (nonlinear_arith)
                requires
                    0 <= k,
                    0 < n,
            ;
            assert(k <= k * n) by (nonlinear_arith)
                requires
                    0 <= k,
                    1 <= n,
            ;
        }
        let packets: usize = if partial {
            silent_packets + 1
        } else {
            silent_packets
        };
        let total: usize = packets * size;
        let owed: usize = self.lookahead + source;
        let discard_padding: usize = if total > owed {
            total - owed
        } else {
            0
        };
        Ok(Drain { padding, partial, silent_packets, discard_padding })
    }
}

/// Draining lets every supplied sample leave the codec: what the packets decode to, without what is
/// to be discarded, is exactly the startup delay and the source frames of the drain.
pub proof fn law_draining_loses_nothing(
    lookahead: int,
    frame_size: int,
    source: int,
    partial: bool,
    packets: int,
    discard: int,
)
    requires
        frame_size > 0,
        lookahead >= 0,
        0 <= source <= frame_size,
        partial == (source > 0),
        ({
            let padding = if partial {
                frame_size - source
            } else {
                0
            };
            let left = if padding < lookahead {
                lookahead - padding
            } else {
                0
            };
            packets == frames_for(left, frame_size) + (if partial {
                1int
            } else {
                0
            })
        }),
        discard == (if packets * frame_size > lookahead + source {
            packets * frame_size - lookahead - source
        } else {
            0
        }),
    ensures
        packets * frame_size - discard == lookahead + source,
        0 <= discard,
{
    let padding = if partial {
        frame_size - source
    } else {
        0
    };
    let left = if padding < lookahead {
        lookahead - padding
    } else {
        0
    };
    let k = frames_for(left, frame_size);
    vstd::arithmetic::div_mod::lemma_fundamental_div_mod(left + frame_size - 1, frame_size);
    vstd::arithmetic::div_mod::lemma_mod_bound(left + frame_size - 1, frame_size);
    assert(k * frame_size == frame_size * k) by (nonlinear_arith);
    assert((k + 1) * frame_size == k * frame_size + frame_size) by (nonlinear_arith);
}

/// A frame of `len` samples, the given ones first and silence after them.
pub fn pad<T: Copy>(samples: &Vec<T>, silence: T, len: usize) -> (r: Vec<T>)
    requires
        samples@.len() <= len,
    ensures
        r@ == samples@ + Seq::new((len - samples@.len()) as nat, |i: int| silence),
{
    let mut out: Vec<T> = Vec::new();
    let mut i: usize = 0;
    while i < len
        invariant
            0 <= i <= len,
            samples@.len() <= len,
            out@.len() == i,
            forall|j: int|
                0 <= j < i ==> #[trigger] out@[j] == (if j < samples@.len() {
                    samples@[j]
                } else {
                    silence
                }),
        decreases len - i,
    {
        if i < samples.len() {
            out.push(samples[i]);
        } else {
            out.push(silence);
        }
        i = i + 1;
    }
    assert(out@ =~= samples@ + Seq::new((len - samples@.len()) as nat, |i: int| silence));
    out
}

/// Opus is encoded mono or stereo, at one of its rates and in frames of one of its lengths.
pub proof fn law_opus_settings_are_the_codecs_own(s: Settings)
    requires
        s.codec is Opus,
    ensures
        settings_fault(s) is None <==> {
            &&& s.layout is Mono || s.layout is Stereo
            &&& s.sample_rate == 8_000 || s.sample_rate == 12_000 || s.sample_rate == 16_000
                || s.sample_rate == 24_000 || s.sample_rate == 48_000
            &&& s.frame_duration.nanos == 2_500_000 || s.frame_duration.nanos == 5_000_000
                || s.frame_duration.nanos == 10_000_000 || s.frame_duration.nanos == 20_000_000
                || s.frame_duration.nanos == 40_000_000 || s.frame_duration.nanos == 60_000_000
        },
{
}

/// Raw samples are encoded at any rate and layout with a channel, in frames of whole samples, as
/// long as a frame fits in memory and its bits each second in 64. They have neither a bitrate to
/// choose nor silence to leave out.
pub proof fn law_raw_settings_choose_no_bitrate(s: Settings, frames: int)
    requires
        s.codec is Pcm,
        1_000_000_000 * frames <= s.sample_rate * s.frame_duration.nanos < 1_000_000_000 * (frames
            + 1),
    ensures
        settings_fault(s) is None <==> {
            &&& channels_of(s.layout) > 0
            &&& s.bitrate is None
            &&& !s.dtx
            &&& s.sample_rate > 0
            &&& frames > 0
            &&& 1_000_000_000 * frames == s.sample_rate * s.frame_duration.nanos
            &&& frames <= usize::MAX
            &&& frames * channels_of(s.layout) * 4 <= usize::MAX
            &&& s.sample_rate * channels_of(s.layout) * 32 <= u64::MAX
        },
{
    assert(s.sample_rate * s.frame_duration.nanos / 1_000_000_000 == frames);
}

/// A frame holds the samples of its duration.
pub proof fn law_a_frame_holds_the_samples_of_its_duration(s: Settings)
    requires
        settings_fault(s) is None,
    ensures
        frame_of(s) * 1_000_000_000 == s.sample_rate * s.frame_duration.nanos,
{
    if s.codec is Opus {
        let micros = s.frame_duration.micros();
        let a = s.sample_rate as int / 4_000;
        let b = micros / 2_500;
        assert(s.sample_rate * micros == 10_000_000 * (a * b)) by (nonlinear_arith)
            requires
                s.sample_rate == 4_000 * a,
                micros == 2_500 * b,
        ;
        assert(s.sample_rate * s.frame_duration.nanos == 10_000_000_000 * (a * b))
            by (nonlinear_arith)
            requires
                s.sample_rate == 4_000 * a,
                s.frame_duration.nanos == 2_500_000 * b,
        ;
    }
}

/// The least bitrate of Opus is three bytes for each packet at fifty packets a second or more, and
/// 2400 below that. The most is 300 thousand for each channel.
pub proof fn law_a_bitrate_pays_for_its_packets(
    channels: u32,
    sample_rate: u32,
    frame_size: int,
    per_second: int,
    bitrate: u64,
)
    requires
        frame_size > 0,
        per_second * frame_size <= sample_rate < (per_second + 1) * frame_size,
    ensures
        bitrate_fault(channels, sample_rate, frame_size, bitrate) is None <==> {
            &&& per_second >= 50 ==> bitrate >= 3 * 8 * per_second
            &&& per_second < 50 ==> bitrate >= 2_400
            &&& bitrate <= 300_000 * channels
        },
{
    let q = sample_rate as int / frame_size;
    vstd::arithmetic::div_mod::lemma_fundamental_div_mod(sample_rate as int, frame_size);
    assert(q == per_second) by (nonlinear_arith)
        requires
            frame_size > 0,
            per_second * frame_size <= sample_rate < (per_second + 1) * frame_size,
            sample_rate as int == frame_size * q + sample_rate as int % frame_size,
            0 <= sample_rate as int % frame_size < frame_size,
    ;
}

/// Frames are as many as it takes to hold the samples, and no more.
pub proof fn law_no_more_frames_than_the_samples_need(n: int, size: int)
    requires
        size > 0,
        n >= 0,
    ensures
        frames_for(n, size) * size >= n,
        n > 0 ==> (frames_for(n, size) - 1) * size < n,
        n == 0 ==> frames_for(n, size) == 0,
{
    let x = n + size - 1;
    let q = x / size;
    vstd::arithmetic::div_mod::lemma_fundamental_div_mod(x, size);
    assert(q * size == size * q) by (nonlinear_arith);
    assert((q - 1) * size == q * size - size) by (nonlinear_arith);
    if n == 0 {
        vstd::arithmetic::div_mod::lemma_basic_div(x, size);
    }
}

/// What Opus reports is taken where neither number is negative and the lookahead, in samples at
/// 48 kHz, fits in 16 bits.
pub proof fn law_a_report_fits_its_head(bitrate: i32, lookahead: i32, sample_rate: u32)
    requires
        sample_rate > 0,
    ensures
        report_fault(bitrate, lookahead, sample_rate) is None <==> bitrate >= 0 && lookahead >= 0
            && lookahead * 48_000 < 65_536 * sample_rate,
{
    let x = lookahead * 48_000;
    let rate = sample_rate as int;
    vstd::arithmetic::div_mod::lemma_fundamental_div_mod(x, rate);
    let q = x / rate;
    if lookahead >= 0 {
        assert(q > 65_535 <==> x >= 65_536 * rate) by (nonlinear_arith)
            requires
                rate > 0,
                x == rate * q + x % rate,
                0 <= x % rate < rate,
        ;
    }
}

/// Draining emits the silent packets, and one more for samples that did not fill a frame.
pub proof fn law_a_drain_counts_its_packets(drain: Drain)
    ensures
        drain.partial ==> drain.packets() == drain.silent_packets + 1,
        !drain.partial ==> drain.packets() == drain.silent_packets,
{
}

} // verus!
