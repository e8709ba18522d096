//! The rates and channel counts Opus supports.

use super::config::opus_rate;
use super::head::{head_at, head_bytes, plain, Head, HeadView};
use crate::audio::error::{Error, ErrorView};
use crate::text::{decimal_text, push_decimal};
use vstd::prelude::*;
use vstd::string::StringExecFns;

verus! {

/// Frame duration in milliseconds.
pub const FRAME_DURATION_MS: u32 = 20;

/// Packets cap at this many milliseconds of audio.
pub const MAX_FRAME_MS: u32 = 120;

/// The channel layouts Opus codes.
#[derive(Clone, Copy, Debug, PartialEq, Eq, Structural)]
pub enum Channels {
    /// One channel.
    Mono,
    /// Two channels.
    Stereo,
}

/// What a channel count is refused with, if it is.
pub open spec fn channels_fault(count: u32) -> Option<ErrorView> {
    if count == 1 || count == 2 {
        None
    } else {
        Some(
            ErrorView::Unsupported(
                "opus only supports 1 or 2 channels (got "@ + decimal_text(count as nat) + ")"@,
            ),
        )
    }
}

/// What a sample rate is refused with.
pub open spec fn rate_fault(rate: u32) -> ErrorView {
    ErrorView::Unsupported(
        "opus only supports 8/12/16/24/48 kHz (got "@ + decimal_text(rate as nat) + ")"@,
    )
}

/// The layout of a channel count.
pub fn channels_for(count: u32) -> (r: Result<Channels, Error>)
    ensures
        match r {
            Ok(channels) => channels_fault(count) is None && channels == (if count == 1 {
                Channels::Mono
            } else {
                Channels::Stereo
            }),
            Err(e) => channels_fault(count) == Some(e@),
        },
{
    match count {
        1 => Ok(Channels::Mono),
        2 => Ok(Channels::Stereo),
        other => {
            let mut text = "opus only supports 1 or 2 channels (got ".to_owned();
            push_decimal(&mut text, other as u64);
            text.append(")");
            Err(Error::Unsupported(text))
        },
    }
}

/// Refuse a rate that Opus does not run at.
pub fn validate_sample_rate(rate: u32) -> (r: Result<(), Error>)
    ensures
        match r {
            Ok(_) => opus_rate(rate),
            Err(e) => !opus_rate(rate) && e@ == rate_fault(rate),
        },
{
    match rate {
        8_000 | 12_000 | 16_000 | 24_000 | 48_000 => Ok(()),
        other => {
            let mut text = "opus only supports 8/12/16/24/48 kHz (got ".to_owned();
            push_decimal(&mut text, other as u64);
            text.append(")");
            Err(Error::Unsupported(text))
        },
    }
}

/// The shape of an Opus encoder over interleaved PCM.
#[derive(Clone, Debug, PartialEq, Eq)]
pub struct OpusEncoder {
    sample_rate: u32,
    channel_count: u32,
    frame_size: usize,
    bitrate: Option<u32>,
}

/// What an [`OpusEncoder`] is shaped like.
#[verifier::ext_equal]
pub struct OpusShape {
    pub sample_rate: u32,
    pub channel_count: u32,
    pub frame_size: int,
    pub bitrate: Option<u32>,
}

impl View for OpusEncoder {
    type V = OpusShape;

    closed spec fn view(&self) -> OpusShape {
        OpusShape {
            sample_rate: self.sample_rate,
            channel_count: self.channel_count,
            frame_size: self.frame_size as int,
            bitrate: self.bitrate,
        }
    }
}

/// What describes an encoded track in a catalog.
#[derive(Clone, Debug, PartialEq, Eq)]
pub struct Rendition {
    /// Samples per second, per channel.
    pub sample_rate: u32,
    /// Channels.
    pub channel_count: u32,
    /// Bits per second, where they are fixed.
    pub bitrate: Option<u64>,
    /// The codec's out-of-band header.
    pub description: Option<Vec<u8>>,
}

impl OpusEncoder {
    /// Shape an encoder of 20 ms frames.
    ///
    /// `bitrate` is the target bitrate in bits per second; `None` lets the codec pick.
    pub fn new(sample_rate: u32, channel_count: u32, bitrate: Option<u32>) -> (r: Result<
        Self,
        Error,
    >)
        ensures
            match r {
                Ok(encoder) => {
                    &&& opus_rate(sample_rate)
                    &&& channels_fault(channel_count) is None
                    &&& encoder@ == (OpusShape {
                        sample_rate,
                        channel_count,
                        frame_size: sample_rate * FRAME_DURATION_MS / 1000,
                        bitrate,
                    })
                },
                Err(e) => if !opus_rate(sample_rate) {
                    e@ == rate_fault(sample_rate)
                } else {
                    channels_fault(channel_count) == Some(e@)
                },
            },
    {
        validate_sample_rate(sample_rate)?;
        let _ = channels_for(channel_count)?;
        let frame_size: usize = (sample_rate as u64 * FRAME_DURATION_MS as u64 / 1000) as usize;
        Ok(OpusEncoder { sample_rate, channel_count, frame_size, bitrate })
    }

    /// The catalog rendition of this encoder's output stream.
    pub fn config(&self) -> (r: Rendition)
        requires
            channels_fault(self@.channel_count) is None,
        ensures
            r.sample_rate == self@.sample_rate,
            r.channel_count == self@.channel_count,
            r.bitrate == (match self@.bitrate {
                Some(bitrate) => Some(bitrate as u64),
                None => None,
            }),
            r.description is Some,
            r.description->0@ == head_bytes(plain(self@.sample_rate, self@.channel_count, 0)),
    {
        let head = Head::new(self.sample_rate, self.channel_count, 0);
        Rendition {
            sample_rate: self.sample_rate,
            channel_count: self.channel_count,
            bitrate: match self.bitrate {
                Some(bitrate) => Some(bitrate as u64),
                None => None,
            },
            description: Some(head.encode()),
        }
    }

    /// Number of input frames consumed per call.
    pub fn frame_size(&self) -> (r: usize)
        ensures
            r == self@.frame_size,
    {
        self.frame_size
    }

    /// Sample rate the encoder expects on its input.
    pub fn sample_rate(&self) -> (r: u32)
        ensures
            r == self@.sample_rate,
    {
        self.sample_rate
    }

    /// Channel count the encoder expects on its input.
    pub fn channel_count(&self) -> (r: u32)
        ensures
            r == self@.channel_count,
    {
        self.channel_count
    }

    /// Refuse a buffer of `len` samples that is not exactly one frame.
    pub fn check_input(&self, len: usize) -> (r: Result<(), Error>)
        requires
            self@.frame_size * self@.channel_count * 4 <= usize::MAX,
            len * 4 <= usize::MAX,
        ensures
            match r {
                Ok(_) => len == self@.frame_size * self@.channel_count,
                Err(e) => len != self@.frame_size * self@.channel_count && e@ == (
                ErrorView::Misaligned {
                    got: (len * 4) as usize,
                    expected: (self@.frame_size * self@.channel_count * 4) as usize,
                }),
            },
    {
        let expected: usize = self.frame_size * self.channel_count as usize;
        if len != expected {
            return Err(Error::Misaligned { got: len * 4, expected: expected * 4 });
        }
        Ok(())
    }
}

/// The header a rendition declares, where it has one that parses.
pub open spec fn declared_head(config: Rendition) -> Option<HeadView> {
    match config.description {
        Some(description) => head_at(description@),
        None => None,
    }
}

/// The rate and channels a rendition declares: its header's, where it has one that parses, else its
/// own.
pub open spec fn declared(config: Rendition) -> (u32, u32) {
    match declared_head(config) {
        Some(head) => (head.sample_rate, head.channel_count),
        None => (config.sample_rate, config.channel_count),
    }
}

/// The shape of an Opus decoder producing interleaved PCM.
#[derive(Clone, Debug, PartialEq, Eq)]
pub struct OpusDecoder {
    sample_rate: u32,
    channel_count: u32,
    max_frame_size: usize,
}

impl OpusDecoder {
    /// The rate it decodes at.
    pub closed spec fn rate(self) -> u32 {
        self.sample_rate
    }

    /// The channels it decodes.
    pub closed spec fn channels(self) -> u32 {
        self.channel_count
    }

    /// The most frames a packet decodes to.
    pub closed spec fn max_frames(self) -> int {
        self.max_frame_size as int
    }

    /// Shape a decoder.
    pub fn new(sample_rate: u32, channel_count: u32) -> (r: Result<Self, Error>)
        ensures
            match r {
                Ok(decoder) => {
                    &&& opus_rate(sample_rate)
                    &&& channels_fault(channel_count) is None
                    &&& decoder.rate() == sample_rate
                    &&& decoder.channels() == channel_count
                    &&& decoder.max_frames() == sample_rate * MAX_FRAME_MS / 1000
                },
                Err(e) => if !opus_rate(sample_rate) {
                    e@ == rate_fault(sample_rate)
                } else {
                    channels_fault(channel_count) == Some(e@)
                },
            },
    {
        validate_sample_rate(sample_rate)?;
        let _ = channels_for(channel_count)?;
        let max_frame_size: usize = (sample_rate as u64 * MAX_FRAME_MS as u64 / 1000) as usize;
        Ok(OpusDecoder { sample_rate, channel_count, max_frame_size })
    }

    /// Shape a decoder from a catalog rendition: by its header where that parses, else by its own
    /// fields.
    pub fn from_config(config: &Rendition) -> (r: Result<Self, Error>)
        ensures
            ({
                let (rate, channels) = declared(*config);
                match r {
                    Ok(decoder) => {
                        &&& opus_rate(rate)
                        &&& channels_fault(channels) is None
                        &&& decoder.rate() == rate
                        &&& decoder.channels() == channels
                        &&& decoder.max_frames() == rate * MAX_FRAME_MS / 1000
                    },
                    Err(e) => if !opus_rate(rate) {
                        e@ == rate_fault(rate)
                    } else {
                        channels_fault(channels) == Some(e@)
                    },
                }
            }),
    {
        if let Some(description) = &config.description {
            if let Some(head) = Head::parse(description.as_slice()) {
                return Self::new(head.sample_rate, head.channel_count);
            }
        }
        Self::new(config.sample_rate, config.channel_count)
    }

    /// Sample rate the decoder will output at.
    pub fn sample_rate(&self) -> (r: u32)
        ensures
            r == self.rate(),
    {
        self.sample_rate
    }

    /// Channel count the decoder will output.
    pub fn channel_count(&self) -> (r: u32)
        ensures
            r == self.channels(),
    {
        self.channel_count
    }

    /// The most frames a packet decodes to.
    pub fn max_frame_size(&self) -> (r: usize)
        ensures
            r == self.max_frames(),
    {
        self.max_frame_size
    }
}

/// Opus takes one channel or two, frames of 20 ms, and packets of 120 ms at most.
pub proof fn law_opus_is_mono_or_stereo(count: u32)
    ensures
        channels_fault(count) is None <==> 1 <= count <= 2,
        FRAME_DURATION_MS == 20,
        MAX_FRAME_MS == 120,
{
}

/// A rendition is decoded with the rate and channels of its description where that is a head, and
/// otherwise with those that it was listed with.
pub proof fn law_the_description_comes_before_the_listing(config: Rendition)
    ensures
        ({
            let read = match config.description {
                Some(bytes) => head_at(bytes@),
                None => None,
            };
            &&& read is Some ==> declared(config).0 == read->0.sample_rate && declared(config).1
                == read->0.channel_count
            &&& read is None ==> declared(config).0 == config.sample_rate && declared(config).1
                == config.channel_count
        }),
{
}

} // verus!
