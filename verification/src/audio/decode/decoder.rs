//! What every decoder shares: startup delay, activity, and opening by the catalog.

use crate::audio::aac;
use crate::audio::activity::Activity;
use crate::audio::backend::Kind;
use crate::audio::codec::head::{head_at, plain, Head, HeadView};
use crate::audio::codec::opus::{channels_fault, channels_for, Channels};
use crate::audio::error::{Error, ErrorView};
use crate::audio::format::{next_multiple, words_of, AudioFormat};
use crate::audio::layout::{
    channels_of, law_channels_are_taken_for_a_layout, wave_layout, Layout,
};
use crate::audio::pcm;
use crate::text::{decimal_text, push_decimal, quote, quoted, same};
use vstd::prelude::*;
use vstd::string::StringExecFns;

verus! {

/// Low-level decoder configuration.
#[derive(Clone, Debug, PartialEq, Eq)]
#[non_exhaustive]
pub struct Config {
    /// Backend selection policy.
    pub kind: Kind,
}

impl Config {
    /// Select the available backend automatically.
    pub fn new() -> (r: Self)
        ensures
            r.kind is Auto,
    {
        Config { kind: Kind::Auto }
    }
}

impl Default for Config {
    fn default() -> (r: Self)
        ensures
            r.kind is Auto,
    {
        Config { kind: Kind::Auto }
    }
}

/// One decoded packet: interleaved samples at the codec's own rate and channel count, plus what the
/// codec was doing when it produced them.
#[derive(Clone, Debug, PartialEq, Eq)]
pub struct Decoded<T> {
    /// Interleaved samples.
    pub samples: Vec<T>,
    /// Whether this packet coded any audio.
    pub activity: Activity,
}

/// How many frames of codec priming a packet's samples start with.
pub open spec fn trimmed_frames(remaining: nat, len: nat, channels: nat) -> nat {
    let frames = len / channels;
    if remaining < frames {
        remaining
    } else {
        frames
    }
}

/// A decoder's startup delay and activity.
#[derive(Clone, Copy, Debug, PartialEq, Eq, Structural)]
pub struct Decoder {
    sample_rate: u32,
    layout: Layout,
    /// Frames at the start of the stream that are codec priming, not media.
    delay: usize,
    remaining: usize,
    in_dtx: bool,
}

impl Decoder {
    /// The rate the codec decodes at.
    pub closed spec fn rate(self) -> u32 {
        self.sample_rate
    }

    /// The layout the codec decodes to.
    pub closed spec fn shape(self) -> Layout {
        self.layout
    }

    /// Frames at the start of the stream that are codec priming, not media.
    pub closed spec fn startup(self) -> nat {
        self.delay as nat
    }

    /// How much startup delay is still to be trimmed.
    pub closed spec fn left(self) -> nat {
        self.remaining as nat
    }

    /// Whether the last packet coded no audio.
    pub closed spec fn silent(self) -> bool {
        self.in_dtx
    }

    /// A decoder that was just opened.
    pub fn opened(sample_rate: u32, layout: Layout, delay: usize) -> (r: Self)
        ensures
            r.rate() == sample_rate,
            r.shape() == layout,
            r.startup() == delay,
            r.left() == delay,
            !r.silent(),
    {
        Decoder { sample_rate, layout, delay, remaining: delay, in_dtx: false }
    }

    /// The rate the codec decodes at.
    pub fn sample_rate(&self) -> (r: u32)
        ensures
            r == self.rate(),
    {
        self.sample_rate
    }

    /// The PCM layout the codec decodes to.
    pub fn layout(&self) -> (r: Layout)
        ensures
            r == self.shape(),
    {
        self.layout
    }

    /// How much startup delay is still to be trimmed, in native-rate frames.
    ///
    /// Trimmed samples are media the packet covered even though nothing came out of it, so a caller
    /// tracking where a packet ends has to add back whatever this dropped across the call.
    pub fn delay_remaining(&self) -> (r: usize)
        ensures
            r == self.left(),
    {
        self.remaining
    }

    /// Whether the last packet coded no audio.
    pub fn in_dtx(&self) -> (r: bool)
        ensures
            r == self.silent(),
    {
        self.in_dtx
    }

    /// Reapply startup delay for a new epoch without resetting codec prediction.
    pub fn reapply_delay(&mut self)
        ensures
            final(self).rate() == old(self).rate(),
            final(self).shape() == old(self).shape(),
            final(self).startup() == old(self).startup(),
            final(self).silent() == old(self).silent(),
            final(self).left() == old(self).startup(),
    {
        self.remaining = self.delay;
    }

    /// Forget the activity after packet loss, without reapplying startup delay.
    pub fn reset_prediction(&mut self)
        ensures
            final(self).rate() == old(self).rate(),
            final(self).shape() == old(self).shape(),
            final(self).startup() == old(self).startup(),
            final(self).left() == old(self).left(),
            !final(self).silent(),
    {
        self.in_dtx = false;
    }

    /// Forget the activity and reapply startup delay, for a new discontinuous epoch.
    pub fn reset(&mut self)
        ensures
            final(self).rate() == old(self).rate(),
            final(self).shape() == old(self).shape(),
            final(self).startup() == old(self).startup(),
            final(self).left() == old(self).startup(),
            !final(self).silent(),
    {
        self.reset_prediction();
        self.reapply_delay();
    }

    /// Take in what the codec made of a packet: its samples without the startup delay that is left,
    /// and its activity.
    pub fn decode<T: Copy>(&mut self, samples: &Vec<T>, channels: usize, activity: Activity) -> (r:
        Decoded<T>)
        requires
            channels > 0,
        ensures
            final(self).rate() == old(self).rate(),
            final(self).shape() == old(self).shape(),
            final(self).startup() == old(self).startup(),
            final(self).silent() == (activity is Dtx),
            r.activity == activity,
            ({
                let trimmed = trimmed_frames(old(self).left(), samples@.len(), channels as nat);
                &&& final(self).left() == old(self).left() - trimmed
                &&& r.samples@ == samples@.skip((trimmed * channels) as int)
            }),
    {
        let frames: usize = samples.len() / channels;
        let trimmed: usize = if self.remaining < frames {
            self.remaining
        } else {
            frames
        };
        assert(trimmed * channels <= samples@.len()) by (nonlinear_arith)
            requires
                trimmed <= frames,
                frames == samples@.len() / (channels as nat),
                channels > 0,
        ;
        self.remaining = self.remaining - trimmed;
        self.in_dtx = activity.is_dtx();
        let from: usize = trimmed * channels;
        let mut out: Vec<T> = Vec::new();
        let mut i: usize = from;
        while i < samples.len()
            invariant
                from <= i <= samples@.len(),
                out@ == samples@.subrange(from as int, i as int),
            decreases samples@.len() - i,
        {
            out.push(samples[i]);
            assert(out@ =~= samples@.subrange(from as int, i + 1));
            i = i + 1;
        }
        assert(out@ =~= samples@.skip(from as int));
        Decoded { samples: out, activity }
    }
}

/// Read a PCM packet as raw words, one for each sample.
pub fn decode_pcm(packet: &[u8], bytes_per_frame: usize) -> (r: Result<Vec<u32>, Error>)
    requires
        bytes_per_frame > 0,
        bytes_per_frame % 4 == 0,
        packet@.len() + bytes_per_frame + 4 <= usize::MAX,
    ensures
        match r {
            Ok(words) => {
                &&& packet@.len() > 0
                &&& packet@.len() as int % bytes_per_frame as int == 0
                &&& words@ == words_of(AudioFormat::F32, packet@, 1)
            },
            Err(e) => {
                &&& packet@.len() == 0 || packet@.len() as int % bytes_per_frame as int != 0
                &&& e@ == (ErrorView::Misaligned {
                    got: packet@.len() as usize,
                    expected: next_multiple(
                        if packet@.len() == 0 {
                            1
                        } else {
                            packet@.len() as int
                        },
                        bytes_per_frame as int,
                    ) as usize,
                })
            },
        },
{
    let len: usize = packet.len();
    let rest: usize = len % bytes_per_frame;
    if len == 0 || rest != 0 {
        let least: usize = if len == 0 {
            1
        } else {
            len
        };
        proof {
            vstd::arithmetic::div_mod::lemma_mod_decreases(least as nat, bytes_per_frame as nat);
            if len == 0 && bytes_per_frame > 1 {
                vstd::arithmetic::div_mod::lemma_small_mod(1, bytes_per_frame as nat);
            }
        }
        let expected: usize = if least % bytes_per_frame == 0 {
            least
        } else {
            least - least % bytes_per_frame + bytes_per_frame
        };
        return Err(Error::Misaligned { got: len, expected });
    }
    proof {
        let q = len as int / bytes_per_frame as int;
        let k = bytes_per_frame as int / 4;
        vstd::arithmetic::div_mod::lemma_fundamental_div_mod(len as int, bytes_per_frame as int);
        assert(len == (k * q) * 4) by (nonlinear_arith)
            requires
                len == bytes_per_frame * q,
                bytes_per_frame == k * 4,
        ;
        assert(len % 4 == 0);
    }
    match AudioFormat::F32.to_interleaved_words(packet, 1) {
        Ok(words) => Ok(words),
        Err(e) => Err(e),
    }
}

/// What opening a symphonia AAC decoder with this `AudioSpecificConfig` comes to: the sample rate
/// and channel count it resolved, or why it refused.
pub uninterp spec fn aac_opened(description: Seq<u8>) -> Result<
    (Option<u32>, Option<usize>),
    Seq<char>,
>;

/// `symphonia_codec_aac::AacDecoder::try_new` with an `AudioSpecificConfig`, and the decoder's
/// `codec_params`. A decoder that opens has resolved a sample rate other than zero, and one or two
/// channels.
#[verifier::external_body]
fn open_decoder(description: &Vec<u8>) -> (r: Result<(Option<u32>, Option<usize>), String>)
    ensures
        match r {
            Ok(shape) => {
                &&& aac_opened(description@) == Ok::<
                    (Option<u32>, Option<usize>),
                    Seq<char>,
                >(shape)
                &&& shape.0 is Some && shape.0->0 > 0
                &&& shape.1 is Some && 1 <= shape.1->0 <= 2
            },
            Err(text) => aac_opened(description@) == Err::<(Option<u32>, Option<usize>), Seq<char>>(
                text@,
            ),
        },
{
    let mut params = symphonia_core::codecs::audio::AudioCodecParameters::new();
    params
        .for_codec(symphonia_core::codecs::audio::well_known::CODEC_ID_AAC)
        .with_extra_data(description.clone().into_boxed_slice());
    let options = symphonia_core::codecs::audio::AudioDecoderOptions::default();
    let decoder = symphonia_codec_aac::AacDecoder::try_new(&params, &options)
        .map_err(|err| err.to_string())?;
    let params = symphonia_core::codecs::audio::AudioDecoder::codec_params(&decoder);
    Ok((params.sample_rate, params.channels.as_ref().map(|channels| channels.count())))
}

/// What an AAC decoder makes of the shape that was resolved from its config.
pub open spec fn aac_shape(
    opened: Result<(Option<u32>, Option<usize>), Seq<char>>,
) -> Result<(u32, Layout), ErrorView> {
    match opened {
        Err(text) => Err(ErrorView::Unsupported("aac decoder: "@ + text)),
        Ok((rate, channels)) => match rate {
            None => Err(ErrorView::Unsupported("aac config declares no sample rate"@)),
            Some(rate) => match channels {
                None => Err(ErrorView::Unsupported("aac config declares no channels"@)),
                Some(channels) => if channels as u32 == 0 {
                    Err(crate::audio::layout::no_channels())
                } else {
                    Ok((rate, wave_layout(channels as u32)))
                },
            },
        },
    }
}

/// The rate and layout an AAC decoder will emit, from the shape it resolved. That is what it emits
/// even where the catalog's own fields say otherwise.
pub fn shape_aac(opened: Result<(Option<u32>, Option<usize>), String>) -> (r: Result<
    (u32, Layout),
    Error,
>)
    requires
        opened matches Ok((_, Some(channels))) ==> channels <= u32::MAX,
    ensures
        ({
            let view = match opened {
                Ok(shape) => Ok(shape),
                Err(text) => Err(text@),
            };
            match r {
                Ok(shape) => aac_shape(view) == Ok::<(u32, Layout), ErrorView>(shape),
                Err(e) => aac_shape(view) == Err::<(u32, Layout), ErrorView>(e@),
            }
        }),
{
    match opened {
        Err(reason) => {
            let mut text = "aac decoder: ".to_owned();
            text.append(reason.as_str());
            Err(Error::Unsupported(text))
        },
        Ok((rate, channels)) => {
            let rate: u32 = match rate {
                Some(rate) => rate,
                None => {
                    return Err(
                        Error::Unsupported("aac config declares no sample rate".to_owned()),
                    );
                },
            };
            let channels: usize = match channels {
                Some(channels) => channels,
                None => {
                    return Err(Error::Unsupported("aac config declares no channels".to_owned()));
                },
            };
            match Layout::from_channels(channels as u32) {
                Ok(layout) => Ok((rate, layout)),
                Err(e) => Err(e),
            }
        },
    }
}

/// Check an AAC track's catalog, and open a decoder of it: the config it was opened with, and the
/// rate and layout it will emit.
pub fn open_aac(catalog: &aac::Catalog) -> (r: Result<(Vec<u8>, u32, Layout), Error>)
    ensures
        match aac::described(*catalog) {
            Err(e) => r is Err && r->Err_0@ == e,
            Ok(description) => match aac_shape(aac_opened(description)) {
                Err(e) => r is Err && r->Err_0@ == e,
                Ok((rate, layout)) => {
                    &&& r is Ok
                    &&& r->Ok_0.0@ == description
                    &&& r->Ok_0.1 == rate
                    &&& r->Ok_0.2 == layout
                },
            },
        },
{
    let description = match aac::description(catalog) {
        Ok(description) => description,
        Err(e) => {
            return Err(e);
        },
    };
    let opened = open_decoder(&description);
    match shape_aac(opened) {
        Ok((rate, layout)) => Ok((description, rate, layout)),
        Err(e) => Err(e),
    }
}

/// The codec a catalog names.
#[derive(Clone, Debug, PartialEq, Eq)]
pub enum TrackCodec {
    /// Opus.
    Opus,
    /// Uncompressed PCM.
    Pcm,
    /// AAC, with the object type of its codec string.
    Aac(u8),
    /// A codec there is no decoder for, by name.
    Other(String),
}

/// What a catalog says of a track.
#[derive(Clone, Debug)]
pub struct Catalog {
    /// The codec.
    pub codec: TrackCodec,
    /// Samples per second, per channel.
    pub sample_rate: u32,
    /// Channels.
    pub channel_count: u32,
    /// Bits per second, where declared.
    pub bitrate: Option<u64>,
    /// The codec header, where declared.
    pub description: Option<Vec<u8>>,
}

/// What a decoder runs on.
#[derive(Clone, Debug, PartialEq, Eq)]
pub enum Backend {
    /// An Opus decoder.
    Opus {
        /// The most frames a packet decodes to.
        max_frame_size: usize,
        /// The gain to apply, in 256ths of a decibel.
        output_gain: i16,
    },
    /// Raw samples.
    Pcm {
        /// The bytes of one frame.
        bytes_per_frame: usize,
    },
    /// An AAC decoder.
    Aac {
        /// The config it opens with.
        description: Vec<u8>,
    },
}

/// The rate Opus decodes at, whatever the rate of the encoder's input was.
pub const DECODE_RATE: u32 = 48_000;

/// The header an Opus stream decodes by: the declared one, or the catalog's channels without any
/// delay or gain. A header that is declared but malformed is refused.
pub open spec fn opus_head(catalog: Catalog) -> Result<HeadView, ErrorView> {
    match catalog.description {
        Some(description) => match head_at(description@) {
            Some(head) => Ok(head),
            None => Err(ErrorView::Unsupported("opus description: malformed header"@)),
        },
        None => Ok(plain(catalog.sample_rate, catalog.channel_count, 0)),
    }
}

/// Read the header an Opus stream decodes by.
pub fn read_head(catalog: &Catalog) -> (r: Result<Head, Error>)
    ensures
        match opus_head(*catalog) {
            Ok(head) => r is Ok && r->Ok_0@ == head,
            Err(fault) => r is Err && r->Err_0@ == fault,
        },
{
    match &catalog.description {
        Some(description) => match Head::parse(description.as_slice()) {
            Some(head) => Ok(head),
            None => Err(Error::Unsupported("opus description: malformed header".to_owned())),
        },
        None => Ok(Head::new(catalog.sample_rate, catalog.channel_count, 0)),
    }
}

/// Why an Opus stream is refused, if it is: only mono and stereo decode without a channel mapping.
pub open spec fn opus_fault(head: HeadView) -> Option<ErrorView> {
    match head.mapping {
        Some(mapping) => Some(
            ErrorView::Unsupported(
                "unsupported opus channel mapping family "@ + decimal_text(mapping.family as nat),
            ),
        ),
        None => channels_fault(head.channel_count),
    }
}

/// The name of the only backend a codec has, where it has one.
pub open spec fn backend_name(codec: TrackCodec) -> Option<Seq<char>> {
    match codec {
        TrackCodec::Opus => Some("opus"@),
        TrackCodec::Pcm => Some("pcm"@),
        TrackCodec::Aac(_) => Some("aac"@),
        TrackCodec::Other(_) => None,
    }
}

/// What a track is refused with before its codec is opened, if it is.
pub open spec fn track_fault(codec: TrackCodec, kind: Kind) -> Option<ErrorView> {
    match codec {
        TrackCodec::Other(name) => Some(
            ErrorView::Unsupported("unsupported audio codec: "@ + name@),
        ),
        _ => match kind {
            Kind::Named(requested) if requested@ != backend_name(codec)->0 => Some(
                ErrorView::Unsupported(
                    "audio decoder backend "@ + quoted(requested@) + " is unavailable for "@
                        + backend_name(codec)->0,
                ),
            ),
            _ => None,
        },
    }
}

/// Refuse a track there is no decoder for, or not the one that was asked for.
pub fn check_track(codec: &TrackCodec, kind: &Kind) -> (r: Result<(), Error>)
    ensures
        match r {
            Ok(_) => track_fault(*codec, *kind) is None,
            Err(e) => track_fault(*codec, *kind) == Some(e@),
        },
{
    let name: &str = match codec {
        TrackCodec::Opus => "opus",
        TrackCodec::Pcm => "pcm",
        TrackCodec::Aac(_) => "aac",
        TrackCodec::Other(name) => {
            let mut text = "unsupported audio codec: ".to_owned();
            text.append(name.as_str());
            return Err(Error::Unsupported(text));
        },
    };
    if let Kind::Named(requested) = kind {
        if !same(requested.as_str(), name) {
            let shown = quote(requested.as_str());
            let mut text = "audio decoder backend ".to_owned();
            text.append(shown.as_str());
            text.append(" is unavailable for ");
            text.append(name);
            return Err(Error::Unsupported(text));
        }
    }
    Ok(())
}

/// The AAC part of a catalog.
pub open spec fn aac_part(catalog: Catalog, profile: u8) -> aac::Catalog {
    aac::Catalog {
        profile,
        sample_rate: catalog.sample_rate,
        channel_count: catalog.channel_count,
        description: catalog.description,
    }
}

/// The PCM part of a catalog.
pub open spec fn pcm_part(catalog: Catalog) -> pcm::Catalog {
    pcm::Catalog {
        sample_rate: catalog.sample_rate,
        channel_count: catalog.channel_count,
        bitrate: catalog.bitrate,
        described: catalog.description is Some,
    }
}

/// The layout of a PCM track, which declares a channel count and no speakers: the default one for the
/// count. Three channels alone pass through as they are, being as likely 3.0 as the default 2.1.
pub open spec fn pcm_layout(channels: u32) -> Layout {
    if channels == 3 {
        Layout::Discrete(3)
    } else {
        wave_layout(channels)
    }
}

/// Whether `decoder` was just opened with this rate, layout and startup delay.
pub open spec fn fresh(decoder: Decoder, rate: u32, layout: Layout, delay: nat) -> bool {
    &&& decoder.rate() == rate
    &&& decoder.shape() == layout
    &&& decoder.startup() == delay
    &&& decoder.left() == delay
    &&& !decoder.silent()
}

impl Decoder {
    /// Open a decoder from a catalog.
    ///
    /// Opus decodes at 48 kHz with the pre-skip and gain its header declares, refusing a malformed
    /// header or a channel mapping other than mono or stereo; without a header it takes the
    /// catalog's channel count and applies neither. PCM uses the catalog's fields directly and
    /// requires an absent header. AAC decodes at what its own config declares.
    pub fn new(catalog: Catalog, config: &Config) -> (r: Result<(Self, Backend), Error>)
        ensures
            match track_fault(catalog.codec, config.kind) {
                Some(fault) => r is Err && r->Err_0@ == fault,
                None => match catalog.codec {
                    TrackCodec::Opus => match opus_head(catalog) {
                        Err(e) => r is Err && r->Err_0@ == e,
                        Ok(head) => match opus_fault(head) {
                            Some(fault) => r is Err && r->Err_0@ == fault,
                            None => {
                                &&& r is Ok
                                &&& fresh(
                                    r->Ok_0.0,
                                    DECODE_RATE,
                                    wave_layout(head.channel_count),
                                    head.pre_skip as nat,
                                )
                                &&& r->Ok_0.1 == (Backend::Opus {
                                    max_frame_size: 5_760,
                                    output_gain: head.output_gain,
                                })
                            },
                        },
                    },
                    TrackCodec::Pcm => match pcm::catalog_fault(pcm_part(catalog)) {
                        Some(fault) => r is Err && r->Err_0@ == fault,
                        None => {
                            &&& r is Ok
                            &&& fresh(
                                r->Ok_0.0,
                                catalog.sample_rate,
                                pcm_layout(catalog.channel_count),
                                0,
                            )
                            &&& r->Ok_0.1 == (Backend::Pcm {
                                bytes_per_frame: (catalog.channel_count * 4) as usize,
                            })
                        },
                    },
                    TrackCodec::Aac(profile) => match aac::described(aac_part(catalog, profile)) {
                        Err(e) => r is Err && r->Err_0@ == e,
                        Ok(description) => match aac_shape(aac_opened(description)) {
                            Err(e) => r is Err && r->Err_0@ == e,
                            Ok((rate, layout)) => {
                                &&& r is Ok
                                &&& fresh(r->Ok_0.0, rate, layout, 0)
                                &&& r->Ok_0.1 is Aac
                                &&& r->Ok_0.1->description@ == description
                            },
                        },
                    },
                    TrackCodec::Other(_) => false,
                },
            },
    {
        match check_track(&catalog.codec, &config.kind) {
            Ok(_) => {},
            Err(e) => {
                return Err(e);
            },
        }
        match catalog.codec {
            TrackCodec::Opus => {
                let head = match read_head(&catalog) {
                    Ok(head) => head,
                    Err(e) => {
                        return Err(e);
                    },
                };
                if let Some(mapping) = &head.mapping {
                    let mut text = "unsupported opus channel mapping family ".to_owned();
                    push_decimal(&mut text, mapping.family as u64);
                    return Err(Error::Unsupported(text));
                }
                let layout = match channels_for(head.channel_count) {
                    Ok(Channels::Mono) => Layout::Mono,
                    Ok(Channels::Stereo) => Layout::Stereo,
                    Err(e) => {
                        return Err(e);
                    },
                };
                let backend = Backend::Opus {
                    max_frame_size: 5_760,
                    output_gain: head.output_gain,
                };
                Ok((Decoder::opened(DECODE_RATE, layout, head.pre_skip as usize), backend))
            },
            TrackCodec::Pcm => {
                let part = pcm::Catalog {
                    sample_rate: catalog.sample_rate,
                    channel_count: catalog.channel_count,
                    bitrate: catalog.bitrate,
                    described: catalog.description.is_some(),
                };
                let bytes_per_frame: usize = match pcm::bytes_per_frame(&part) {
                    Ok(bytes) => bytes,
                    Err(e) => {
                        return Err(e);
                    },
                };
                let layout = if catalog.channel_count == 3 {
                    Layout::Discrete(3)
                } else {
                    match Layout::from_channels(catalog.channel_count) {
                        Ok(layout) => layout,
                        Err(e) => {
                            return Err(e);
                        },
                    }
                };
                let backend = Backend::Pcm { bytes_per_frame };
                Ok((Decoder::opened(catalog.sample_rate, layout, 0), backend))
            },
            TrackCodec::Aac(profile) => {
                let part = aac::Catalog {
                    profile,
                    sample_rate: catalog.sample_rate,
                    channel_count: catalog.channel_count,
                    description: catalog.description,
                };
                match open_aac(&part) {
                    Ok((description, rate, layout)) => Ok(
                        (Decoder::opened(rate, layout, 0), Backend::Aac { description }),
                    ),
                    Err(e) => Err(e),
                }
            },
            TrackCodec::Other(name) => Err(Error::Unsupported(name)),
        }
    }
}

/// What is trimmed is as much as is left to trim, or all the whole frames there are where these are
/// fewer.
pub proof fn law_as_much_is_trimmed_as_there_is(remaining: nat, len: nat, channels: nat)
    requires
        channels > 0,
    ensures
        ({
            let trimmed = trimmed_frames(remaining, len, channels);
            &&& trimmed <= remaining
            &&& trimmed * channels <= len
            &&& trimmed == remaining || len < (trimmed + 1) * channels
        }),
{
    let trimmed = trimmed_frames(remaining, len, channels);
    let frames = len / channels;
    vstd::arithmetic::div_mod::lemma_fundamental_div_mod(len as int, channels as int);
    assert(channels * frames == frames * channels) by (nonlinear_arith);
    assert((frames + 1) * channels == frames * channels + channels) by (nonlinear_arith);
    assert(trimmed * channels <= frames * channels) by (nonlinear_arith)
        requires
            trimmed <= frames,
    ;
}

/// An opened AAC decoder has the rate and as many channels as it came up with, and is refused where
/// one is missing or there are no channels.
pub proof fn law_an_aac_decoder_has_the_shape_it_opened_with(
    rate: Option<u32>,
    channels: Option<usize>,
    text: Seq<char>,
)
    requires
        channels matches Some(n) ==> n <= u32::MAX,
    ensures
        aac_shape(Err(text)) is Err,
        match aac_shape(Ok((rate, channels))) {
            Ok((r, layout)) => rate == Some(r) && channels is Some && channels->0 > 0
                && channels_of(layout) == channels->0,
            Err(_) => rate is None || channels is None || channels->0 == 0,
        },
{
    if let Some(n) = channels {
        law_channels_are_taken_for_a_layout(n as u32);
    }
}

/// A track without a description is taken for one head of its rate and channels. With one, it has
/// the head that the description holds, and is refused where that holds none.
pub proof fn law_a_track_has_the_head_it_describes(catalog: Catalog)
    ensures
        match opus_head(catalog) {
            Ok(head) => {
                &&& catalog.description matches Some(bytes) ==> head_at(bytes@) == Some(head)
                &&& catalog.description is None ==> head.sample_rate == catalog.sample_rate
                    && head.channel_count == catalog.channel_count && head.pre_skip == 0
                    && head.output_gain == 0 && head.mapping is None
            },
            Err(_) => catalog.description is Some && head_at(catalog.description->0@) is None,
        },
        DECODE_RATE == 48_000,
{
}

/// A head is decoded where it has one channel or two and no mapping.
pub proof fn law_only_unmapped_mono_and_stereo_decode(head: HeadView)
    ensures
        opus_fault(head) is None <==> head.mapping is None && (head.channel_count == 1
            || head.channel_count == 2),
{
}

/// A track is decoded where its codec is known and the decoder that was asked for by name, if one
/// was, is the one of that codec.
pub proof fn law_a_named_decoder_is_the_codecs_own(codec: TrackCodec, kind: Kind)
    ensures
        track_fault(codec, kind) is None <==> match codec {
            TrackCodec::Other(_) => false,
            TrackCodec::Opus => kind matches Kind::Named(name) ==> name@ == "opus"@,
            TrackCodec::Pcm => kind matches Kind::Named(name) ==> name@ == "pcm"@,
            TrackCodec::Aac(_) => kind matches Kind::Named(name) ==> name@ == "aac"@,
        },
{
}

/// Raw samples keep their number of channels, and three of them have no places.
pub proof fn law_raw_channels_are_kept(channels: u32)
    ensures
        channels_of(pcm_layout(channels)) == channels,
        pcm_layout(channels) is Discrete <==> channels == 0 || channels == 3 || channels > 8,
{
    law_channels_are_taken_for_a_layout(channels);
}

/// A fresh decoder has its whole delay before it, and is not in silence.
pub proof fn law_a_fresh_decoder_has_its_delay_before_it(
    decoder: Decoder,
    rate: u32,
    layout: Layout,
    delay: nat,
)
    ensures
        fresh(decoder, rate, layout, delay) <==> decoder.rate() == rate && decoder.shape() == layout
            && decoder.startup() == delay && decoder.left() == delay && !decoder.silent(),
{
}

/// A track is handed to its codec with the rate, channels, bitrate and description that it is listed
/// with.
pub proof fn law_a_track_is_opened_as_listed(catalog: Catalog, profile: u8)
    ensures
        aac_part(catalog, profile).profile == profile,
        aac_part(catalog, profile).sample_rate == catalog.sample_rate,
        aac_part(catalog, profile).channel_count == catalog.channel_count,
        aac_part(catalog, profile).description == catalog.description,
        pcm_part(catalog).sample_rate == catalog.sample_rate,
        pcm_part(catalog).channel_count == catalog.channel_count,
        pcm_part(catalog).bitrate == catalog.bitrate,
        pcm_part(catalog).described <==> catalog.description is Some,
{
}

} // verus!
