use moq_media::audio::activity::{activity, Activity};
use moq_media::audio::backend::Kind;
use moq_media::audio::codec::head::{Head, Mapping};
use moq_media::audio::decode::clock::{advance, discontinuous, frames_between, rewind};
use moq_media::audio::decode::consumer::{max_age, Consumer, Output, Resampled};
use moq_media::audio::decode::decoder::{
    decode_pcm, open_aac, shape_aac, Backend, Catalog, Config, Decoder, TrackCodec, DECODE_RATE,
};
use moq_media::audio::decode::framing::split_streams;
use moq_media::audio::decode::opus::{self, plan, reorder, vorbis};
use moq_media::audio::error::Error;
use moq_media::audio::layout::{Layout, Speaker};
use moq_media::time::{Duration, Timestamp};

fn catalog(codec: TrackCodec, sample_rate: u32, channel_count: u32) -> Catalog {
    Catalog {
        codec,
        sample_rate,
        channel_count,
        bitrate: None,
        description: None,
    }
}

fn described(description: Vec<u8>, channels: u32) -> Catalog {
    Catalog {
        description: Some(description),
        ..catalog(TrackCodec::Opus, 48_000, channels)
    }
}

fn open(catalog: Catalog) -> Result<(Decoder, Backend), Error> {
    Decoder::new(catalog, &Config::default())
}

fn named(name: &str) -> Config {
    let mut config = Config::new();
    config.kind = Kind::Named(name.to_string());
    config
}

/// The OpusHead input rate is metadata: 44.1 kHz and unknown (0) are valid
/// heads, and no input rate changes the 48 kHz clock the packets decode on.
#[test]
fn opus_decodes_at_48k_whatever_the_input_rate() {
    for input_rate in [0, 8_000, 24_000, 44_100, 48_000, 96_000] {
        let head = Head::new(input_rate, 1, 312);
        let mut declared = described(head.encode(), 1);
        declared.sample_rate = input_rate;
        let (mut decoder, _) = open(declared).unwrap();
        assert_eq!(decoder.sample_rate(), 48_000, "input rate {input_rate}");

        // The pre-skip is 48 kHz samples, trimmed once.
        let packet = vec![0i32; 960];
        assert_eq!(
            decoder.decode(&packet, 1, Activity::Active).samples.len(),
            960 - 312
        );
        assert_eq!(decoder.decode(&packet, 1, Activity::Active).samples.len(), 960);
    }
}

#[test]
fn opus_carries_the_declared_gain() {
    let mut head = Head::new(48_000, 1, 0);
    head.output_gain = -1541;
    let (_, backend) = open(described(head.encode(), 1)).unwrap();
    assert_eq!(
        backend,
        Backend::Opus {
            max_frame_size: 5_760,
            output_gain: -1541
        }
    );
}

/// A present description is the stream's configuration, so a broken one is
/// refused rather than replaced by the catalog's fields.
#[test]
fn opus_refuses_a_malformed_description() {
    let valid = Head::new(48_000, 2, 0).encode();
    let mut version = valid.clone();
    version[8] = 16;
    let mut channels = valid.clone();
    channels[9] = 3;
    let mut signature = valid.clone();
    signature[0] = b'X';
    // Family 1 promising a table that is not there.
    let mut table = valid.clone();
    table[18] = 1;

    for (name, description) in [
        ("truncated", valid[..18].to_vec()),
        ("empty", Vec::new()),
        ("signature", signature),
        ("version", version),
        ("channels", channels),
        ("table", table),
    ] {
        assert!(
            matches!(open(described(description, 2)), Err(Error::Unsupported(_))),
            "{name}"
        );
    }
}

/// Mapping families other than 0 need the multistream decoder; a stereo
/// family 1 head is refused rather than decoded as family 0.
#[test]
fn opus_refuses_unsupported_channel_mappings() {
    let valid = Head::new(48_000, 2, 0).encode();
    for family in [1, 255] {
        let mut description = valid.clone();
        description[18] = family;
        // One coupled stream, left then right.
        description.extend_from_slice(&[1, 1, 0, 1]);
        assert!(
            matches!(open(described(description, 2)), Err(Error::Unsupported(_))),
            "family {family}"
        );
    }
}

/// Without a description the catalog shapes the stream, which has no pre-skip.
#[test]
fn opus_decodes_without_a_description() {
    let (mut decoder, _) = open(catalog(TrackCodec::Opus, 24_000, 1)).unwrap();
    assert_eq!(decoder.sample_rate(), DECODE_RATE);
    assert_eq!(
        decoder
            .decode(&vec![0i32; 960], 1, Activity::Active)
            .samples
            .len(),
        960
    );

    assert!(matches!(
        open(catalog(TrackCodec::Opus, 48_000, 6)),
        Err(Error::Unsupported(_))
    ));
}

#[test]
fn pcm_rejects_incomplete_channel_frame() {
    let (_, backend) = open(catalog(TrackCodec::Pcm, 48_000, 2)).unwrap();
    let Backend::Pcm { bytes_per_frame } = backend else {
        panic!("expected PCM");
    };
    assert!(matches!(
        decode_pcm(&[], bytes_per_frame),
        Err(Error::Misaligned { got: 0, expected: 8 })
    ));
    assert!(matches!(
        decode_pcm(&[0; 4], bytes_per_frame),
        Err(Error::Misaligned { got: 4, expected: 8 })
    ));
}

#[test]
fn decoder_rejects_unknown_codec() {
    assert!(matches!(
        open(catalog(TrackCodec::Other("future".into()), 48_000, 2)),
        Err(Error::Unsupported(_))
    ));
}

#[test]
fn pcm_rejects_incorrect_catalog_bitrate() {
    let mut declared = catalog(TrackCodec::Pcm, 48_000, 2);
    declared.bitrate = Some(1);

    assert_eq!(
        open(declared).unwrap_err(),
        Error::Unsupported("pcm catalog bitrate must be 3072000 bits per second".to_string())
    );
}

#[test]
fn refuses_unavailable_backend() {
    let declared = catalog(TrackCodec::Pcm, 48_000, 2);
    assert_eq!(
        Decoder::new(declared, &named("missing")).unwrap_err(),
        Error::Unsupported(
            "audio decoder backend \"missing\" is unavailable for pcm".to_string()
        )
    );
    let declared = catalog(TrackCodec::Pcm, 48_000, 2);
    assert!(Decoder::new(declared, &named("pcm")).is_ok());
}

#[test]
fn pcm_samples_are_read_word_by_word() {
    let samples = [0.25f32, -0.5];
    let packet: Vec<u8> = samples.iter().flat_map(|s| s.to_le_bytes()).collect();
    let words = decode_pcm(&packet, 8).unwrap();
    let read: Vec<f32> = words.into_iter().map(f32::from_bits).collect();
    assert_eq!(read, samples);
}

/// A catalog for AAC-LC at 44.1 kHz, mono, which needs no description.
#[test]
fn aac_opens_from_its_config() {
    let (decoder, backend) = open(catalog(TrackCodec::Aac(2), 44_100, 1)).unwrap();
    assert_eq!(decoder.sample_rate(), 44_100);
    assert_eq!(decoder.layout(), Layout::Mono);
    assert_eq!(
        backend,
        Backend::Aac {
            description: vec![0x12, 0x08]
        }
    );

    // The description wins over the catalog's own fields: 48 kHz stereo.
    let mut declared = catalog(TrackCodec::Aac(2), 44_100, 1);
    declared.description = Some(vec![0x11, 0x90]);
    let (decoder, _) = open(declared).unwrap();
    assert_eq!(decoder.sample_rate(), 48_000);
    assert_eq!(decoder.layout(), Layout::Stereo);

    let part = moq_media::audio::aac::Catalog {
        profile: 5,
        sample_rate: 44_100,
        channel_count: 2,
        description: None,
    };
    assert!(matches!(open_aac(&part), Err(Error::Unsupported(_))));
}

#[test]
fn an_opened_aac_decoder_must_name_its_shape() {
    assert_eq!(
        shape_aac(Err("no".to_string())),
        Err(Error::Unsupported("aac decoder: no".to_string()))
    );
    assert_eq!(
        shape_aac(Ok((None, Some(1)))),
        Err(Error::Unsupported(
            "aac config declares no sample rate".to_string()
        ))
    );
    assert_eq!(
        shape_aac(Ok((Some(48_000), None))),
        Err(Error::Unsupported(
            "aac config declares no channels".to_string()
        ))
    );
    assert_eq!(
        shape_aac(Ok((Some(48_000), Some(2)))),
        Ok((48_000, Layout::Stereo))
    );
    assert!(shape_aac(Ok((Some(48_000), Some(0)))).is_err());
}

#[test]
fn startup_delay_is_trimmed_once_and_reapplied_on_reset() {
    let mut decoder = Decoder::opened(48_000, Layout::Stereo, 3);
    let first = decoder.decode(&vec![1, 2, 3, 4], 2, Activity::Dtx);
    assert!(first.samples.is_empty());
    assert_eq!(decoder.delay_remaining(), 1);
    assert!(decoder.in_dtx());
    let second = decoder.decode(&vec![5, 6, 7, 8], 2, Activity::Active);
    assert_eq!(second.samples, vec![7, 8]);
    assert_eq!(second.activity, Activity::Active);
    assert_eq!(decoder.delay_remaining(), 0);

    decoder.reset_prediction();
    assert_eq!(decoder.delay_remaining(), 0, "loss does not reapply the delay");
    decoder.reset();
    assert_eq!(decoder.delay_remaining(), 3);
}

/// The speakers a family 1 stream of each channel count carries, in its own order.
const VORBIS: [&[Speaker]; 8] = [
    &[Speaker::FrontCenter],
    &[Speaker::FrontLeft, Speaker::FrontRight],
    &[Speaker::FrontLeft, Speaker::FrontCenter, Speaker::FrontRight],
    &[
        Speaker::FrontLeft,
        Speaker::FrontRight,
        Speaker::BackLeft,
        Speaker::BackRight,
    ],
    &[
        Speaker::FrontLeft,
        Speaker::FrontCenter,
        Speaker::FrontRight,
        Speaker::SideLeft,
        Speaker::SideRight,
    ],
    &[
        Speaker::FrontLeft,
        Speaker::FrontCenter,
        Speaker::FrontRight,
        Speaker::SideLeft,
        Speaker::SideRight,
        Speaker::Lfe,
    ],
    &[
        Speaker::FrontLeft,
        Speaker::FrontCenter,
        Speaker::FrontRight,
        Speaker::SideLeft,
        Speaker::SideRight,
        Speaker::BackCenter,
        Speaker::Lfe,
    ],
    &[
        Speaker::FrontLeft,
        Speaker::FrontCenter,
        Speaker::FrontRight,
        Speaker::SideLeft,
        Speaker::SideRight,
        Speaker::BackLeft,
        Speaker::BackRight,
        Speaker::Lfe,
    ],
];

/// Every family 1 layout decodes with each canonical channel carrying its
/// own speaker, which pins the reorder independently of it.
#[test]
fn family_one_decodes_in_canonical_order() {
    for channels in 1..=8usize {
        let given = VORBIS[channels - 1];
        let mut head = Head::new(48_000, channels as u32, 312);
        head.mapping = Some(Mapping {
            family: 1,
            streams: 1,
            coupled: 0,
            table: vec![0; channels],
        });
        let plan = plan(head).unwrap();
        // The layout has exactly the Vorbis speakers, which canonical order sorts.
        let mut speakers = given.to_vec();
        speakers.sort_by_key(|&speaker| speaker as u8);
        assert_eq!(plan.layout.speakers().unwrap(), speakers, "{channels} channels");

        // Two frames, each sample the speaker it is meant for.
        let pcm: Vec<u8> = given.iter().chain(given).map(|&s| s as u8).collect();
        let pcm = match &plan.reorder {
            Some(order) => reorder(&pcm, order),
            None => pcm,
        };
        for (index, &sample) in pcm.iter().enumerate() {
            assert_eq!(sample, speakers[index % channels] as u8, "{channels} channels");
        }
    }
    assert!(matches!(vorbis(9), Err(Error::Unsupported(_))));
}

/// Families other than 0 and 1 carry no speaker positions, so there is
/// nothing to put in a layout: refused, not passed through as discrete.
/// An all-DTX surround packet is one empty Opus packet per stream. Read as a
/// single stream, the later subpackets look like payload and the span is lost.
#[test]
fn surround_silence_is_dtx() {
    // Two coupled streams, then two mono, each a 20 ms empty frame.
    let dtx = [0xfc, 0x00, 0xfc, 0x00, 0xf8, 0x00, 0xf8];
    let split = split_streams(&dtx, 4).expect("empty multistream packet");
    assert_eq!((&split.sizes[..], split.last), (&[0i16, 0, 0][..], 6));
    // The last stream is its first byte and one empty frame.
    let mut sizes = split.sizes;
    sizes.push((dtx.len() - split.last - 1) as i16);
    assert!(
        activity(Some(&sizes), false).is_dtx(),
        "all-DTX surround packet read as active"
    );

    // One of the streams codes two bytes.
    let mid = [0xfc, 0x00, 0xfc, 0x02, 0xaa, 0xbb, 0xf8, 0x00, 0xf8];
    let split = split_streams(&mid, 4).unwrap();
    assert_eq!((&split.sizes[..], split.last), (&[0i16, 2, 0][..], 8));
    let mut sizes = split.sizes;
    sizes.push(0);
    assert!(
        activity(Some(&sizes), true).is_active(),
        "a coded surround frame must stay active"
    );

    // A single stream has nothing in front of it.
    let split = split_streams(&dtx, 1).unwrap();
    assert_eq!((split.sizes.len(), split.last), (0, 0));
}

#[test]
fn delimited_streams_say_how_long_they_are() {
    let sizes = |packet: &[u8]| split_streams(packet, 2).map(|split| (split.sizes, split.last));
    // Two frames of one size.
    assert_eq!(sizes(&[0xf9, 2, 1, 2, 3, 4, 0xff]), Some((vec![2, 2], 6)));
    // Two frames of sizes of their own.
    assert_eq!(sizes(&[0xfa, 1, 2, 1, 2, 3, 0xff]), Some((vec![1, 2], 6)));
    // Three frames of one size, with two bytes of padding behind them.
    let padded = [0xfb, 0x43, 2, 1, 1, 2, 3, 0, 0, 0xff];
    assert_eq!(sizes(&padded), Some((vec![1, 1, 1], 9)));
    // Three frames of sizes of their own.
    let varied = [0xfb, 0x83, 0, 1, 2, 1, 2, 3, 0xff];
    assert_eq!(sizes(&varied), Some((vec![0, 1, 2], 8)));
    // A byte of 255 stands for 254 bytes of padding and another count.
    let mut long = vec![0xfb, 0x41, 255, 1, 0];
    long.extend(vec![0u8; 255]);
    assert_eq!(sizes(&long), Some((vec![0], 260)));
    // A size of two bytes.
    let mut large = vec![0xf8, 253, 1];
    large.extend(vec![7u8; 257]);
    assert_eq!(sizes(&large), Some((vec![257], 260)));

    // No first byte, no size, half a size, and fewer bytes than a size says.
    for malformed in [&[][..], &[0xf8], &[0xf8, 252], &[0xf8, 3, 1, 2]] {
        assert_eq!(sizes(malformed), None);
    }
    // No frame count, no frames, and more than 120 ms of them.
    for malformed in [&[0xfb][..], &[0xfb, 0x00, 0], &[0xfb, 0x07, 0]] {
        assert_eq!(sizes(malformed), None);
    }
    // Padding that runs past the packet, or never ends.
    for malformed in [&[0xfb, 0x41, 9, 0][..], &[0xfb, 0x41, 255, 255]] {
        assert_eq!(sizes(malformed), None);
    }
}

#[test]
fn a_lost_packet_is_as_active_as_the_one_before() {
    assert!(activity(None, true).is_dtx());
    assert!(activity(None, false).is_active());
    for in_dtx in [false, true] {
        assert!(activity(Some(&vec![1]), in_dtx).is_dtx());
        assert!(activity(Some(&vec![0, 1, 0]), in_dtx).is_dtx());
        assert!(activity(Some(&vec![0, 2]), in_dtx).is_active());
        assert!(activity(Some(&vec![]), in_dtx).is_active());
    }
}

#[test]
fn pcm_takes_the_default_layout_of_its_channels() {
    let expected = [
        Layout::Mono,
        Layout::Stereo,
        Layout::Discrete(3),
        Layout::Quad,
        Layout::FivePointZero,
        Layout::FivePointOne,
        Layout::SixPointOne,
        Layout::SevenPointOne,
        Layout::Discrete(9),
    ];
    for (channels, layout) in (1..).zip(expected) {
        let (decoder, _) = open(catalog(TrackCodec::Pcm, 48_000, channels)).unwrap();
        assert_eq!(decoder.layout(), layout);
    }
}

#[test]
fn other_families_are_refused() {
    for (family, channels, table) in [(255u8, 2u8, &[2, 0, 0, 1][..]), (2, 4, &[4, 0, 0, 1, 2, 3])] {
        let mut head = Head::new(48_000, 2, 0).encode();
        head[9] = channels;
        head[18] = family;
        head.extend_from_slice(table);

        let err = opus::open(&described(head, channels.into())).unwrap_err();
        assert!(
            matches!(&err, Error::Unsupported(message) if message.contains("no speaker positions")),
            "family {family}: {err:?}"
        );
    }
}

#[test]
fn a_plain_stream_is_one_stream_coupled_when_stereo() {
    let stereo = plan(Head::new(24_000, 2, 312)).unwrap();
    assert_eq!((stereo.streams, stereo.coupled), (1, 1));
    assert_eq!(stereo.table, vec![0, 1]);
    assert_eq!(stereo.layout, Layout::Stereo);
    // The pre-skip counts at 48 kHz whatever rate the decoder runs at.
    assert_eq!(stereo.delay, 156);
    assert_eq!(stereo.max_frame_size, 2_880);
    let mono = plan(Head::new(48_000, 1, 0)).unwrap();
    assert_eq!((mono.streams, mono.coupled), (1, 0));
    assert!(matches!(
        plan(Head::new(44_100, 1, 0)),
        Err(Error::Unsupported(_))
    ));
    assert!(matches!(
        plan(Head::new(48_000, 3, 0)),
        Err(Error::Unsupported(_))
    ));
}

#[test]
fn the_clock_moves_by_whole_samples() {
    let start = Timestamp::from_micros(1_000);
    let end = advance(start, 960, 48_000).unwrap();
    assert_eq!(end, Timestamp::from_micros(21_000));
    assert_eq!(rewind(end, 960, 48_000).unwrap(), start);
    assert_eq!(rewind(start, 960, 48_000), Ok(Timestamp::from_micros(0)));
    assert_eq!(
        advance(Timestamp::from_micros(u64::MAX), 960, 48_000),
        Err(Error::TimeOverflow)
    );
    assert_eq!(frames_between(start, end, 48_000), Ok(960));
    assert_eq!(frames_between(end, start, 48_000), Err(Error::TimeOverflow));
}

/// The tolerance can't come from a frame duration: a lost 2.5 ms packet after a
/// 20 ms one is still a gap.
#[test]
fn a_lost_short_packet_is_a_gap_and_rounding_is_not() {
    let at = Timestamp::from_micros;
    assert!(discontinuous(at(20_000), at(22_500)));
    assert!(!discontinuous(at(20_000), at(21_000)));
    assert!(!discontinuous(at(23_220), at(23_000)));

    // What an FLV ingest sends: each 1024-sample packet stamped in whole milliseconds.
    for packet in 1..32u64 {
        let ends = advance(
            Timestamp::from_millis((packet - 1) * 1024 * 1_000 / 44_100),
            1024,
            44_100,
        )
        .unwrap();
        let next = Timestamp::from_millis(packet * 1024 * 1_000 / 44_100);
        assert!(!discontinuous(ends, next), "packet {packet}");
    }
}

/// Feed one packet through a timeline that resamples nothing.
fn feed(consumer: &mut Consumer<u8>, timestamp: Timestamp, trimmed: usize, samples: Vec<u8>) {
    let Some(placed) = consumer.packet(timestamp, trimmed, samples).unwrap() else {
        return;
    };
    consumer
        .deliver(
            placed.at,
            placed.frames,
            Activity::Active,
            Resampled {
                pcm: placed.samples,
                pending: 0,
                skipped: 0,
            },
        )
        .unwrap();
}

fn read(consumer: &mut Consumer<u8>) -> Vec<(u128, usize)> {
    let mut out = Vec::new();
    while let Some(Output { pcm, timestamp, .. }) = consumer.pop() {
        out.push((timestamp.as_scale(1_000_000), pcm.len()));
    }
    out
}

#[test]
fn pre_skip_does_not_leave_a_timestamp_hole() {
    let mut consumer: Consumer<u8> = Consumer::new(48_000, 1, None);
    // The first packet lost 312 frames to startup delay.
    feed(&mut consumer, Timestamp::from_micros(0), 312, vec![0; 648]);
    assert!(!consumer.misses(Timestamp::from_micros(20_000)));
    feed(&mut consumer, Timestamp::from_micros(20_000), 0, vec![0; 960]);
    assert_eq!(read(&mut consumer), vec![(0, 648), (13_500, 960)]);
}

#[test]
fn a_missing_packet_starts_over() {
    let mut consumer: Consumer<u8> = Consumer::new(48_000, 1, None);
    feed(&mut consumer, Timestamp::from_micros(0), 0, vec![0; 960]);
    assert!(consumer.misses(Timestamp::from_micros(22_500)));
    consumer.gap(None).unwrap();
    feed(&mut consumer, Timestamp::from_micros(22_500), 0, vec![0; 960]);
    assert!(!consumer.misses(Timestamp::from_micros(42_500)));
    assert_eq!(read(&mut consumer), vec![(0, 960), (22_500, 960)]);
}

#[test]
fn resampled_output_reaches_back_over_what_was_held() {
    let mut consumer: Consumer<u8> = Consumer::new(48_000, 1, Some(24_000));
    assert_eq!(consumer.chunk_frames(), 960);
    let placed = consumer
        .packet(Timestamp::from_micros(20_000), 0, vec![0; 960])
        .unwrap()
        .unwrap();
    assert_eq!(placed.frames, 960);
    // 480 frames at 48 kHz were held from before, and 240 of output were dropped.
    consumer
        .deliver(
            placed.at,
            placed.frames,
            Activity::Dtx,
            Resampled {
                pcm: vec![0; 480],
                pending: 480,
                skipped: 0,
            },
        )
        .unwrap();
    let out = consumer.pop().unwrap();
    assert_eq!(out.timestamp, Timestamp::from_micros(10_000));
    assert_eq!(out.activity, Activity::Dtx);

    let tail = consumer
        .flush(Some(Resampled {
            pcm: vec![0; 24],
            pending: 48,
            skipped: 0,
        }))
        .unwrap()
        .unwrap();
    assert_eq!(tail.timestamp, Timestamp::from_micros(39_000));
    assert_eq!(tail.pcm.len(), 24);
}

#[test]
fn the_end_of_a_track_is_final() {
    let held = || {
        Some(Resampled {
            pcm: vec![7u8; 24],
            pending: 0,
            skipped: 0,
        })
    };
    let mut consumer: Consumer<u8> = Consumer::new(48_000, 1, Some(24_000));
    let placed = consumer
        .packet(Timestamp::from_micros(0), 0, vec![0; 960])
        .unwrap()
        .unwrap();
    let out = |pcm| Resampled {
        pcm,
        pending: 0,
        skipped: 0,
    };
    consumer
        .deliver(placed.at, placed.frames, Activity::Active, out(Vec::new()))
        .unwrap();
    assert!(consumer.pop().is_none(), "no empty output waits");
    consumer
        .deliver(placed.at, placed.frames, Activity::Active, out(vec![0; 480]))
        .unwrap();

    // What waits, then the tail, and then nothing.
    assert_eq!(consumer.pop().unwrap().pcm.len(), 480);
    assert!(consumer.pop().is_none());
    assert_eq!(consumer.flush(held()).unwrap().unwrap().pcm.len(), 24);
    for _ in 0..3 {
        assert!(consumer.pop().is_none());
        consumer.apply_discontinuity(0);
        assert_eq!(consumer.flush(held()), Ok(None));
    }

    // Nothing was held, so the end comes at once.
    let mut consumer: Consumer<u8> = Consumer::new(48_000, 1, Some(24_000));
    assert_eq!(consumer.flush(Some(out(Vec::new()))), Ok(None));
    assert_eq!(consumer.flush(held()), Ok(None));
}

#[test]
fn nothing_is_kept_past_the_end() {
    let mut consumer: Consumer<u8> = Consumer::new(48_000, 1, None);
    consumer.mark_end(Some(Timestamp::from_micros(25_000)));
    feed(&mut consumer, Timestamp::from_micros(0), 0, vec![0; 960]);
    feed(&mut consumer, Timestamp::from_micros(20_000), 0, vec![0; 960]);
    feed(&mut consumer, Timestamp::from_micros(40_000), 0, vec![0; 960]);
    assert_eq!(read(&mut consumer), vec![(0, 960), (20_000, 240)]);
}

#[test]
fn a_discontinuity_is_applied_once() {
    let mut consumer: Consumer<u8> = Consumer::new(48_000, 1, None);
    assert!(!consumer.apply_discontinuity(0));
    feed(&mut consumer, Timestamp::from_micros(0), 0, vec![0; 960]);
    assert!(consumer.apply_discontinuity(1));
    assert!(!consumer.apply_discontinuity(1));
    assert!(!consumer.misses(Timestamp::from_micros(900_000)));
}

/// A description that is present but truncated used to be dropped, and a
/// stereo catalog then opened a family 0 decoder for a family 1 or 255 head.
#[test]
fn malformed_description_is_refused() {
    for family in [1u8, 255] {
        let mut head = Head::new(48_000, 2, 0).encode();
        head[18] = family;
        let err = opus::open(&described(head, 2)).err().expect("refused");
        assert!(
            matches!(&err, Error::Unsupported(message) if message.contains("opus description")),
            "family {family}: {err:?}"
        );
    }

    let plain = catalog(TrackCodec::Opus, 48_000, 2);
    assert!(opus::open(&plain).is_ok());
}

#[test]
fn max_age_is_clamped_to_publisher_retention() {
    let retained = Duration::from_millis(100);
    assert_eq!(max_age(Duration::from_millis(500), retained), retained);
    assert_eq!(max_age(Duration::from_millis(20), retained), Duration::from_millis(20));
}
