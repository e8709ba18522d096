use moq_media::audio::activity::Activity;
use moq_media::audio::codec::head::Head;
use moq_media::audio::decode::decoder::{
    decode_pcm, Backend, Catalog, Config, Decoder, TrackCodec,
};
use moq_media::audio::encode::encoded::Encoded;
use moq_media::audio::encode::encoder::{
    bitrate_floor, check_bitrate, frame_size, pad, Codec, Drain, Encoder, Finish, Input, Preset,
    Settings,
};
use moq_media::audio::encode::producer::{
    resample_chunk, track_name, Producer, Terminal, TrackName,
};
use moq_media::audio::error::Error;
use moq_media::audio::format::AudioFormat;
use moq_media::audio::layout::Layout;
use moq_media::time::Duration;

/// The startup delay libopus reports at 48 kHz.
const LOOKAHEAD: i32 = 312;

fn opus(settings: Settings) -> Result<Encoder, Error> {
    let bitrate = settings.bitrate.unwrap_or(96_000) as i32;
    Encoder::new_opus(settings, bitrate, LOOKAHEAD)
}

/// Finish with one packet for each frame that draining encodes.
fn finished(drain: &Drain) -> Finish {
    let packets = drain.silent_packets + drain.partial as usize;
    Finish::new(drain, (0..packets).map(|_| Encoded::new(vec![0])).collect())
}

fn pcm(settings: Settings) -> Result<Encoder, Error> {
    let mut settings = settings;
    settings.codec = Codec::Pcm;
    Encoder::new_pcm(settings)
}

#[test]
fn codec_roundtrips_as_str() {
    assert_eq!(Codec::Opus.as_str(), "opus");
    assert_eq!(Codec::Opus.to_string(), "opus");
    assert_eq!("opus".parse::<Codec>().unwrap(), Codec::Opus);
    assert_eq!(Codec::Pcm.as_str(), "pcm");
    assert_eq!(Codec::Pcm.to_string(), "pcm");
    assert_eq!("pcm".parse::<Codec>().unwrap(), Codec::Pcm);
    assert!("aac".parse::<Codec>().is_err());
}

#[test]
fn encoder_opus_rejects_unsupported_frame_duration() {
    let mut settings = Settings::default();
    settings.frame_duration = Duration::from_millis(15);
    assert!(matches!(opus(settings), Err(Error::Unsupported(_))));
}

/// A preset has to reach the codec as its packet duration and leave everything else alone.
#[test]
fn preset_sets_the_packet_duration_and_keeps_the_rest() {
    for (preset, samples) in [
        (Preset::LowLatency, 480),
        (Preset::Balanced, 960),
        (Preset::Quality, 960),
    ] {
        let mut settings = Settings::default();
        settings.bitrate = Some(96_000);
        settings.layout = Layout::Mono;
        let encoder = opus(settings.with_preset(preset)).unwrap();
        assert_eq!(encoder.settings().layout, Layout::Mono);
        assert_eq!(encoder.bitrate(), 96_000);
        assert_eq!(encoder.frame_size(), samples);
    }
    assert_eq!(Preset::default(), Preset::LowLatency);
    assert_eq!(Preset::Quality.frame_duration(), Duration::from_millis(20));
}

#[test]
fn encoder_opus_rejects_misaligned_input() {
    let mut encoder = opus(Settings::default()).unwrap();
    assert!(matches!(encoder.encode(100), Err(Error::Misaligned { .. })));
    assert!(!encoder.started());
    assert_eq!(encoder.encode(1_920), Ok(()));
    assert!(encoder.started());
}

#[test]
fn opus_catalog_includes_opushead() {
    let mut settings = Settings::default();
    settings.bitrate = Some(64_000);
    let encoder = opus(settings).unwrap();
    let cfg = encoder.catalog();
    assert_eq!(cfg.sample_rate, 48_000);
    assert_eq!(cfg.channel_count, 2);
    assert_eq!(cfg.bitrate, Some(64_000));
    let desc = cfg.description.expect("OpusHead should be present");
    assert_eq!(desc.len(), 19);
    let head = Head::parse(&desc).unwrap();
    assert_eq!(head.pre_skip, encoder.pre_skip());
    assert_eq!(head.pre_skip, 312);
}

#[test]
fn opus_decoder_trims_encoder_lookahead_once() {
    let encoder = opus(Settings::default()).unwrap();
    let catalog = encoder.catalog();
    let (mut decoder, _) = Decoder::new(
        Catalog {
            codec: TrackCodec::Opus,
            sample_rate: catalog.sample_rate,
            channel_count: catalog.channel_count,
            bitrate: catalog.bitrate,
            description: catalog.description,
        },
        &Config::default(),
    )
    .unwrap();
    let channels = encoder.codec_channels() as usize;
    let frame = vec![0.0f32; encoder.frame_size() * channels];

    let first = decoder.decode(&frame, channels, Activity::Active);
    assert_eq!(
        first.samples.len(),
        (encoder.frame_size() - encoder.pre_skip() as usize) * channels
    );

    let second = decoder.decode(&frame, channels, Activity::Active);
    assert_eq!(second.samples.len(), frame.len());
}

#[test]
fn opus_finish_accounts_for_partial_frame_padding() {
    let mut encoder = opus(Settings::new(48_000, Layout::Mono)).unwrap();

    // The 360 frames of terminal padding exceed the 312-frame lookahead,
    // so the partial packet itself completes the drain.
    let drain = encoder.drain(600).unwrap();
    assert!(drain.partial);
    assert_eq!(drain.padding, 360);
    assert_eq!(drain.silent_packets, 0);
    let finish = finished(&drain);
    assert_eq!(finish.packets().len(), 1);
    assert_eq!(finish.discard_padding(), 48);
}

#[test]
fn opus_finish_drains_lookahead_across_multiple_short_packets() {
    let mut settings = Settings::new(48_000, Layout::Mono);
    settings.frame_duration = Duration::from_micros(2_500);
    let mut encoder = opus(settings).unwrap();
    encoder.encode(encoder.frame_size()).unwrap();

    // Three 120-frame packets are required to push out 312 frames.
    let drain = encoder.drain(0).unwrap();
    assert!(!drain.partial);
    let finish = finished(&drain);
    assert_eq!(finish.packets().len(), 3);
    assert_eq!(finish.discard_padding(), 48);
}

#[test]
fn reset_drops_pending_opus_lookahead() {
    let mut encoder = opus(Settings::new(48_000, Layout::Mono)).unwrap();
    encoder.encode(encoder.frame_size()).unwrap();

    encoder.reset();
    let drain = encoder.drain(0).unwrap();
    assert!(!drain.partial);
    let finish = finished(&drain);
    assert!(finish.packets().is_empty());
    assert_eq!(finish.discard_padding(), 0);
}

#[test]
fn opus_runtime_bitrate_updates_encoder_state() {
    let mut settings = Settings::default();
    settings.bitrate = Some(64_000);
    let mut encoder = opus(settings).unwrap();

    assert_eq!(encoder.set_bitrate(32_000), Ok(true));
    assert_eq!(encoder.bitrate(), 32_000);
    assert_eq!(encoder.settings().bitrate, Some(32_000));
    assert_eq!(encoder.set_bitrate(32_000), Ok(false), "nothing to tell the codec");
}

#[test]
fn opus_runtime_bitrate_rejects_values_libopus_would_clamp() {
    let mut encoder = opus(Settings::default()).unwrap();
    let original = encoder.bitrate();
    assert!(encoder.set_bitrate(1).is_err());
    assert!(encoder.set_bitrate(600_001).is_err());
    assert_eq!(encoder.bitrate(), original);
    assert_eq!(check_bitrate(2, 48_000, 960, 600_000), Ok(()));
    assert_eq!(
        check_bitrate(1, 48_000, 960, 1_199),
        Err(Error::Unsupported(
            "Opus bitrate must be between 1200 and 300000 bits per second for 1 channel(s) at 960 \
             samples, got 1199"
                .to_string()
        ))
    );
}

#[test]
fn settings_fix_the_codec_rate() {
    // 24 kHz frames of lookahead count double at 48 kHz.
    let settings = Settings::new(24_000, Layout::Mono);
    let encoder = Encoder::new_opus(settings, 64_000, 156).unwrap();
    assert_eq!(encoder.codec_rate(), 24_000);
    assert_eq!(encoder.catalog().sample_rate, 24_000);
    assert_eq!(encoder.pre_skip(), 312);
}

#[test]
fn pcm_roundtrip_is_lossless() {
    let mut encoder = pcm(Settings::default()).unwrap();
    let frames = encoder.frame_size();
    let input: Vec<f32> = (0..frames)
        .flat_map(|i| {
            let t = i as f32 / 48_000.0;
            let v = (2.0 * std::f32::consts::PI * 440.0 * t).sin() * 0.5;
            [v, v]
        })
        .collect();
    encoder.encode(input.len()).unwrap();
    let words: Vec<u32> = input.iter().map(|s| s.to_bits()).collect();
    let packet = AudioFormat::F32
        .from_interleaved_words(&words, encoder.codec_channels())
        .unwrap();
    let output = decode_pcm(&packet, 8).unwrap();
    let output: Vec<f32> = output.into_iter().map(f32::from_bits).collect();

    assert_eq!(output, input);
}

#[test]
fn pcm_catalog_declares_fixed_bitrate() {
    let encoder = pcm(Settings::default()).unwrap();
    let catalog = encoder.catalog();

    assert_eq!(encoder.codec(), Codec::Pcm);
    assert_eq!(catalog.bitrate, Some(48_000 * 2 * 32));
    assert_eq!(catalog.description, None);
}

#[test]
fn pcm_rejects_runtime_bitrate_change() {
    let mut encoder = pcm(Settings::default()).unwrap();
    let bitrate = encoder.bitrate();

    assert!(matches!(
        encoder.set_bitrate(bitrate),
        Err(Error::Unsupported(_))
    ));
    assert_eq!(encoder.bitrate(), bitrate);
}

#[test]
fn pcm_rejects_fractional_sample_frame_duration() {
    let mut settings = Settings::new(44_100, Layout::Stereo);
    settings.frame_duration = Duration::from_micros(2_500);
    assert!(matches!(pcm(settings), Err(Error::Unsupported(_))));
}

#[test]
fn pcm_rejects_bitrate_overflow() {
    let mut settings = Settings::new(u32::MAX, Layout::Discrete(u32::MAX));
    settings.frame_duration = Duration::from_secs(1);
    assert!(matches!(pcm(settings), Err(Error::Unsupported(_))));
}

#[test]
fn pcm_rejects_opus_only_settings() {
    let mut settings = Settings::default();
    settings.dtx = true;
    assert!(matches!(pcm(settings), Err(Error::Unsupported(_))));
    let mut settings = Settings::default();
    settings.bitrate = Some(1);
    assert!(matches!(pcm(settings), Err(Error::Unsupported(_))));
}

#[test]
fn pcm_preserves_discrete_multichannel_layout() {
    let encoder = pcm(Settings::new(48_000, Layout::Discrete(3))).unwrap();
    let catalog = encoder.catalog();
    let (decoder, backend) = Decoder::new(
        Catalog {
            codec: TrackCodec::Pcm,
            sample_rate: catalog.sample_rate,
            channel_count: catalog.channel_count,
            bitrate: catalog.bitrate,
            description: catalog.description,
        },
        &Config::default(),
    )
    .unwrap();
    assert_eq!(decoder.sample_rate(), 48_000);
    assert_eq!(decoder.layout(), Layout::Discrete(3));
    let Backend::Pcm { bytes_per_frame } = backend else {
        panic!("expected PCM");
    };
    let input = [0.1f32, 0.2, 0.3].repeat(encoder.frame_size());
    let words: Vec<u32> = input.iter().map(|s| s.to_bits()).collect();
    let packet = AudioFormat::F32.from_interleaved_words(&words, 3).unwrap();
    assert_eq!(decode_pcm(&packet, bytes_per_frame), Ok(words));
}

#[test]
fn opus_refuses_discrete_layout() {
    let settings = Settings::new(48_000, Layout::Discrete(2));
    assert!(matches!(opus(settings), Err(Error::Unsupported(_))));
}

#[test]
fn opus_refuses_what_a_codec_could_not_report() {
    let settings = Settings::default();
    assert_eq!(
        Encoder::new_opus(settings, -1, 0).unwrap_err(),
        Error::Unsupported("Opus reported negative bitrate -1".to_string())
    );
    assert_eq!(
        Encoder::new_opus(settings, 1, -2).unwrap_err(),
        Error::Unsupported("Opus reported negative lookahead -2".to_string())
    );
    assert_eq!(
        Encoder::new_opus(settings, 1, 65_536).unwrap_err(),
        Error::Unsupported("Opus lookahead 65536 does not fit in OpusHead".to_string())
    );
}

#[test]
fn a_drain_refuses_partial_channels() {
    let mut encoder = opus(Settings::default()).unwrap();
    assert_eq!(
        encoder.drain(3),
        Err(Error::Misaligned {
            got: 12,
            expected: 16
        })
    );
    assert_eq!(
        encoder.drain(1_922),
        Err(Error::Misaligned {
            got: 7_688,
            expected: 7_680
        })
    );
}

#[test]
fn settings_follow_the_input() {
    let input = Input::new(44_100, Layout::Mono);
    assert_eq!(input.format, AudioFormat::F32);
    let settings = Settings::from_input(Codec::Opus, &input);
    assert_eq!((settings.sample_rate, settings.layout), (48_000, Layout::Mono));
    let settings = Settings::from_input(Codec::Pcm, &input);
    assert_eq!(settings.sample_rate, 44_100);
    assert_eq!(settings.codec, Codec::Pcm);
    assert_eq!(frame_size(&Settings::default()), Ok(960));
    assert_eq!(pad(&vec![1, 2], 0, 4), vec![1, 2, 0, 0]);
    assert_eq!(Encoded::new(vec![1]).activity, Activity::Active);
}

fn producer() -> Producer<u8> {
    Producer::new(48_000, 1, 960)
}

/// Write `samples` and publish what became whole: the PTS of each packet.
fn write(producer: &mut Producer<u8>, samples: usize, timestamp_us: u64) -> Vec<u64> {
    if producer.begin().unwrap() {
        producer.marked();
    }
    producer.anchor(timestamp_us);
    producer.push(&vec![0; samples]);
    let mut stamps = Vec::new();
    while let Some(frame) = producer.next_frame() {
        assert_eq!(frame.len(), 960);
        assert!(producer.reaches(960));
        stamps.push(producer.publish(Activity::Active));
        producer.published();
    }
    stamps
}

#[test]
fn epoch_anchors_to_first_frame_timestamp() {
    let mut producer = producer();
    assert_eq!(write(&mut producer, 960, 1_000_000), vec![1_000_000]);
}

#[test]
fn pts_advances_by_frame_duration_ignoring_later_timestamps() {
    let mut producer = producer();
    assert_eq!(write(&mut producer, 960, 1_000), vec![1_000]);
    assert_eq!(write(&mut producer, 960, 999_999), vec![1_000 + 20_000]);
    assert_eq!(write(&mut producer, 2 * 960 + 10, 0), vec![41_000, 61_000]);
    assert_eq!(producer.pending().len(), 10, "a partial frame is carried over");
}

#[test]
fn reset_epoch_reanchors_so_the_gap_lands_in_pts() {
    let mut producer = producer();
    assert_eq!(write(&mut producer, 970, 0), vec![0]);
    producer.reset_epoch(true);
    assert!(producer.pending().is_empty(), "buffered samples are dropped");
    assert_eq!(producer.begin(), Ok(true), "a marker is owed");
    assert_eq!(producer.begin(), Ok(true), "it stays owed until it is published");
    assert_eq!(write(&mut producer, 960, 5_000_000), vec![5_000_000]);
    assert_eq!(producer.begin(), Ok(false));
}

#[test]
fn a_reset_without_packets_owes_no_marker() {
    let mut producer = producer();
    producer.anchor(0);
    producer.reset_epoch(false);
    assert_eq!(producer.begin(), Ok(false));
    write(&mut producer, 960, 1);
    producer.discontinuity();
    assert_eq!(producer.begin(), Ok(false), "the marker was just published");
    producer.reset_epoch(true);
    assert_eq!(producer.begin(), Ok(false), "nothing was published since");
}

#[test]
fn write_after_finish_is_closed() {
    let mut producer = producer();
    write(&mut producer, 960, 0);
    producer.finish();
    assert!(producer.finished());
    assert_eq!(producer.begin(), Err(Error::Net("closed".to_string())));
}

#[test]
fn default_options_derive_the_track_name() {
    assert!(matches!(track_name(&None, Codec::Opus), TrackName::Suffix(s) if s == ".opus"));
    assert!(
        matches!(track_name(&Some("mic".to_string()), Codec::Opus), TrackName::Given(s) if s == "mic")
    );
}

#[test]
fn the_end_of_the_track_is_where_its_source_ends() {
    let mut encoder = opus(Settings::new(48_000, Layout::Mono)).unwrap();
    let mut producer = producer();
    write(&mut producer, 960 + 860, 1_000_000);
    let drain = encoder.drain(producer.pending().len()).unwrap();
    let terminal = producer.terminal(&drain);
    assert_eq!(
        terminal,
        Terminal {
            start_us: 1_020_000,
            end_us: 1_020_000 + 860 * 1_000_000 / 48_000,
            marked: true
        }
    );
    assert_eq!(producer.terminal_stamp(terminal.start_us, 1), Ok(1_040_000));
    assert_eq!(producer.activity(), Activity::Active);
}

#[test]
fn the_resampler_takes_one_codec_frame_at_a_time() {
    // 2.5 ms does not truncate to 2 ms.
    assert_eq!(
        resample_chunk(44_100, 48_000, Duration::from_micros(2_500)),
        Some(110)
    );
    assert_eq!(
        resample_chunk(44_100, 48_000, Duration::from_millis(20)),
        Some(882)
    );
    assert_eq!(resample_chunk(48_000, 48_000, Duration::from_millis(20)), None);
}

#[test]
fn finishing_hands_out_what_was_drained() {
    let mut encoder = opus(Settings::new(48_000, Layout::Mono)).unwrap();
    let drain = encoder.drain(600).unwrap();
    let finish = Finish::new(&drain, vec![Encoded::new(vec![1, 2, 3])]);
    assert_eq!(finish.packets().len(), 1);
    assert_eq!(finish.discard_padding(), 48);
    assert_eq!(finish.into_packets()[0].payload, vec![1, 2, 3]);
}

#[test]
fn a_packet_that_was_not_published_leaves_the_boundary() {
    let mut producer = producer();
    producer.anchor(0);
    producer.push(&vec![0; 960]);
    assert!(producer.next_frame().is_some());
    producer.publish(Activity::Dtx);
    assert_eq!(producer.activity(), Activity::Dtx);
    producer.reset_epoch(true);
    assert_eq!(producer.begin(), Ok(false), "no packet reached the track");
}

#[test]
fn a_timeline_that_runs_out_says_so() {
    let mut producer = producer();
    producer.anchor(u64::MAX - 20_000);
    assert!(producer.reaches(960));
    assert_eq!(producer.publish(Activity::Active), u64::MAX - 20_000);
    assert_eq!(producer.next_timestamp(), u64::MAX);
    assert!(!producer.reaches(960));
    assert_eq!(producer.terminal_stamp(u64::MAX, 1), Err(Error::TimeOverflow));
}

#[test]
fn very_long_frames_are_unsupported() {
    let forever = Duration { nanos: u128::MAX };
    let mut settings = Settings::new(48_000, Layout::Mono);
    settings.frame_duration = forever;
    assert!(matches!(opus(settings), Err(Error::Unsupported(_))));
    settings.codec = Codec::Pcm;
    assert!(matches!(Encoder::new_pcm(settings), Err(Error::Unsupported(_))));
}

#[test]
fn a_codec_that_reports_nonsense_is_refused() {
    let settings = Settings::new(48_000, Layout::Mono);
    assert_eq!(
        Encoder::new_opus(settings, i32::MIN, 0).unwrap_err(),
        Error::Unsupported("Opus reported negative bitrate -2147483648".to_string())
    );
    assert_eq!(
        Encoder::new_opus(settings, 64_000, i32::MIN).unwrap_err(),
        Error::Unsupported("Opus reported negative lookahead -2147483648".to_string())
    );
}

#[test]
fn the_bitrate_floor_follows_the_frame_duration() {
    assert_eq!(bitrate_floor(48_000, 960), 1_200, "20 ms");
    assert_eq!(bitrate_floor(48_000, 480), 2_400, "10 ms");
    assert_eq!(bitrate_floor(48_000, 120), 9_600, "2.5 ms");
    assert_eq!(bitrate_floor(48_000, 1_920), 2_400, "40 ms");
    assert_eq!(bitrate_floor(48_000, 2_880), 2_400, "60 ms");
}
