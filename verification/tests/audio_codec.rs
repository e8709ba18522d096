use moq_media::audio::aac::{description, validate, Catalog, Config};
use moq_media::audio::activity::Activity;
use moq_media::audio::codec::config::{
    frame_size_for, pick_opus_rate, resolve_output, AudioConsumer, DecoderConfig, Encoder,
    EncoderConfig,
};
use moq_media::audio::codec::head::{Head, Mapping};
use moq_media::audio::codec::opus::{channels_for, Channels, OpusDecoder, OpusEncoder, Rendition};
use moq_media::audio::error::Error;
use moq_media::audio::format::AudioFormat;
use moq_media::audio::frame::Frame;
use moq_media::audio::layout::{Layout, Speaker};
use moq_media::audio::pcm;
use moq_media::time::{Duration, Timestamp};

fn encoder_config() -> EncoderConfig {
    EncoderConfig::default()
}

#[test]
fn rate_picker_snaps_up() {
    assert_eq!(pick_opus_rate(44_100), 48_000);
    assert_eq!(pick_opus_rate(22_050), 24_000);
    for &r in &[8_000, 12_000, 16_000, 24_000, 48_000] {
        assert_eq!(pick_opus_rate(r), r);
    }
}

#[test]
fn rates_above_the_highest_snap_down() {
    assert_eq!(pick_opus_rate(96_000), 48_000);
    assert_eq!(pick_opus_rate(0), 8_000);
}

#[test]
fn opus_rejects_unsupported_sample_rate() {
    assert!(matches!(
        OpusEncoder::new(44_100, 2, None),
        Err(Error::Unsupported(_))
    ));
}

#[test]
fn codec_opus_rejects_unsupported_frame_duration() {
    let mut config = encoder_config();
    config.frame_duration = Duration::from_millis(15);
    assert!(matches!(Encoder::new(config), Err(Error::Unsupported(_))));
}

#[test]
fn every_opus_frame_duration_is_accepted() {
    for (micros, frames) in [
        (2_500, 120),
        (5_000, 240),
        (10_000, 480),
        (20_000, 960),
        (40_000, 1_920),
        (60_000, 2_880),
    ] {
        assert_eq!(
            frame_size_for(48_000, Duration::from_micros(micros)),
            Ok(frames)
        );
    }
    assert_eq!(
        frame_size_for(48_000, Duration::from_millis(15)),
        Err(Error::Unsupported(
            "opus frame duration must be 2.5/5/10/20/40/60 ms (got 15000 us)".to_string()
        ))
    );
    // The durations are exact: a nanosecond more is another one.
    assert_eq!(
        frame_size_for(48_000, Duration { nanos: 20_000_001 }),
        Err(Error::Unsupported(
            "opus frame duration must be 2.5/5/10/20/40/60 ms (got 20000 us)".to_string()
        ))
    );
}

#[test]
fn codec_opus_rejects_misaligned_input() {
    let encoder = Encoder::new(encoder_config()).unwrap();
    assert!(matches!(
        encoder.check_input(100),
        Err(Error::Misaligned { .. })
    ));
    let frame = encoder.frame_size() * encoder.config().input_channels as usize;
    assert_eq!(encoder.check_input(frame), Ok(()));
}

#[test]
fn opus_opus_rejects_misaligned_input() {
    let encoder = OpusEncoder::new(48_000, 2, None).unwrap();
    // frame_size = 960 frames * 2 channels = 1920 samples
    assert_eq!(
        encoder.check_input(100),
        Err(Error::Misaligned {
            got: 400,
            expected: 7_680
        })
    );
    assert_eq!(encoder.check_input(1920), Ok(()));
}

#[test]
fn codec_opus_config_includes_opushead() {
    let mut config = encoder_config();
    config.input_sample_rate = 48_000;
    config.input_channels = 2;
    config.bitrate = Some(64_000);
    let encoder = Encoder::new(config).unwrap();
    let cfg = encoder.catalog_config();
    assert_eq!(cfg.sample_rate, 48_000);
    assert_eq!(cfg.channel_count, 2);
    assert_eq!(cfg.bitrate, Some(64_000));
    let desc = cfg.description.expect("OpusHead should be present");
    assert_eq!(desc.len(), 19);
}

#[test]
fn opus_opus_config_includes_opushead() {
    let encoder = OpusEncoder::new(48_000, 2, Some(64_000)).unwrap();
    let cfg = encoder.config();
    assert_eq!(cfg.sample_rate, 48_000);
    assert_eq!(cfg.channel_count, 2);
    assert_eq!(cfg.bitrate, Some(64_000));
    let desc = cfg.description.expect("OpusHead should be present");
    // A 19-byte OpusHead.
    assert_eq!(desc.len(), 19);
    let parsed = Head::parse(&desc).unwrap();
    assert_eq!(parsed.sample_rate, 48_000);
    assert_eq!(parsed.channel_count, 2);
}

#[test]
fn a_header_is_spelled_byte_by_byte() {
    let mut head = Head::new(48_000, 2, 312);
    head.output_gain = -1541;
    let bytes = head.encode();
    assert_eq!(
        bytes,
        vec![
            b'O', b'p', b'u', b's', b'H', b'e', b'a', b'd', 1, 2, 0x38, 0x01, 0x80, 0xbb, 0, 0,
            0xfb, 0xf9, 0
        ]
    );
    assert_eq!(Head::parse(&bytes), Some(head));
}

#[test]
fn a_mapped_header_roundtrips() {
    let mut head = Head::new(0xdead_beef, 3, 0xffff);
    head.mapping = Some(Mapping {
        family: 1,
        streams: 2,
        coupled: 1,
        table: vec![0, 2, 1],
    });
    let bytes = head.encode();
    assert_eq!(bytes.len(), 24);
    assert_eq!(Head::parse(&bytes), Some(head));
    assert_eq!(Head::parse(&bytes[..23]), None, "the table is short");
}

#[test]
fn channels_are_mono_or_stereo() {
    assert_eq!(channels_for(1), Ok(Channels::Mono));
    assert_eq!(channels_for(2), Ok(Channels::Stereo));
    assert_eq!(
        channels_for(3),
        Err(Error::Unsupported(
            "opus only supports 1 or 2 channels (got 3)".to_string()
        ))
    );
}

#[test]
fn a_decoder_prefers_the_header() {
    let rendition = Rendition {
        sample_rate: 24_000,
        channel_count: 1,
        bitrate: None,
        description: Some(Head::new(48_000, 2, 0).encode()),
    };
    let decoder = OpusDecoder::from_config(&rendition).unwrap();
    assert_eq!(decoder.sample_rate(), 48_000);
    assert_eq!(decoder.channel_count(), 2);
    assert_eq!(decoder.max_frame_size(), 5_760);

    let malformed = Rendition {
        description: Some(vec![1, 2, 3]),
        ..rendition
    };
    let decoder = OpusDecoder::from_config(&malformed).unwrap();
    assert_eq!(decoder.sample_rate(), 24_000);
    assert_eq!(decoder.channel_count(), 1);
}

#[test]
fn output_is_resolved_against_the_codec() {
    let mut config = DecoderConfig {
        output_format: AudioFormat::F32,
        output_sample_rate: None,
        output_channels: None,
    };
    assert_eq!(resolve_output(&config, 48_000, 2), Ok((48_000, 2)));
    config.output_sample_rate = Some(16_000);
    assert_eq!(resolve_output(&config, 48_000, 2), Ok((16_000, 2)));
    config.output_channels = Some(1);
    assert_eq!(
        resolve_output(&config, 48_000, 2),
        Err(Error::Unsupported(
            "channel remapping not implemented (decoder 2ch, requested 1ch)".to_string()
        ))
    );
}

#[test]
fn counts_map_to_the_wave_defaults() {
    let expected = [
        Layout::Mono,
        Layout::Stereo,
        Layout::TwoPointOne,
        Layout::Quad,
        Layout::FivePointZero,
        Layout::FivePointOne,
        Layout::SixPointOne,
        Layout::SevenPointOne,
    ];
    for (count, layout) in (1..).zip(expected) {
        assert_eq!(Layout::from_channels(count).unwrap(), layout);
        assert_eq!(layout.channels(), count);
    }

    assert_eq!(Layout::from_channels(9).unwrap(), Layout::Discrete(9));
    assert!(Layout::from_channels(0).is_err());
}

/// Canonical order is the WAVE bit order, so every layout's speakers must
/// ascend through [`Speaker`]'s declaration order without repeating.
#[test]
fn speakers_follow_the_canonical_order() {
    let layouts = [
        Layout::Mono,
        Layout::Stereo,
        Layout::TwoPointOne,
        Layout::ThreePointZero,
        Layout::Quad,
        Layout::FourPointZero,
        Layout::FivePointZero,
        Layout::FivePointOne,
        Layout::SixPointOne,
        Layout::SevenPointOne,
    ];
    for layout in layouts {
        let speakers = layout.speakers().unwrap();
        assert!(
            speakers.windows(2).all(|pair| (pair[0] as u8) < (pair[1] as u8)),
            "{layout:?} is out of order"
        );
    }
}

#[test]
fn discrete_channels_have_no_speakers() {
    assert_eq!(Layout::Discrete(4).speakers(), None);
    assert_eq!(
        Layout::FivePointOne.speakers().unwrap(),
        vec![
            Speaker::FrontLeft,
            Speaker::FrontRight,
            Speaker::FrontCenter,
            Speaker::Lfe,
            Speaker::SideLeft,
            Speaker::SideRight,
        ]
    );
    assert_eq!(
        Layout::Discrete(0).validate(),
        Err(Error::Unsupported(
            "audio layout must contain at least one channel".to_string()
        ))
    );
    assert_eq!(Layout::default(), Layout::Stereo);
}

fn bits(samples: &[f32]) -> Vec<u32> {
    samples.iter().map(|s| s.to_bits()).collect()
}

#[test]
fn f32_roundtrip() {
    let samples: Vec<f32> = (0..8).map(|i| (i as f32) * 0.1 - 0.4).collect();
    let bytes = AudioFormat::F32.from_interleaved_words(&bits(&samples), 2).unwrap();
    let back = AudioFormat::F32.to_interleaved_words(&bytes, 2).unwrap();
    let back: Vec<f32> = back.into_iter().map(f32::from_bits).collect();
    assert_eq!(samples, back);
}

#[test]
fn planar_to_interleaved_orders_correctly() {
    // 2 channels, 3 frames, planar f32: [c0_0, c0_1, c0_2, c1_0, c1_1, c1_2]
    let planar: Vec<f32> = vec![0.1, 0.2, 0.3, 0.4, 0.5, 0.6];
    let bytes: Vec<u8> = planar.iter().flat_map(|s| s.to_le_bytes()).collect();
    let interleaved = AudioFormat::F32Planar.to_interleaved_words(&bytes, 2).unwrap();
    let interleaved: Vec<f32> = interleaved.into_iter().map(f32::from_bits).collect();
    assert_eq!(interleaved, vec![0.1, 0.4, 0.2, 0.5, 0.3, 0.6]);
}

#[test]
fn rejects_misaligned_buffer() {
    let result = AudioFormat::S16.to_interleaved_words(&[0u8; 5], 2);
    assert!(matches!(result, Err(Error::Misaligned { .. })));
}

#[test]
fn words_are_little_endian_in_every_format() {
    assert_eq!(
        AudioFormat::S16.to_interleaved_words(&[1, 2, 3, 4], 1),
        Ok(vec![0x0201, 0x0403])
    );
    assert_eq!(
        AudioFormat::U8Planar.to_interleaved_words(&[1, 2, 3, 4], 2),
        Ok(vec![1, 3, 2, 4])
    );
    assert_eq!(
        AudioFormat::S32Planar.from_interleaved_words(&vec![1, 2], 2),
        Ok(vec![1, 0, 0, 0, 2, 0, 0, 0])
    );
    assert!(AudioFormat::S16.to_interleaved_words(&[], 0).is_err());
    assert_eq!(AudioFormat::S16Planar.bytes_per_sample(), 2);
    assert!(AudioFormat::S16Planar.is_planar() && !AudioFormat::S16.is_planar());
    assert!(AudioFormat::F32.is_float() && !AudioFormat::S32.is_float());
}

fn catalog(profile: u8, sample_rate: u32, channels: u32) -> Catalog {
    Catalog {
        profile,
        sample_rate,
        channel_count: channels,
        description: None,
    }
}

#[test]
fn description_is_kept_verbatim() {
    let mut config = catalog(2, 44_100, 1);
    // AAC-LC with an explicit 24-bit rate: re-encoding the parsed fields would
    // produce the 2-byte form instead.
    config.description = Some(vec![0x17, 0x80, 0x56, 0x22, 0x08]);

    let description = description(&config).unwrap();
    assert_eq!(description, &[0x17, 0x80, 0x56, 0x22, 0x08]);
}

#[test]
fn description_is_synthesized_from_catalog_fields() {
    // AAC-LC (2), 44100 Hz (index 4), mono (config 1).
    let description = description(&catalog(2, 44_100, 1)).unwrap();
    assert_eq!(description, &[0x12, 0x08]);
}

#[test]
fn rejects_he_aac() {
    // HE-AAC (5), 44100 Hz, stereo. Only this leading-object-type form is
    // caught: an LC-leading config that declares SBR further in reads as LC.
    let err = description(&catalog(5, 44_100, 2)).unwrap_err();
    assert!(matches!(err, Error::Unsupported(msg) if msg.contains("mp4a.40.5")));
}

#[test]
fn rejects_an_extended_profile_before_synthesis_masks_it() {
    // mp4a.40.34 is MP3-in-MP4. The 5-bit object type field can't hold 34, so
    // synthesizing a config would mask it down to 2 and read back as AAC-LC.
    let err = description(&catalog(34, 44_100, 2)).unwrap_err();
    assert!(matches!(err, Error::Unsupported(msg) if msg.contains("mp4a.40.34")));
}

#[test]
fn rejects_more_than_stereo() {
    // Synthesis would rewrite an unnameable count to stereo; 6 is nameable but
    // still past what the decoder opens.
    assert!(matches!(
        description(&catalog(2, 48_000, 12)),
        Err(Error::Unsupported(_))
    ));
    assert!(matches!(
        description(&catalog(2, 48_000, 6)),
        Err(Error::Unsupported(_))
    ));
}

#[test]
fn rejects_a_sample_rate_the_config_cannot_hold() {
    // Past 24 bits the encoder keeps the low bits and drops the rest, so this
    // would synthesize a plausible 44100 Hz config.
    let err = description(&catalog(2, 0x0100_AC44, 2)).unwrap_err();
    assert!(matches!(err, Error::Unsupported(msg) if msg.contains("24 bits")));
}

#[test]
fn rejects_description_disagreeing_with_the_codec_string() {
    // The catalog claims LC while the description says HE-AAC; the description wins.
    let mut config = catalog(2, 44_100, 2);
    config.description = Some(vec![0x2A, 0x10]);

    assert!(matches!(description(&config), Err(Error::Unsupported(_))));
}

#[test]
fn rejects_truncated_description() {
    let mut config = catalog(2, 44_100, 1);
    config.description = Some(vec![0x12]);

    assert!(matches!(description(&config), Err(Error::Unsupported(_))));
}

#[test]
fn rejects_missing_shape() {
    assert!(matches!(
        description(&catalog(2, 0, 1)),
        Err(Error::Unsupported(_))
    ));
    assert!(matches!(
        description(&catalog(2, 44_100, 0)),
        Err(Error::Unsupported(_))
    ));
}

#[test]
fn an_aac_config_roundtrips() {
    for (sample_rate, channel_count) in [(44_100, 1), (48_000, 2), (12_345, 2), (96_000, 1)] {
        let config = Config {
            profile: 2,
            sample_rate,
            channel_count,
        };
        validate(&config).unwrap();
        assert_eq!(Config::parse(&config.encode()), Ok(config));
    }
    assert!(matches!(Config::parse(&vec![]), Err(Error::Mux(_))));
}

#[test]
fn pcm_is_measured_exactly() {
    assert_eq!(pcm::bitrate(48_000, 2), Ok(48_000 * 2 * 32));
    assert_eq!(pcm::frame_bytes(960, 2), Ok(7_680));
    assert_eq!(pcm::frame_size(48_000, Duration::from_millis(20)), Ok(960));
    assert!(pcm::frame_size(44_100, Duration::from_micros(2_500)).is_err());
    assert!(pcm::bitrate(u32::MAX, u32::MAX).is_err());
}

#[test]
fn activity_starts_active() {
    assert!(Activity::default().is_active());
    assert!(Activity::Dtx.is_dtx() && !Activity::Dtx.is_active());
    let frame = Frame::new(vec![1, 2], Timestamp::from_micros(5));
    assert_eq!(frame.activity, Activity::Active);
    assert_eq!(frame.data, vec![1, 2]);
    assert_eq!(frame.timestamp, Timestamp::from_micros(5));
}

#[test]
fn audio_errors_read_as_text() {
    for error in [
        Error::Unsupported("x".to_string()),
        Error::Device("x".to_string()),
        Error::Capture("x".to_string()),
        Error::Playback("x".to_string()),
        Error::Decode("x".to_string()),
        Error::ResamplerConstruction("x".to_string()),
        Error::Resample("x".to_string()),
        Error::Hang("x".to_string()),
        Error::Mux("x".to_string()),
        Error::Net("x".to_string()),
    ] {
        assert!(error.message().ends_with('x'), "{error:?}");
        assert_eq!(error.duplicate(), error);
    }
    assert_eq!(Error::TimeOverflow.message(), "time overflow");
    assert!(Error::Misaligned {
        got: 4,
        expected: 8
    }
    .message()
    .contains('8'));
}

#[test]
fn samples_are_resampled_only_where_asked() {
    let mut config = DecoderConfig {
        output_format: AudioFormat::S16,
        output_sample_rate: None,
        output_channels: None,
    };
    let native = AudioConsumer::new(config.clone(), 48_000, 2).unwrap();
    assert_eq!((native.output_rate(), native.output_channels()), (48_000, 2));
    assert_eq!(native.chunk_frames(), None);
    assert_eq!(native.config().output_format, AudioFormat::S16);

    config.output_sample_rate = Some(16_000);
    let resampled = AudioConsumer::new(config.clone(), 48_000, 2).unwrap();
    assert_eq!(resampled.output_rate(), 16_000);
    assert_eq!(resampled.chunk_frames(), Some(960));

    assert_eq!(native.timestamp_us(Timestamp::from_millis(20)), Ok(20_000));
    assert_eq!(
        native.timestamp_us(Timestamp::new(u64::MAX, 1)),
        Err(Error::Unsupported("timestamp overflow".to_string()))
    );

    config.output_channels = Some(1);
    assert!(AudioConsumer::new(config, 48_000, 2).is_err());
}

#[test]
fn a_frame_longer_than_any_clock_is_unsupported() {
    assert_eq!(
        frame_size_for(48_000, Duration { nanos: u128::MAX }),
        Err(Error::Unsupported(
            "opus frame duration must be 2.5/5/10/20/40/60 ms (got 340282366920938463463374607431768211 us)"
                .to_string()
        ))
    );
}
