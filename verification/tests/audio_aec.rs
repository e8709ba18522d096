use moq_media::audio::aec::{
    deinterleave, interleave, reference_reads, Config, Pass, Reference, State, REFERENCE_FRAME,
};
use moq_media::audio::error::Error;

/// Samples per channel in one 10 ms frame at `rate`.
const fn frame(rate: u32) -> usize {
    rate as usize / 100
}

fn opened(sample_rate: u32, channels: u32) -> State<f32> {
    let mut state = State::new();
    state.open(sample_rate, channels).unwrap();
    state
}

/// Run one callback with a processor that changes nothing.
fn process(state: &mut State<f32>, buf: Vec<f32>, enabled: bool) -> Vec<f32> {
    if state.begin(buf.len(), enabled) != Pass::Process {
        return buf;
    }
    let mut buf = buf;
    state.accept(&buf);
    let mut heard = vec![0.0; state.frame_samples()];
    while state.next_frame(&mut heard) {
        state.keep(&heard);
    }
    state.hand_back(&mut buf, 0.0);
    buf
}

#[test]
fn rejects_formats_the_processor_cannot_take() {
    let mut state: State<f32> = State::new();
    assert!(matches!(state.open(4_000, 1), Err(Error::Unsupported(_))));
    assert!(matches!(state.open(48_000, 0), Err(Error::Unsupported(_))));
    assert!(matches!(state.open(48_000, 6), Err(Error::Unsupported(_))));
    state.open(48_000, 1).unwrap();
    state.open(16_000, 2).unwrap();
}

#[test]
fn a_refused_microphone_says_why() {
    let mut state: State<f32> = State::new();
    assert_eq!(
        state.open(400_000, 1),
        Err(Error::Unsupported(
            "echo cancellation needs a microphone between 8 and 384 kHz (got 400000)".to_string()
        ))
    );
    assert_eq!(
        state.open(48_000, 6),
        Err(Error::Unsupported(
            "echo cancellation accepts a mono or stereo microphone (got 6 channels)".to_string()
        ))
    );
}

#[test]
fn reopening_keeps_the_filter_of_the_same_room() {
    let mut state: State<f32> = State::new();
    assert_eq!(state.open(48_000, 1), Ok(true));
    assert_eq!(state.open(48_000, 1), Ok(false));
    assert_eq!(state.open(16_000, 1), Ok(true));
}

#[test]
fn returns_exactly_what_it_was_given() {
    let mut state = opened(48_000, 2);
    for frames in [64, 480, 512, 4096] {
        let buf = process(&mut state, vec![0.25f32; frames * 2], true);
        assert_eq!(buf.len(), frames * 2, "{frames} frames");
    }
}

/// A device whose callback is a whole number of 10 ms frames pays no
/// latency: the frame is complete the moment it arrives.
#[test]
fn whole_frames_are_not_delayed() {
    let mut state = opened(48_000, 1);
    for round in 0..20 {
        let given = vec![0.5f32 + round as f32; frame(48_000)];
        assert_eq!(process(&mut state, given.clone(), true), given);
    }
}

/// A callback that straddles a frame boundary is short by the leftover, once,
/// which is where the latency comes from.
#[test]
fn partial_frames_cost_the_leftover_once() {
    let mut state = opened(48_000, 1);
    let frame = frame(48_000);

    let first = process(&mut state, vec![0.5f32; frame * 3 / 2], true);
    let silent = first.iter().rev().take_while(|s| **s == 0.0).count();
    assert_eq!(silent, frame / 2, "expected the leftover half-frame to be held back");

    let second = process(&mut state, vec![0.5f32; frame * 3 / 2], true);
    assert_ne!(second.last(), Some(&0.0), "the leftover was never made up");
}

/// Callback sizes that don't divide evenly into 10 ms must not lose samples:
/// the residual carries into the next call rather than being dropped.
#[test]
fn keeps_up_with_callbacks_that_straddle_frames() {
    let mut state = opened(48_000, 1);
    let chunk = frame(48_000) * 3 / 2;

    let mut short = 0;
    for round in 0..20 {
        let buf = process(&mut state, vec![0.5f32; chunk], true);
        // Past the first couple of rounds the pipeline is primed, so every
        // callback has to come back full.
        if round > 2 {
            short += buf.iter().rev().take_while(|s| **s == 0.0).count();
        }
    }

    assert_eq!(short, 0, "samples went missing after the pipeline filled");
}

#[test]
fn disabled_passes_the_microphone_straight_through() {
    let mut state = opened(48_000, 2);
    let buf = process(&mut state, vec![0.5f32; 960 * 2], false);
    assert!(buf.iter().all(|s| *s == 0.5), "passthrough altered the samples");
}

/// Turning it off must drop the partial frame that was in flight, which would
/// otherwise resurface seconds later in the middle of a live stream.
#[test]
fn toggling_off_drops_buffered_samples() {
    let mut state = opened(48_000, 1);
    let frame = frame(48_000);

    process(&mut state, vec![0.5f32; frame * 3 / 2], true);
    assert_eq!(state.pending_samples(), frame / 2);

    let buf = process(&mut state, vec![0.5f32; frame / 2], false);
    assert!(buf.iter().all(|s| *s == 0.5), "passthrough altered the samples");

    assert_eq!(state.pending_samples(), 0, "a partial frame survived the toggle");
    // What was in flight is gone: the next frame is the next samples.
    let next = process(&mut state, vec![0.75f32; frame], true);
    assert!(next.iter().all(|s| *s == 0.75), "processed samples survived the toggle");
}

#[test]
fn a_canceller_without_a_microphone_leaves_the_buffer_alone() {
    let mut state: State<f32> = State::new();
    let buf = process(&mut state, vec![0.5f32; 480], true);
    assert!(buf.iter().all(|s| *s == 0.5));
}

#[test]
fn a_partial_channel_frame_leaves_the_buffer_alone() {
    let mut state = opened(48_000, 2);
    assert_eq!(state.begin(481, true), Pass::Untouched);
    assert_eq!(state.begin(480, false), Pass::Bypassed);
    assert_eq!(state.begin(480, true), Pass::Process);
}

/// A canceller that never sees a reference still has to hand the microphone
/// back, since the output device may simply not be open yet.
#[test]
fn survives_a_missing_reference() {
    let mut state = opened(48_000, 2);
    let given = vec![0.5f32; frame(48_000) * 2 * 2];
    process(&mut state, given.clone(), true);
    let buf = process(&mut state, given, true);
    assert!(buf.iter().any(|s| s.abs() > 0.01), "audio was dropped");
}

#[test]
fn a_pass_drains_the_whole_tap() {
    assert_eq!(reference_reads(10 * REFERENCE_FRAME), 10);
    assert_eq!(reference_reads(10 * REFERENCE_FRAME + 479), 10);
    assert_eq!(reference_reads(479), 0);
}

/// A second canceller takes the engine's one tap. The first must not take it
/// away again on its way out.
#[test]
fn a_replaced_canceller_leaves_the_tap_alone() {
    let tap: Reference<u8> = Reference::new(1);
    assert!(!tap.owned_by(0), "the replacement lost its tap");
    assert!(tap.owned_by(1), "the tap outlived every canceller");
}

#[test]
fn a_refused_tap_is_retried() {
    let mut tap: Reference<u8> = Reference::new(1);
    assert!(tap.attached());
    assert!(!tap.rebuild(false, 7), "the canceller is gone");
    assert!(tap.attached());
    assert!(tap.rebuild(true, 7));
    assert!(!tap.attached());
    assert_eq!(tap.take(), Some(7));
    assert_eq!(tap.take(), None);
    tap.restore(7);
    assert_eq!(tap.take(), Some(7));
}

#[test]
fn processing_is_on_by_default() {
    let config = Config::default();
    assert!(config.noise_suppression && config.auto_gain);
}

#[test]
fn interleaving_round_trips() {
    let interleaved = vec![1.0, -1.0, 2.0, -2.0, 3.0, -3.0];
    let mut planar = vec![0.0; interleaved.len()];
    deinterleave(&interleaved, &mut planar, 2);
    assert_eq!(planar, vec![1.0, 2.0, 3.0, -1.0, -2.0, -3.0]);
    let mut back = Vec::new();
    interleave(&planar, 2, &mut back);
    assert_eq!(back, interleaved);
}

#[test]
fn a_dropped_buffer_discards_what_was_in_flight() {
    let mut state = opened(48_000, 1);
    process(&mut state, vec![0.5f32; 512], true);
    assert_eq!(state.pending_samples(), 32);
    state.mark_discontinuous();
    assert_eq!(state.pending_samples(), 0);
    let next = process(&mut state, vec![0.75f32; frame(48_000)], true);
    assert!(next.iter().all(|s| *s == 0.75), "samples survived the hole");
}
