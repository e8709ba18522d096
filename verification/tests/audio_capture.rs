use moq_media::audio::aec::{Pass, State};
use moq_media::audio::capture::buffer::{
    Piece, Reader, Submitted, Writer, CHUNK_FRAMES, DEPTH,
};
use moq_media::audio::capture::channel::{dropped, Drops, Sent};
use moq_media::audio::capture::device::{
    arbitrate, check_format, describe, first_buffer, negotiate, select, Config, Device, Failure,
    First, Layout, SampleFormat, Samples, Source,
};
use moq_media::audio::capture::permission::{judge_access, judge_answer, Access, Verdict};
use moq_media::audio::capture::system;
use moq_media::audio::encode::capture::control::{changed, Desired, Published, Status};
use moq_media::audio::encode::capture::converter::Converter;
use moq_media::audio::encode::capture::driver::{self, Driver};
use moq_media::audio::encode::capture::supervisor::{
    Effect, Event, Probed, Read, Supervisor, Turn, Wait,
};
use moq_media::audio::error::Error;
use moq_media::audio::layout::Layout as Speakers;
use moq_media::time::Duration;

/// Fill and submit every piece of `input`, queueing while `room` lasts.
fn write<S: Copy>(
    writer: &mut Writer<f32>,
    input: &[S],
    room: &mut usize,
    convert: impl Fn(S) -> f32,
) -> Vec<(Vec<f32>, bool, usize)> {
    let mut queued = Vec::new();
    let mut from = 0;
    while let Some(piece) = writer.piece(input.len(), from) {
        from = piece.to;
        let Some(buffer) = writer.take() else {
            writer.drop_one();
            continue;
        };
        let room_before = buffer.data.capacity();
        let filled = writer.fill(buffer, input, piece, &convert);
        assert_eq!(filled.data.capacity(), room_before, "the callback allocated");
        if *room == 0 {
            assert!(writer.settle(Submitted::Full(filled)));
        } else {
            *room -= 1;
            queued.push((filled.data, filled.gap, filled.slot));
            assert!(writer.settle(Submitted::Queued));
        }
    }
    writer.finish(input.len());
    queued
}

#[test]
fn every_sample_format_uses_the_preallocated_pool() {
    let mut writer: Writer<f32> = Writer::new(2);
    let taken: Vec<_> = (0..DEPTH).map(|_| writer.take().unwrap()).collect();
    assert!(writer.take().is_none());
    for buffer in taken {
        assert!(buffer.data.capacity() >= CHUNK_FRAMES * 2);
        writer.reclaim(buffer.data, buffer.slot);
    }
    let f32s = vec![0.25f32; 960 * 2];
    let i16s = vec![8192i16; 960 * 2];
    let u16s = vec![40960u16; 960 * 2];
    let mut room = DEPTH;

    let filled = [
        write(&mut writer, &f32s, &mut room, |s: f32| s),
        write(&mut writer, &i16s, &mut room, |s: i16| s as f32 / 32768.0),
        write(&mut writer, &u16s, &mut room, |s: u16| {
            (s as f32 - 32768.0) / 32768.0
        }),
    ];
    for queued in filled {
        assert_eq!(queued.len(), 1);
        assert_eq!(queued[0].0, f32s);
        assert!(queued[0].2 < DEPTH, "a buffer of the pool");
        assert!(queued[0].0.capacity() >= CHUNK_FRAMES * 2);
        for (data, _, slot) in queued {
            writer.reclaim(data, slot);
        }
    }
    let again = writer.take().unwrap();
    assert!(again.data.is_empty());
    assert!(again.data.capacity() >= CHUNK_FRAMES * 2);
}

#[test]
fn oversized_callbacks_are_chunked_without_allocating() {
    let mut writer: Writer<f32> = Writer::new(2);
    let input = vec![0.25f32; (CHUNK_FRAMES * 2) + 960];
    let first = Piece {
        from: 0,
        to: CHUNK_FRAMES * 2,
    };
    let second = Piece {
        from: CHUNK_FRAMES * 2,
        to: CHUNK_FRAMES * 2 + 960,
    };
    assert_eq!(writer.piece(input.len(), 0), Some(first));
    assert_eq!(writer.piece(input.len(), first.to), Some(second));
    assert_eq!(writer.piece(input.len(), second.to), None);
    let queued = write(&mut writer, &input, &mut DEPTH.clone(), |s| s);
    assert_eq!(queued.len(), 2);
    for (data, _, slot) in queued {
        assert!(data.capacity() >= CHUNK_FRAMES * 2);
        writer.reclaim(data, slot);
    }
    assert!(writer.take().unwrap().data.capacity() >= CHUNK_FRAMES * 2);
}

#[test]
fn overflow_marks_the_next_buffer_as_a_gap() {
    let mut writer: Writer<f32> = Writer::new(1);
    let backlog = vec![0.5f32; 480];
    let mut room = DEPTH;
    let mut queued = Vec::new();
    for _ in 0..DEPTH {
        queued.extend(write(&mut writer, &backlog, &mut room, |s| s));
    }
    assert_eq!(queued.len(), DEPTH);
    assert!(queued.iter().all(|(_, gap, _)| !gap));
    // Every buffer of the pool is taken, so this one is dropped.
    assert!(write(&mut writer, &backlog, &mut room, |s| s).is_empty());
    assert_eq!(writer.take_drops(), 1);
    assert_eq!(writer.take_drops(), 0);

    let (data, _, slot) = queued.remove(0);
    writer.reclaim(data, slot);
    room = 1;
    let recovered = write(&mut writer, &[1.0f32; 480], &mut room, |s| s);
    assert_eq!(recovered.len(), 1);
    assert!(recovered[0].1, "the gap was not marked");
    assert_eq!(recovered[0].0[0], 1.0);
}

#[test]
fn overflow_discards_partial_aec_frames() {
    let mut writer: Writer<f32> = Writer::new(1);
    let mut aec: State<f32> = State::new();
    aec.open(48_000, 1).unwrap();
    let mut queued = Vec::new();
    for len in [512, 480, 480, 480, 480, 480, 480, 480] {
        queued.extend(cancelled(&mut writer, &mut aec, &vec![0.5; len]));
    }
    assert_eq!(queued.len(), DEPTH);
    assert_eq!(aec.pending_samples(), 32);

    assert!(cancelled(&mut writer, &mut aec, &[0.75; 512]).is_empty());
    let (data, slot) = queued.remove(0);
    writer.reclaim(data, slot);
    assert_eq!(cancelled(&mut writer, &mut aec, &[1.0; 448]).len(), 1);
    assert_eq!(
        aec.pending_samples(),
        448,
        "samples buffered before overflow leaked into the recovery callback"
    );
}

/// Fill, cancel and queue every piece of `input`, as a callback with a canceller does.
fn cancelled(writer: &mut Writer<f32>, aec: &mut State<f32>, input: &[f32]) -> Vec<(Vec<f32>, usize)> {
    let mut queued = Vec::new();
    let mut from = 0;
    while let Some(piece) = writer.piece(input.len(), from) {
        from = piece.to;
        let Some(buffer) = writer.take() else {
            writer.drop_one();
            aec.mark_discontinuous();
            continue;
        };
        let mut filled = writer.fill(buffer, input, piece, |s| s);
        if aec.begin(filled.data.len(), true) == Pass::Process {
            aec.accept(&filled.data);
            let mut heard = vec![0.0; aec.frame_samples()];
            while aec.next_frame(&mut heard) {
                aec.keep(&heard);
            }
            aec.hand_back(&mut filled.data, 0.0);
        }
        queued.push((filled.data, filled.slot));
        assert!(writer.settle(Submitted::Queued));
    }
    writer.finish(input.len());
    queued
}

#[test]
fn a_partial_frame_is_a_drop() {
    let mut writer: Writer<f32> = Writer::new(2);
    let queued = write(&mut writer, &[0.5f32; 5], &mut DEPTH.clone(), |s| s);
    assert_eq!(queued[0].0.len(), 4);
    let next = write(&mut writer, &[0.5f32; 4], &mut DEPTH.clone(), |s| s);
    assert!(next[0].1);
}

#[test]
fn a_gone_reader_takes_nothing() {
    let mut writer: Writer<f32> = Writer::new(1);
    let buffer = writer.take().unwrap();
    let filled = writer.fill(buffer, &[0.5f32], Piece { from: 0, to: 1 }, |s| s);
    assert!(!writer.settle(Submitted::Gone(filled)));
    assert_eq!((0..DEPTH).filter(|_| writer.take().is_some()).count(), DEPTH);
}

#[test]
fn drops_are_reported_once_a_second() {
    let at = Duration::from_millis;
    let mut reader = Reader::new();
    assert_eq!(reader.observe(0, at(0)), None);
    assert_eq!(reader.observe(2, at(10)), Some(2));
    assert_eq!(reader.observe(3, at(20)), None);
    assert_eq!(reader.observe(1, at(1_010)), Some(4));

    let mut drops = Drops::new();
    assert!(!drops.gap());
    assert_eq!(drops.observe(dropped(Sent::Full), at(0)), Some(1));
    assert!(drops.gap(), "a drop surfaces as a gap");
    assert!(!drops.gap(), "only once");
    assert_eq!(drops.observe(dropped(Sent::Queued), at(1)), None);
    assert_eq!(drops.observe(dropped(Sent::Closed), at(1)), None);
    assert!(!drops.gap());
    assert_eq!(drops.observe(1, at(500)), None);
    assert_eq!(drops.observe(1, at(1_000)), Some(2));
}

#[test]
fn devices_are_described_and_selected() {
    let names = vec!["Mic".to_string(), "Line".to_string()];
    let devices = describe(&names, &Some("Line".to_string()));
    assert_eq!(devices.len(), 2);
    assert!(!devices[0].default && devices[1].default);
    assert_eq!(
        devices[0].source(),
        Source::Microphone(Some(devices[0].id.clone()))
    );

    assert_eq!(select(&names, true, Some("Line")), Ok(Some(1)));
    assert_eq!(select(&names, true, None), Ok(None));
    assert_eq!(
        select(&names, true, Some("Gone")),
        Err(Error::Device("input device \"Gone\" not found".to_string()))
    );
    assert_eq!(
        select(&names, false, None),
        Err(Error::Device("no default input device".to_string()))
    );
}

#[test]
fn hints_override_the_device_defaults() {
    let mut config = Config::default();
    assert_eq!(negotiate(44_100, 2, &config), (44_100, 2));
    config.sample_rate = Some(16_000);
    config.channels = Some(0x1_0001);
    assert_eq!(negotiate(44_100, 2, &config), (16_000, 1));
    assert_eq!(check_format(&SampleFormat::I16), Ok(()));
    assert_eq!(
        check_format(&SampleFormat::Other("i24".to_string())),
        Err(Error::Unsupported(
            "unsupported input sample format i24".to_string()
        ))
    );
}

#[test]
fn the_first_buffer_shows_a_working_microphone() {
    let samples = || Samples {
        data: vec![1u8],
        gap: false,
    };
    assert_eq!(first_buffer("Mic", First::Samples(samples())), Ok(samples()));
    assert_eq!(
        first_buffer::<u8>("Mic", First::Stopped),
        Err(Error::Capture(
            "microphone Mic stopped before any samples".to_string()
        ))
    );
    assert_eq!(
        first_buffer::<u8>("Mic", First::TimedOut),
        Err(Error::Capture(
            "no samples from microphone Mic within 5s (permission denied?)".to_string()
        ))
    );
    let lost = Error::Capture("device lost".to_string());
    assert_eq!(
        first_buffer::<u8>("Mic", First::Failed(lost.clone())),
        Err(lost)
    );
}

#[test]
fn stream_error_wins_over_a_buffer() {
    let lost = Error::Capture("device lost".to_string());
    let samples = Samples {
        data: vec![1u8],
        gap: false,
    };
    assert_eq!(arbitrate(Some(lost.clone()), Some(samples)), Err(lost));
    assert_eq!(arbitrate::<u8>(None, None), Ok(None));
}

#[test]
fn access_is_judged() {
    assert!(matches!(judge_access(Access::Authorized), Verdict::Proceed));
    assert!(matches!(judge_access(Access::Unknown), Verdict::Proceed));
    assert!(matches!(judge_access(Access::NotDetermined), Verdict::Ask));
    assert!(matches!(
        judge_access(Access::Denied),
        Verdict::Refuse(Error::Capture(_))
    ));
    assert!(matches!(
        judge_access(Access::Restricted),
        Verdict::Refuse(Error::Capture(_))
    ));
    assert_eq!(judge_answer(Some(true)), Ok(()));
    assert_eq!(judge_answer(None), Ok(()));
    assert!(judge_answer(Some(false)).is_err());
}

#[test]
fn system_audio_is_woven_from_planes() {
    let plane = |data: Vec<u8>, channels| system::Plane { data, channels };
    let woven = system::samples(&vec![plane(vec![1, 2, 3], 1), plane(vec![4, 5], 1)]).unwrap();
    assert_eq!(woven.samples, vec![1, 4, 2, 5]);
    assert_eq!(woven.channels, 2);
    assert_eq!(system::samples::<u8>(&Vec::new()), None);

    let layout = system::format(None, Some(1));
    assert_eq!((layout.sample_rate, layout.channels), (48_000, 1));
    assert_eq!(
        system::first_buffer(1, system::First::Buffer(woven)),
        Err(Error::Capture(
            "system audio delivered 2 channels, not the 1 requested".to_string()
        ))
    );
    assert!(system::first_buffer::<u8>(1, system::First::Stopped).is_err());
    assert!(system::first_buffer::<u8>(1, system::First::TimedOut).is_err());
    assert_eq!(
        system::check_displays(0),
        Err(Error::Capture(
            "no display to capture system audio from".to_string()
        ))
    );
    assert_eq!(system::check_displays(1), Ok(()));
}

fn lost(text: &str) -> Failure {
    Failure::retry(Error::Capture(text.to_string()))
}

fn sleep(turn: Turn) -> Duration {
    match turn.wait {
        Wait::Sleep(wait) => wait,
        other => panic!("expected a delay, got {other:?}"),
    }
}

#[test]
fn failed_reopens_back_off_to_the_cap() {
    let mut supervisor = Supervisor::exact();
    supervisor.start();
    supervisor.step(Event::Used(true));
    for wait in [
        Duration::from_millis(500),
        Duration::from_secs(1),
        Duration::from_secs(2),
        Duration::from_secs(4),
        Duration::from_secs(4),
    ] {
        assert_eq!(
            sleep(supervisor.step(Event::Opened(Err(lost("still unavailable"))))),
            wait
        );
        supervisor.step(Event::Slept);
    }
    let end = supervisor.step(Event::Unused(false));
    assert!(
        matches!(end.wait, Wait::Done(Err(Error::Capture(message))) if message == "still unavailable")
    );
}

#[test]
fn permanent_open_error_is_not_retried() {
    let mut supervisor = Supervisor::exact();
    supervisor.start();
    supervisor.step(Event::Used(true));
    let denied = Failure::fatal(Error::Capture("permission denied".to_string()));
    let end = supervisor.step(Event::Opened(Err(denied)));
    assert!(
        matches!(end.wait, Wait::Done(Err(Error::Capture(message))) if message == "permission denied")
    );
}

#[test]
fn empty_reopens_do_not_reset_the_backoff() {
    let mut supervisor = Supervisor::exact();
    supervisor.start();
    supervisor.step(Event::Used(true));
    supervisor.step(Event::Opened(Ok(())));
    let first = supervisor.step(Event::Read(Read::Failed(lost("first lost"))));
    assert_eq!(sleep(first), Duration::from_millis(500));
    supervisor.step(Event::Slept);
    supervisor.step(Event::Opened(Ok(())));
    let second = supervisor.step(Event::Read(Read::Failed(lost("second lost"))));
    assert_eq!(sleep(second), Duration::from_millis(1_000));
}

#[test]
fn track_end_after_empty_reopen_returns_the_last_error() {
    let mut supervisor = Supervisor::exact();
    supervisor.start();
    supervisor.step(Event::Used(true));
    supervisor.step(Event::Opened(Ok(())));
    supervisor.step(Event::Read(Read::Failed(lost("lost"))));
    supervisor.step(Event::Slept);
    supervisor.step(Event::Opened(Ok(())));
    let end = supervisor.step(Event::Unused(false));
    assert!(matches!(end.wait, Wait::Done(Err(Error::Capture(message))) if message == "lost"));
}

#[test]
fn a_buffer_is_a_recovery() {
    let mut supervisor = Supervisor::exact();
    supervisor.start();
    supervisor.step(Event::Used(true));
    supervisor.step(Event::Opened(Ok(())));
    let turn = supervisor.step(Event::Read(Read::Stopped));
    assert!(matches!(
        turn.effects[..],
        [Effect::Release, Effect::Failed(_), Effect::ResetEpoch]
    ));
    supervisor.step(Event::Slept);
    supervisor.step(Event::Opened(Ok(())));
    let turn = supervisor.step(Event::Read(Read::Samples { gap: true }));
    assert!(matches!(
        turn.effects[..],
        [Effect::ResetEpoch, Effect::Deliver]
    ));
    let turn = supervisor.step(Event::Read(Read::Samples { gap: false }));
    assert!(matches!(turn.effects[..], [Effect::Deliver]));
    let again = supervisor.step(Event::Read(Read::Failed(lost("again"))));
    assert_eq!(sleep(again), Duration::from_millis(500));
}

#[test]
fn demand_loss_closes_the_input() {
    let mut supervisor = Supervisor::exact();
    assert!(matches!(supervisor.start().wait, Wait::Used));
    supervisor.step(Event::Used(true));
    supervisor.step(Event::Opened(Ok(())));
    let turn = supervisor.step(Event::Unused(true));
    assert!(matches!(
        turn.effects[..],
        [Effect::Release, Effect::ResetEpoch, Effect::Waiting]
    ));
    assert!(matches!(turn.wait, Wait::Used));
    let end = supervisor.step(Event::Used(false));
    assert!(matches!(end.wait, Wait::Done(Ok(()))));
}

#[test]
fn initial_discovery_retries_a_missing_device() {
    let mut supervisor = Supervisor::exact();
    assert!(matches!(
        supervisor.probed(Err(lost("no default input device"))),
        Probed::Retry(wait) if wait == Duration::from_millis(500)
    ));
    let layout = Layout {
        sample_rate: 48_000,
        channels: 2,
    };
    assert!(matches!(supervisor.probed(Ok(layout)), Probed::Found(found) if found == layout));
    assert_eq!(supervisor.layout(), Some(layout));
}

#[test]
fn a_found_format_starts_a_new_retry_sequence() {
    let mut supervisor = Supervisor::new();
    assert_eq!(supervisor.layout(), None);
    for wait in [500, 1_000, 2_000] {
        assert!(matches!(
            supervisor.probed(Err(lost("no device"))),
            Probed::Retry(delay) if delay == Duration::from_millis(wait)
        ));
    }
    let layout = Layout {
        sample_rate: 44_100,
        channels: 1,
    };
    assert!(matches!(supervisor.probed(Ok(layout)), Probed::Found(found) if found == layout));
    assert!(matches!(
        supervisor.probed(Err(lost("no device"))),
        Probed::Retry(wait) if wait == Duration::from_millis(500)
    ));
}

#[test]
fn initial_discovery_returns_a_permanent_failure() {
    let mut supervisor = Supervisor::exact();
    let denied = Failure::fatal(Error::Capture("permission denied".to_string()));
    assert!(matches!(
        supervisor.probed(Err(denied)),
        Probed::Fatal(Error::Capture(message)) if message == "permission denied"
    ));
}

fn shape() -> Layout {
    Layout {
        sample_rate: 48_000,
        channels: 2,
    }
}

/// A driver that capture runs in.
fn running(park: bool) -> Driver {
    let mut driver = Driver::new(park);
    driver.step(driver::Event::Asked { enabled: true }, false);
    let turn = driver.step(driver::Event::Probed(Ok(shape())), false);
    assert!(matches!(
        turn.wait,
        driver::Wait::Register(shape) if shape.layout == Speakers::Stereo
    ));
    let turn = driver.step(driver::Event::Registered(Ok(())), false);
    assert!(matches!(turn.effects[..], [driver::Effect::Reserve]));
    let turn = driver.step(driver::Event::Asked { enabled: true }, false);
    assert!(matches!(turn.wait, driver::Wait::Run));
    driver
}

#[test]
fn a_publication_without_controls_returns_its_terminal_failure() {
    let mut driver = running(false);
    let failure = Error::Capture("permission denied".to_string());
    let turn = driver.step(driver::Event::Captured(Err(failure)), false);
    assert!(turn
        .effects
        .iter()
        .any(|effect| matches!(effect, driver::Effect::Fail(Error::Capture(m)) if m == "permission denied")));
    assert!(
        matches!(turn.wait, driver::Wait::Exit(Err(Error::Capture(message))) if message == "permission denied")
    );
}

#[test]
fn a_terminal_failure_parks_a_retained_publication() {
    let mut driver = running(true);
    let failure = Error::Capture("permission denied".to_string());
    let turn = driver.step(driver::Event::Captured(Err(failure)), false);
    assert!(matches!(
        turn.effects[..],
        [driver::Effect::Silence, driver::Effect::Fail(_)]
    ));
    assert!(matches!(turn.wait, driver::Wait::Control));
    // A control action asks again, and the rendition is kept.
    driver.step(driver::Event::Changed, false);
    let turn = driver.step(driver::Event::Asked { enabled: true }, false);
    assert!(matches!(turn.wait, driver::Wait::Run));
}

#[test]
fn stopping_zeroes_the_level() {
    let mut driver = running(true);
    let turn = driver.step(driver::Event::Changed, false);
    assert!(matches!(
        turn.effects[..],
        [driver::Effect::Silence, driver::Effect::ResetEpoch]
    ));
    let turn = driver.step(driver::Event::Asked { enabled: false }, false);
    assert!(matches!(
        turn.effects[..],
        [
            driver::Effect::Silence,
            driver::Effect::Publish(Status::Stopped)
        ]
    ));
    let turn = driver.step(driver::Event::Dropped, false);
    assert!(matches!(turn.wait, driver::Wait::Exit(Ok(()))));
}

#[test]
fn a_rejected_layout_parks_the_publication() {
    let probed = |channels| {
        driver::Event::Probed(Ok(Layout {
            sample_rate: 48_000,
            channels,
        }))
    };
    let mut driver = Driver::new(true);
    driver.step(driver::Event::Asked { enabled: true }, false);
    let turn = driver.step(probed(6), false);
    assert!(matches!(
        turn.wait,
        driver::Wait::Register(shape) if shape.layout == Speakers::FivePointOne
    ));
    let refused = Error::Unsupported("cannot remix".to_string());
    let turn = driver.step(driver::Event::Registered(Err(refused)), false);
    assert!(turn.effects.iter().any(|effect| matches!(effect, driver::Effect::Fail(_))));
    assert!(matches!(turn.wait, driver::Wait::Control), "not finished");

    // Another input can still have the track.
    driver.step(driver::Event::Changed, false);
    driver.step(driver::Event::Asked { enabled: true }, false);
    driver.step(probed(2), false);
    let turn = driver.step(driver::Event::Registered(Ok(())), false);
    assert!(matches!(turn.effects[..], [driver::Effect::Reserve]));
}

#[test]
fn a_layout_without_channels_parks_the_publication() {
    let mut driver = Driver::new(true);
    driver.step(driver::Event::Asked { enabled: true }, false);
    let silent = Layout {
        sample_rate: 48_000,
        channels: 0,
    };
    let turn = driver.step(driver::Event::Probed(Ok(silent)), false);
    assert!(matches!(turn.wait, driver::Wait::Control));
    let turn = driver.step(driver::Event::Closed, true);
    assert!(matches!(
        turn.wait,
        driver::Wait::Exit(Err(Error::Unsupported(_)))
    ));
}

#[test]
fn failed_publication_retries_but_duplicate_start_is_idempotent() {
    let mut desired = Desired::new(Config::default());
    let mut seen = desired.revision;
    desired.start(false);
    assert!(!changed(desired.revision, &mut seen), "already started");
    desired.start(true);
    assert!(changed(desired.revision, &mut seen), "a failure is retried");
    desired.stop();
    assert!(changed(desired.revision, &mut seen));
    desired.stop();
    assert!(!changed(desired.revision, &mut seen));
    desired.start(false);
    assert!(changed(desired.revision, &mut seen));
    desired.replace(Source::Microphone(None));
    assert!(!changed(desired.revision, &mut seen), "the same source");
    desired.replace(Source::System);
    assert!(changed(desired.revision, &mut seen));
}

#[test]
fn a_terminal_live_failure_keeps_the_device_that_failed() {
    let mic = Device {
        id: "wired".to_string(),
        name: "Mic".to_string(),
        default: true,
    };
    let source = Source::Microphone(None);
    let mut published = Published::new(Source::Microphone(None));
    assert_eq!(published.state().status(), Status::Starting);
    published.publish(&source, Status::Live, Some(mic.clone()), None);
    let live = published.revision();
    published.publish(&source, Status::Live, Some(mic.clone()), None);
    assert_eq!(published.revision(), live, "nothing to see");

    let gone = Error::Capture("device vanished".to_string());
    published.fail(&source, &gone);
    assert_ne!(published.revision(), live);
    assert_eq!(published.state().status(), Status::Failed);
    assert_eq!(published.state().device(), Some(&mic));
    assert_eq!(published.state().failure(), Some(&gone));
    assert_eq!(published.state().source(), &source);
}

#[test]
fn a_replacement_device_is_converted() {
    let input = Layout {
        sample_rate: 44_100,
        channels: 1,
    };
    let mut converter = Converter::new(input, shape()).unwrap();
    assert_eq!(converter.chunk_frames(), Some(441));
    assert_eq!(
        converter.remix(),
        Ok(Some((Speakers::Mono, Speakers::Stereo)))
    );
    // The first input that is held back stamps what comes out.
    assert!(!converter.begin(false, false, 10));
    assert_eq!(converter.finish(true, 10), None);
    converter.begin(false, false, 20);
    assert_eq!(converter.finish(false, 20), Some(10));
    converter.begin(false, false, 30);
    assert!(converter.begin(true, false, 40), "a gap forgets what was held");
    assert_eq!(converter.finish(false, 40), Some(40));

    let same = Converter::new(shape(), shape()).unwrap();
    assert_eq!(same.chunk_frames(), None);
    assert_eq!(same.remix(), Ok(None));
    let none = Layout {
        sample_rate: 1,
        channels: 0,
    };
    assert!(Converter::new(none, shape()).is_err());
}
