use moq_media::archive::error::Error;
use moq_media::archive::index::{Advert, Run};
use moq_media::archive::path::Key;
use moq_media::archive::reader::index::{Index, Span};
use moq_media::archive::reader::serve::{GroupServe, Step, Write};
use moq_media::archive::reader::timeline::{
    apply, cache_items, judge_fetch, pending_segments, weight, Config, Event, Fetched,
    DEFAULT_CACHE,
};
use moq_media::archive::rewind::{
    self, subscription, Archive, Rewind, Source, Step as RewindStep, Track,
};
use moq_media::archive::segment::{Frame, Group, Object};
use moq_media::archive::timeline::{Position, Record};
use moq_media::time::{Duration, Timestamp};

fn object(frame_start: u64, groups: &[(u64, usize)]) -> Object {
    Object {
        frame_start,
        groups: groups
            .iter()
            .map(|&(sequence, frames)| Group {
                sequence,
                frames: (0..frames as u64)
                    .map(|timestamp| Frame {
                        timestamp,
                        payload: vec![0; 10],
                    })
                    .collect(),
            })
            .collect(),
    }
}

fn span(sequence: u64, start: Position, end: Position) -> Span {
    Span {
        sequence,
        start,
        end,
    }
}

fn load(step: Step) -> Span {
    match step {
        Step::Load(span) => span,
        other => panic!("expected a load, got {other:?}"),
    }
}

#[test]
fn a_split_group_is_served_whole_and_in_order() {
    // Frames 0..3 of group 7 in one record, the rest in the next.
    let spans = vec![
        span(0, Position::group(7), Position::new(7, 3)),
        span(1, Position::new(7, 3), Position::group(9)),
    ];
    let mut serve = GroupServe::open(spans, 7, 0).unwrap();
    assert_eq!(load(serve.poll(false)).sequence, 0);
    assert_eq!(
        serve.loaded(&object(0, &[(7, 3)])),
        Write::Frames {
            group: 0,
            from: 0,
            to: 3
        }
    );
    assert_eq!(load(serve.poll(false)).sequence, 1);
    assert_eq!(
        serve.loaded(&object(3, &[(7, 2), (8, 1)])),
        Write::Frames {
            group: 0,
            from: 0,
            to: 2
        }
    );
    assert_eq!(serve.poll(false), Step::Finish);
}

#[test]
fn a_request_may_start_inside_a_group() {
    let spans = vec![span(0, Position::group(7), Position::group(9))];
    let mut serve = GroupServe::open(spans, 8, 2).unwrap();
    load(serve.poll(false));
    assert_eq!(
        serve.loaded(&object(0, &[(7, 1), (8, 5)])),
        Write::Frames {
            group: 1,
            from: 2,
            to: 5
        }
    );
    assert_eq!(serve.poll(false), Step::Finish);
}

#[test]
fn a_missing_head_is_refused() {
    assert!(GroupServe::open(Vec::new(), 7, 0).is_none());
    let expired = vec![span(1, Position::new(7, 3), Position::group(8))];
    assert!(GroupServe::open(expired, 7, 0).is_none());
}

#[test]
fn a_hole_between_records_aborts() {
    let spans = vec![
        span(0, Position::group(7), Position::new(7, 3)),
        span(2, Position::new(7, 5), Position::group(8)),
    ];
    let mut serve = GroupServe::open(spans, 7, 0).unwrap();
    load(serve.poll(false));
    serve.loaded(&object(0, &[(7, 3)]));
    load(serve.poll(false));
    assert_eq!(serve.loaded(&object(5, &[(7, 1)])), Write::Abort);
}

#[test]
fn an_open_group_waits_and_grows() {
    let head = span(0, Position::group(7), Position::new(7, 3));
    let mut serve = GroupServe::open(vec![head], 7, 0).unwrap();
    load(serve.poll(false));
    serve.loaded(&object(0, &[(7, 3)]));
    assert_eq!(serve.poll(false), Step::Wait);
    assert_eq!(serve.poll(true), Step::Finish, "the recording ended");

    serve.resume(vec![head, span(1, Position::new(7, 3), Position::group(8))]);
    assert_eq!(load(serve.poll(false)).sequence, 1, "served spans are passed over");
    assert_eq!(
        serve.loaded(&object(3, &[(7, 1)])),
        Write::Frames {
            group: 0,
            from: 0,
            to: 1
        }
    );
    assert_eq!(serve.poll(false), Step::Finish);
}

#[test]
fn cached_objects_weigh_their_payload() {
    assert_eq!(weight(&object(0, &[(0, 2), (1, 1)])), 3 * (10 + 32) + 64);
    assert_eq!(cache_items(DEFAULT_CACHE), 64);
    assert_eq!(cache_items(0), 16);
    assert_eq!(cache_items(100 << 20), 100);
}

#[test]
fn pending_segments_follow_the_cursor_in_order() {
    let key = |segment| Key::segments("t".to_string(), segment).unwrap();
    let keys = vec![
        key(5),
        key(3),
        Key::info("t".to_string()).unwrap(),
        key(4),
        key(5),
    ];
    assert_eq!(pending_segments(&keys, None), vec![3, 4, 5]);
    assert_eq!(pending_segments(&keys, Some(3)), vec![4, 5]);
    assert_eq!(pending_segments(&keys, Some(5)), Vec::<u64>::new());
}

#[test]
fn only_a_failing_store_ends_a_refresh() {
    assert_eq!(judge_fetch(&None), Fetched::Replay);
    assert_eq!(
        judge_fetch(&Some(Error::Store("down".to_string()))),
        Fetched::Fail
    );
    assert_eq!(judge_fetch(&Some(Error::Table)), Fetched::Skip);
    assert_eq!(
        judge_fetch(&Some(Error::NotFound("k".to_string()))),
        Fetched::Skip
    );
}

#[test]
fn a_replayed_timeline_fills_the_index() {
    let value = Record::new(0, 0, 1000, Position::group(0), Position::group(2));
    let mut index = Index::new();
    assert!(apply(&mut index, "video", &Event::Push { index: 0, value }).is_empty());
    assert_eq!(index.group("video", 1).len(), 1);

    let misnumbered = Record::new(5, 0, 1000, Position::group(2), Position::group(4));
    apply(
        &mut index,
        "video",
        &Event::Push {
            index: 1,
            value: misnumbered,
        },
    );
    assert!(index.group("video", 2).is_empty());

    let gone = apply(&mut index, "video", &Event::Skip { from: 0, to: 1 });
    assert_eq!(gone.len(), 1);
    assert!(apply(&mut index, "video", &Event::Pop { from: 0, to: 1 }).is_empty());
}

fn push(index: u64, runs: &[(u64, u64)]) -> rewind::Event {
    rewind::Event::Push {
        index,
        advert: Advert {
            pts: index * 1000,
            tracks: vec![(
                "video".to_string(),
                runs.iter().map(|&(start, end)| Run::new(start, end)).collect(),
            )],
        },
    }
}

fn archive(events: Vec<rewind::Event>) -> Archive {
    let mut archive = Archive::new("video".to_string());
    for event in events {
        archive.apply(event).unwrap();
    }
    archive
}

/// Everything the recording still returns, in order.
fn drain(archive: &mut Archive) -> Vec<u64> {
    let mut groups = Vec::new();
    while let RewindStep::Fetch(_) = archive.step() {
        if let Some(group) = archive.fetched(rewind::Fetched::Found).unwrap() {
            groups.push(group);
        }
    }
    groups
}

#[test]
fn a_seek_returns_the_recording_then_goes_live() {
    let archive = archive(vec![push(0, &[(0, 1)]), push(1, &[(2, 3)]), push(2, &[(4, 4)])]);
    let track = Track::open(archive, 1500);
    assert!(!track.is_live());
    let Source::Archive(mut archive) = track.source else {
        panic!("expected the recording");
    };
    assert_eq!(drain(&mut archive), vec![2, 3, 4]);

    let track = Track {
        source: Source::Archive(archive),
    }
    .caught_up();
    assert!(track.is_live());
    let (track, floor) = track.subscribed();
    assert_eq!(floor, Some(5));
    assert!(matches!(track.source, Source::Live));
}

#[test]
fn missing_groups_and_expired_records_are_skipped() {
    let mut archive = archive(vec![push(0, &[(0, 3)]), push(1, &[(6, 7)])]);
    assert!(archive.seek(0));
    assert_eq!(archive.step(), RewindStep::Fetch(0));
    assert_eq!(archive.step(), RewindStep::Await(0));
    assert_eq!(archive.fetched(rewind::Fetched::Missing), Ok(None));
    archive
        .apply(rewind::Event::Pop { from: 0, to: 1 })
        .unwrap();
    assert_eq!(drain(&mut archive), vec![6, 7], "the retained window");
    assert_eq!(archive.step(), RewindStep::CaughtUp);

    archive.apply(push(2, &[(8, 8)])).unwrap();
    assert_eq!(archive.step(), RewindStep::Fetch(8));
    assert_eq!(
        archive.fetched(rewind::Fetched::Failed("reset".to_string())),
        Err(Error::Moq("reset".to_string()))
    );
    assert_eq!(archive.finish(), 9);
}

#[test]
fn an_unrecorded_track_starts_live() {
    let track = Track::open(Archive::new("chat".to_string()), 0);
    assert!(track.is_live());
    let (_, floor) = track.subscribed();
    assert_eq!(floor, None);
    assert_eq!(subscription(None).start, None);
    let from = subscription(Some(4));
    assert_eq!(from.start, Some(Position::group(4)));
    assert_eq!(from.max_age, Some(Duration::from_secs(u32::MAX as u64)));
}

#[test]
fn a_failing_timeline_is_reported() {
    let mut archive = Archive::new("video".to_string());
    assert_eq!(
        archive.apply(rewind::Event::Failed("gone".to_string())),
        Err(Error::Timeline("gone".to_string()))
    );
    assert_eq!(archive.apply(rewind::Event::Ended), Ok(()));
    assert_eq!(archive.apply(rewind::Event::Other), Ok(()));
}

#[test]
fn a_seek_counts_in_the_timelines_units() {
    let events = || vec![push(0, &[(0, 1)]), push(1, &[(2, 3)]), push(2, &[(4, 4)])];
    let rewind = Rewind::new(1000);
    // 1.5 seconds, in microseconds.
    let track = rewind
        .seek(archive(events()), Timestamp::from_micros(1_500_000))
        .unwrap();
    let Source::Archive(mut recorded) = track.source else {
        panic!("the recording holds it");
    };
    assert_eq!(drain(&mut recorded), vec![2, 3, 4]);

    // Before the window: its oldest segment.
    let track = rewind.seek(archive(events()), Timestamp::from_millis(0)).unwrap();
    let Source::Archive(mut recorded) = track.source else {
        panic!("the recording holds it");
    };
    assert_eq!(drain(&mut recorded), vec![0, 1, 2, 3, 4]);

    assert!(matches!(
        Rewind::new(0).seek(archive(events()), Timestamp::from_millis(0)),
        Err(Error::Timescale(0))
    ));
    assert!(matches!(
        rewind.seek(archive(events()), Timestamp::new(u64::MAX, 1)),
        Err(Error::Overflow)
    ));
    let unnamed = rewind
        .seek(Archive::new("audio".to_string()), Timestamp::from_millis(0))
        .unwrap();
    assert!(unnamed.is_live());
}

#[test]
fn the_cache_is_bounded_by_the_config() {
    let timelines = vec![("video".to_string(), "video.timeline.z".to_string())];
    let config = Config::new(timelines.clone());
    assert_eq!(config.timelines, timelines);
    assert_eq!(config.cache, 64 * 1024 * 1024);
    let config = config.with_cache(1);
    assert_eq!((config.timelines, config.cache), (timelines, 1));
}
