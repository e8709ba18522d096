use std::collections::VecDeque;

use moq_media::archive::error::Error;
use moq_media::archive::id::ID_MAX;
use moq_media::archive::path::Key;
use moq_media::archive::recover::{
    check_window_end, clean_up, indexed_track, is_timeline, judge, restated, restates, segment_bounds,
    take_inventory, timeline_name, Fate, Listed, Replay, Resume, Walk,
};
use moq_media::archive::reader::index::Span;
use moq_media::archive::reader::serve::{GroupServe, Step, Write};
use moq_media::archive::reader::timeline::Event;
use moq_media::archive::segment::Object;
use moq_media::archive::timeline::{Position, Record};
use moq_media::archive::writer::commit::{
    advertise, begin, expired_keys, judge_stored, number, timeline_object, ReadGroup, Stored,
};
use moq_media::archive::writer::handle::{handle, Arrival, Next};
use moq_media::archive::writer::retention::{expire, Config, Retention};
use moq_media::archive::writer::run::{outcome, Deletion, Enrollment, Run};
use moq_media::archive::writer::track::{Report, Track};
use moq_media::time::Duration;

fn record(sequence: u64) -> Record {
    Record::new(
        sequence,
        sequence * 1000,
        1000,
        Position::group(sequence),
        Position::group(sequence + 1),
    )
}

fn read(track: &mut Track, arrival: Arrival) -> Next {
    track.handle(arrival).unwrap()
}

fn frame(sequence: u64, timestamp: u64) -> Arrival {
    Arrival::Frame {
        sequence,
        timestamp: Some(timestamp),
        payload: format!("{sequence}@{timestamp}").into_bytes(),
    }
}

/// Deliver one complete group with a frame at each timestamp.
fn group(track: &mut Track, sequence: u64, timestamps: &[u64]) -> Vec<Report> {
    let next = read(track, Arrival::Group(sequence));
    assert!(next.group);
    let mut reports = next.reports;
    if !next.frame {
        return reports;
    }
    for &timestamp in timestamps {
        let next = read(track, frame(sequence, timestamp));
        assert!(next.frame);
        reports.extend(next.reports);
    }
    reports.extend(read(track, Arrival::GroupEnded(sequence)).reports);
    reports
}

fn placed(group: u64, index: u64, timestamp: u64) -> Report {
    Report::Frame {
        position: Position::new(group, index),
        timestamp,
        first: index == 0,
    }
}

#[test]
fn accepted_groups_may_complete_out_of_order() {
    let mut video = Track::new("video".to_string(), None);
    assert!(read(&mut video, Arrival::Group(0)).frame);
    assert_eq!(read(&mut video, frame(0, 0)).reports, vec![placed(0, 0, 0)]);
    assert_eq!(group(&mut video, 1, &[1000]), vec![], "group 1 waits for group 0");
    assert_eq!(group(&mut video, 2, &[2000]), vec![]);

    assert_eq!(read(&mut video, frame(0, 500)).reports, vec![placed(0, 1, 500)]);
    let next = read(&mut video, Arrival::GroupEnded(0));
    assert!(!next.frame && !next.group);
    assert_eq!(
        next.reports,
        vec![
            Report::FinishGroup(0),
            placed(1, 0, 1000),
            Report::FinishGroup(1),
            placed(2, 0, 2000),
            Report::FinishGroup(2),
        ]
    );
    let positions: Vec<_> = video.frames.iter().map(|placed| placed.position).collect();
    assert_eq!(
        positions,
        vec![
            Position::new(0, 0),
            Position::new(0, 1),
            Position::group(1),
            Position::group(2)
        ]
    );
}

#[test]
fn decreasing_arrivals_are_refused() {
    let mut video = Track::new("video".to_string(), None);
    assert_eq!(
        group(&mut video, 0, &[0]),
        vec![placed(0, 0, 0), Report::FinishGroup(0)]
    );
    assert_eq!(
        group(&mut video, 2, &[1000]),
        vec![placed(2, 0, 1000), Report::FinishGroup(2)]
    );
    assert_eq!(group(&mut video, 1, &[500]), vec![]);
    assert_eq!(group(&mut video, 2, &[500]), vec![], "a duplicate");
    assert_eq!(
        group(&mut video, 3, &[2000]),
        vec![placed(3, 0, 2000), Report::FinishGroup(3)]
    );
}

#[test]
fn an_unrepresentable_group_fails_the_recording() {
    let mut video = Track::new("video".to_string(), None);
    group(&mut video, 0, &[0]);
    // One past the recording's largest group ID.
    assert_eq!(
        video.handle(Arrival::Group(1 << 53)).unwrap_err(),
        Error::Source(format!(
            "track video group {}: {}",
            1u64 << 53,
            Error::Id(1 << 53).message()
        ))
    );
}

#[test]
fn an_unrepresentable_timestamp_fails_the_recording() {
    let mut video = Track::new("video".to_string(), None);
    read(&mut video, Arrival::Group(0));
    assert_eq!(
        video.handle(frame(0, ID_MAX + 1)).unwrap_err(),
        Error::Source(
            "track video group 0: 9007199254740992 exceeds the recording id range".to_string()
        )
    );
    let unconverted = Arrival::Frame {
        sequence: 0,
        timestamp: None,
        payload: Vec::new(),
    };
    assert_eq!(
        video.handle(unconverted).unwrap_err(),
        Error::Source("track video group 0: overflow".to_string())
    );
}

#[test]
fn a_decreasing_timestamp_fails_the_recording() {
    let mut video = Track::new("video".to_string(), None);
    group(&mut video, 0, &[1000]);
    read(&mut video, Arrival::Group(1));
    assert_eq!(
        video.handle(frame(1, 500)).unwrap_err(),
        Error::Source("track video group 1: timestamp 500 precedes 1000".into())
    );
}

#[test]
fn a_read_reaches_only_its_own_track() {
    let mut tracks = vec![
        Track::new("video".to_string(), None),
        Track::new("audio".to_string(), None),
    ];
    assert!(handle(&mut tracks, "audio", Arrival::Group(4)).unwrap().frame);
    assert!(tracks[0].accepted.is_empty());
    assert_eq!(tracks[1].accepted.len(), 1);

    let gone = handle(&mut tracks, "chat", Arrival::Group(4)).unwrap();
    assert!(!gone.group && !gone.frame && gone.reports.is_empty());

    handle(&mut tracks, "video", Arrival::Ended).unwrap();
    assert!(!tracks[0].subscribed);
    assert!(tracks[1].subscribed);
    let unknown = handle(&mut tracks, "audio", frame(9, 0)).unwrap();
    assert!(!unknown.frame, "a group that was never accepted");
}

#[test]
fn a_commit_takes_exactly_the_frames_of_its_record() {
    let mut video = Track::new("video".to_string(), None);
    group(&mut video, 0, &[0, 500]);
    group(&mut video, 1, &[1000]);
    assert!(video.commit().unwrap().is_none(), "no record is closed yet");

    video.queue(record(0));
    let (committed, object) = video.commit().unwrap().unwrap();
    assert_eq!(committed, record(0));
    assert_eq!(object.groups.len(), 1);
    assert_eq!(object.groups[0].sequence, 0);
    assert_eq!(object.groups[0].frames[1].timestamp, 500);
    assert_eq!(object.groups[0].frames[1].payload, b"0@500");
    object.check_span(committed.start, committed.end).unwrap();

    video.queue(record(1));
    assert!(video.commit().unwrap().is_none(), "one commit at a time");
    video.committed();
    let (_, object) = video.commit().unwrap().unwrap();
    object.check_span(Position::group(1), Position::group(2)).unwrap();
}

#[test]
fn a_record_without_its_frames_cannot_be_committed() {
    let mut video = Track::new("video".to_string(), None);
    group(&mut video, 0, &[0]);
    video.queue(record(3));
    assert!(video.commit().is_err());
}

#[test]
fn a_track_finishes_once_everything_is_durable() {
    let mut video = Track::new("video".to_string(), None);
    group(&mut video, 0, &[0]);
    assert!(!video.settle());
    read(&mut video, Arrival::Ended);
    assert!(video.settle(), "nothing more can arrive");
    assert!(!video.settle(), "only once");
    video.queue(record(0));
    assert!(!video.finished());
    video.commit().unwrap().unwrap();
    assert!(!video.finished());
    video.committed();
    assert!(video.finished());
}

#[test]
fn removing_a_track_drops_what_was_not_reported() {
    let mut audio = Track::new("audio".to_string(), None);
    group(&mut audio, 0, &[0]);
    read(&mut audio, Arrival::Group(1));
    read(&mut audio, frame(1, 1000));
    group(&mut audio, 2, &[2000]);
    audio.remove();
    assert!(audio.accepted.is_empty());
    assert_eq!(audio.frames.len(), 2, "what arrived in order is kept");
    assert!(audio.settle());
}

#[test]
fn a_resumed_track_refuses_what_is_stored() {
    let resume = Resume {
        start: 0,
        end: 4,
        records: vec![Record::new(3, 3000, 500, Position::group(6), Position::new(7, 2))],
        sequence: 9,
    };
    let mut begun = begin("log".to_string(), Some(resume));
    assert_eq!(begun.next, 4);
    assert_eq!(begun.offset, 9);
    assert_eq!(begun.window.len(), 1);
    assert_eq!(begun.track.floor, Some(Position::new(7, 2)));

    assert_eq!(group(&mut begun.track, 6, &[0]), vec![], "stored whole");
    // The head of the group it stopped inside is already stored.
    assert_eq!(
        group(&mut begun.track, 7, &[0, 1, 2]),
        vec![placed(7, 2, 2), Report::FinishGroup(7)]
    );

    let mut fresh = begin("log".to_string(), None);
    assert_eq!((fresh.next, fresh.offset), (0, 0));
    assert_eq!(fresh.track.floor, None);
    assert_eq!(
        group(&mut fresh.track, 0, &[0]),
        vec![placed(0, 0, 0), Report::FinishGroup(0)],
        "nothing was seen before"
    );
}

#[test]
fn enrollment_is_refused_for_duplicates_and_timelines() {
    let mut enrollment = Enrollment::new();
    enrollment.begin("video").unwrap();
    assert_eq!(enrollment.enrolling(), 1);
    enrollment.end("video", true);
    assert_eq!(enrollment.enrolling(), 0);
    assert_eq!(enrollment.begin("video"), Err(Error::Enrolled("video".into())));
    let timeline = timeline_name("video");
    assert_eq!(enrollment.begin(&timeline), Err(Error::Enrolled(timeline)));

    enrollment.begin("audio").unwrap();
    enrollment.end("audio", false);
    enrollment.begin("audio").unwrap();
}

#[test]
fn the_recording_stops_only_when_everything_is_done() {
    let mut run = Run::new(Vec::new(), 0);
    assert!(!run.turn(0, 0, 0).refuse, "the source is still open");
    run.source_closed();
    assert!(!run.turn(1, 0, 0).refuse, "a track is live");
    assert!(!run.turn(0, 1, 0).refuse, "a commit is in flight");
    assert!(!run.turn(0, 0, 1).refuse, "an enrollment is about to arrive");
    let turn = run.turn(0, 0, 0);
    assert!(turn.refuse && !turn.stop && turn.commands && turn.enrolling);
    run.commands_ended();
    assert!(run.turn(0, 0, 0).stop);
}

#[test]
fn deletions_leave_in_order() {
    let key = |segment| Key::segments("video".to_string(), segment).unwrap();
    let mut run = Run::new(vec![key(0)], 5);
    run.expired(Vec::new(), 6);
    run.expired(vec![key(1)], 7);
    assert_eq!(run.turn(0, 0, 0).deadline, Some(5));
    let Deletion { deadline, keys } = run.due().unwrap();
    assert_eq!((deadline, keys), (5, vec![key(0)]));
    assert_eq!(run.due().unwrap().keys, vec![key(1)]);
    assert!(run.due().is_none());
    assert_eq!(run.turn(0, 0, 0).deadline, None);
}

#[test]
fn a_recording_ends_with_its_sources_error() {
    assert_eq!(outcome(None), Ok(()));
    assert_eq!(
        outcome(Some("aborted".to_string())),
        Err(Error::Source("aborted".to_string()))
    );
}

#[test]
fn retention_keeps_the_window_and_the_newest_record() {
    let retention = Retention::new(Duration::from_secs(2), Duration::from_secs(0));
    let mut window: VecDeque<Record> = (0..5).map(record).collect();
    window.push_back(Record::new(
        5,
        5000,
        500,
        Position::group(5),
        Position::group(6),
    ));
    let expired = expire(&retention, &mut window);
    let sequences = |records: &[Record]| records.iter().map(|r| r.sequence).collect::<Vec<_>>();
    assert_eq!(sequences(&expired), vec![0, 1, 2]);
    // Records 3 and 4 hold two seconds; the partial final record 5 is always kept.
    assert_eq!(sequences(window.make_contiguous()), vec![3, 4, 5]);
    assert!(expire(&retention, &mut window).is_empty(), "it settles at once");

    let mut single: VecDeque<Record> = vec![record(0)].into();
    let now = Retention::new(Duration::from_secs(0), Duration::from_secs(0));
    assert!(expire(&now, &mut single).is_empty());
    assert_eq!(single.len(), 1);
}

#[test]
fn retention_rounds_up_to_milliseconds() {
    // 1000.001 ms of content must stay, and records 1.. hold exactly 1000 ms.
    let retention = Retention::new(Duration::from_micros(1_000_001), Duration::from_secs(0));
    let mut window: VecDeque<Record> = vec![record(0), record(1)].into();
    assert!(expire(&retention, &mut window).is_empty());
    let exact = Retention::new(Duration::from_millis(1000), Duration::from_secs(0));
    assert_eq!(expire(&exact, &mut window).len(), 1);
}

#[test]
fn retention_keeps_a_window_finer_than_a_microsecond() {
    let short = |sequence: u64, pts: u64| {
        Record::new(
            sequence,
            pts,
            1,
            Position::group(sequence),
            Position::group(sequence + 1),
        )
    };
    // Record 1 alone holds one millisecond, a nanosecond short of the window.
    let longer = Retention::new(Duration { nanos: 1_000_001 }, Duration::from_secs(0));
    let mut window: VecDeque<Record> = vec![short(0, 0), short(1, 1)].into();
    assert!(expire(&longer, &mut window).is_empty());
    assert_eq!(window.len(), 2);

    // With a third record the last two hold two milliseconds, and the first can go.
    window.push_back(short(2, 2));
    assert_eq!(expire(&longer, &mut window).len(), 1);
    assert_eq!(window.len(), 2);

    let exact = Retention::new(Duration { nanos: 1_000_000 }, Duration::from_secs(0));
    assert_eq!(expire(&exact, &mut window).len(), 1);
    assert_eq!(window.len(), 1);

    let longest = Retention::new(Duration { nanos: u128::MAX }, Duration::from_secs(0));
    let mut window: VecDeque<Record> = vec![short(0, 0), short(1, u64::MAX)].into();
    assert!(expire(&longest, &mut window).is_empty());
}

#[test]
fn a_commit_is_numbered_advertised_and_expired() {
    assert_eq!(number(record(9), 4).sequence, 4);
    assert_eq!(judge_stored(true), Stored::Advertise);
    assert_eq!(judge_stored(false), Stored::Drop);

    let retention = Retention::new(Duration::from_secs(1), Duration::from_secs(0));
    let mut window: VecDeque<Record> = vec![record(0)].into();
    let expired = advertise(&mut window, &Some(retention), record(1));
    assert_eq!(expired, vec![record(0)]);
    assert_eq!(window, vec![record(1)]);
    let none = advertise(&mut window, &None, record(2));
    assert!(none.is_empty());
    assert_eq!(window.len(), 2);

    assert_eq!(
        expired_keys("video", &expired).unwrap(),
        vec![Key::segments("video".to_string(), 0).unwrap()]
    );
    assert_eq!(
        expired_keys("video", &vec![record(ID_MAX + 1)]),
        Err(Error::Id(ID_MAX + 1))
    );
}

#[test]
fn timeline_groups_are_stamped_with_their_records_time() {
    let group = |sequence| ReadGroup {
        sequence,
        payloads: vec![vec![1], vec![2, 3]],
    };
    let object = timeline_object(vec![group(0), group(1)], Some(70), 5).unwrap();
    assert_eq!(object.frame_start, 0);
    assert_eq!(object.groups[0].sequence, 5);
    assert_eq!(object.groups[1].sequence, 6);
    assert_eq!(object.groups[1].frames[1].payload, vec![2, 3]);
    assert!(object
        .groups
        .iter()
        .all(|group| group.frames.iter().all(|frame| frame.timestamp == 70)));

    assert_eq!(
        timeline_object(vec![group(0)], None, 0),
        Err(Error::Overflow)
    );
    assert_eq!(
        timeline_object(vec![group(1)], Some(0), u64::MAX),
        Err(Error::Overflow)
    );
    // The first group that cannot be stored says why.
    assert_eq!(
        timeline_object(vec![group(0), group(ID_MAX), group(u64::MAX)], Some(0), 1),
        Err(Error::Id(ID_MAX + 1))
    );
}

#[test]
fn timelines_are_named_after_their_track() {
    assert_eq!(timeline_name("video"), "video.timeline.z");
    assert!(is_timeline("video.timeline.z"));
    assert!(!is_timeline("video"));
    assert_eq!(indexed_track("video.timeline.z").as_deref(), Some("video"));
    assert_eq!(indexed_track("video"), None);
}

#[test]
fn a_stored_timeline_has_no_gap() {
    assert_eq!(segment_bounds("t", &vec![4, 3, 5]), Ok((3, 5)));
    assert!(matches!(
        segment_bounds("t", &vec![3, 5]),
        Err(Error::Timeline(_))
    ));
    assert_eq!(check_window_end("t", 5, 6), Ok(()));
    assert!(matches!(check_window_end("t", 5, 7), Err(Error::Timeline(_))));
    assert_eq!(check_window_end("t", u64::MAX, 0), Err(Error::Overflow));
    assert!(restates(false, 9, 3));
    assert!(restates(true, 3, 3));
    assert!(!restates(true, 4, 3));
}

#[test]
fn a_replayed_window_is_recovered_or_refused() {
    let mut replay = Replay::new();
    replay.push(1, record(1));
    replay.push(0, record(0));
    replay.push(2, record(2));
    replay.drop_range(0, 1);
    let resume = replay.finish("t", 1, 3, true, Some(8)).unwrap();
    assert_eq!(resume.records, vec![record(1), record(2)]);
    assert_eq!((resume.start, resume.end, resume.sequence), (1, 3, 9));
    assert_eq!(resume.floor(), Some(Position::group(3)));

    assert_eq!(
        replay.finish("t", 0, 3, true, None).unwrap_err(),
        Error::Timeline("cannot recover t window 0..3 from the retained checkpoints".to_string())
    );
    assert!(replay.finish("t", 0, 3, false, None).is_ok(), "a suffix is enough");
    assert_eq!(
        replay.finish("t", 1, 3, true, Some(u64::MAX)).unwrap_err(),
        Error::Overflow
    );
    // A window that ends before its records do is refused.
    assert_eq!(
        replay.finish("t", 0, 0, false, None).unwrap_err(),
        Error::Timeline("cannot recover t window 0..0 from the retained checkpoints".to_string())
    );
}

#[test]
fn stored_objects_are_judged_on_a_restart() {
    let resume = Resume {
        start: 1,
        end: 3,
        records: vec![record(1), record(2)],
        sequence: 0,
    };
    assert_eq!(judge(Some(&resume), true, 3), Fate::Uncommitted);
    assert_eq!(judge(Some(&resume), true, 0), Fate::Orphan);
    assert_eq!(judge(Some(&resume), true, 2), Fate::Keep);
    assert_eq!(judge(Some(&resume), false, 0), Fate::Keep);
    assert_eq!(judge(None, false, 0), Fate::Uncommitted);
}

#[test]
fn the_inventory_lists_each_track_once() {
    let key = |track: &str, segment| Key::segments(track.to_string(), segment).unwrap();
    let listed = take_inventory(&vec![
        key("b", 0),
        key("a", 1),
        Key::info("a".to_string()).unwrap(),
        key("a", 0),
        key("aa", 4),
    ]);
    let listed: Vec<_> = listed.into_iter().map(|l| (l.track, l.ids)).collect();
    assert_eq!(
        listed,
        vec![
            ("a".to_string(), vec![1, 0]),
            ("aa".to_string(), vec![4]),
            ("b".to_string(), vec![0])
        ]
    );
}

#[test]
fn a_recorded_frame_is_read_back_at_its_index() {
    // Resumed inside group 7, so its first two frames are stored already.
    let mut log = Track::new("log".to_string(), Some(Position::new(7, 2)));
    group(&mut log, 7, &[0, 1, 2, 3]);
    group(&mut log, 8, &[4, 5]);
    let record = Record::new(4, 2, 4, Position::new(7, 2), Position::group(9));
    log.queue(record);
    let (record, object) = log.commit().unwrap().unwrap();

    let stored = Object::decode(&object.encode().unwrap()).unwrap();
    stored.check_span(record.start, record.end).unwrap();
    let spans = vec![Span::new(&record).unwrap()];

    assert!(GroupServe::open(spans.clone(), 7, 1).is_none(), "an earlier record held it");
    let mut serve = GroupServe::open(spans.clone(), 7, 3).unwrap();
    assert_eq!(serve.poll(false), Step::Load(spans[0]));
    let Write::Frames { group, from, to } = serve.loaded(&stored) else {
        panic!("the span holds the frame");
    };
    let frames = &stored.groups[group].frames[from..to];
    assert_eq!(frames.len(), 1);
    assert_eq!(frames[0].payload, b"7@3");

    let mut serve = GroupServe::open(spans.clone(), 8, 0).unwrap();
    assert_eq!(serve.poll(false), Step::Load(spans[0]));
    let Write::Frames { group, from, to } = serve.loaded(&stored) else {
        panic!("the span holds the group");
    };
    let payloads: Vec<&[u8]> = stored.groups[group].frames[from..to]
        .iter()
        .map(|frame| frame.payload.as_slice())
        .collect();
    assert_eq!(payloads, vec![&b"8@4"[..], b"8@5"]);
    assert_eq!(serve.poll(false), Step::Finish);
}

#[test]
fn a_recording_keeps_everything_unless_told_otherwise() {
    let retention = Retention::new(Duration::from_secs(2), Duration::from_secs(3600));
    let config = Config::new(1u8).with_timeline(2);
    assert_eq!((config.timeline, config.retention), (2, None));
    let config = config.with_retention(Some(retention));
    assert_eq!((config.timeline, config.retention), (2, Some(retention)));
    assert_eq!(config.with_retention(None).retention, None);
}

#[test]
fn a_restart_deletes_what_no_record_names() {
    let keys = vec![
        Key::segments("video".to_string(), 0).unwrap(),
        Key::segments("video.timeline.z".to_string(), 2).unwrap(),
        Key::segments("audio".to_string(), 7).unwrap(),
        Key::segments("video".to_string(), 2).unwrap(),
        Key::info("video".to_string()).unwrap(),
        Key::segments("video".to_string(), 3).unwrap(),
    ];
    let listed = take_inventory(&keys);
    let tracks = vec![(
        "video".to_string(),
        Resume {
            start: 1,
            end: 3,
            records: vec![record(1), record(2)],
            sequence: 0,
        },
    )];

    // Segment 0 outlived its record; segment 3 and the track without a timeline were never committed.
    let cleanup = clean_up(&listed, &tracks, true).unwrap();
    assert_eq!(cleanup.orphans, vec![keys[0].clone()]);
    assert_eq!(cleanup.uncommitted, vec![keys[2].clone(), keys[5].clone()], "in track order");
    assert!(clean_up(&listed, &tracks, false).unwrap().orphans.is_empty());

    let unnamed = vec![Listed {
        track: String::new(),
        ids: vec![0],
    }];
    assert!(matches!(clean_up(&unnamed, &tracks, true), Err(Error::Track)));
    let large = vec![Listed {
        track: "video".to_string(),
        ids: vec![ID_MAX + 1],
    }];
    assert!(matches!(clean_up(&large, &tracks, true), Err(Error::Id(id)) if id == ID_MAX + 1));
}

#[test]
fn recovery_walks_back_to_a_checkpoint_that_restates_the_window() {
    let mut walk = Walk::new(2, 9, true);
    assert_eq!(walk.next, Some(9));
    // The newest checkpoint retains from record 4 on but restates only from 8 on.
    walk.loaded(4, 8);
    assert_eq!((walk.next, walk.needed), (Some(8), Some(4)));
    walk.loaded(3, 5);
    assert_eq!((walk.next, walk.needed), (Some(7), Some(4)));
    walk.loaded(2, 4);
    assert_eq!(walk.next, None);

    // An archive needs only the newest checkpoint.
    let mut walk = Walk::new(2, 9, false);
    walk.loaded(4, 8);
    assert_eq!(walk.next, None);

    // There is nothing before the oldest segment.
    let mut walk = Walk::new(9, 9, true);
    walk.loaded(4, 8);
    assert_eq!(walk.next, None);
}

#[test]
fn a_checkpoint_restates_from_where_its_skip_ends() {
    assert_eq!(restated(4, None), 4);
    assert_eq!(restated(4, Some(&Event::Skip { from: 4, to: 8 })), 8);
    assert_eq!(restated(4, Some(&Event::Pop { from: 0, to: 2 })), 4);
    let pushed = Event::Push {
        index: 6,
        value: record(6),
    };
    assert_eq!(restated(4, Some(&pushed)), 4);
}

#[test]
fn a_replay_follows_the_timeline() {
    let mut replay = Replay::new();
    for index in 0..5 {
        replay.apply(Event::Push {
            index,
            value: record(index),
        });
    }
    replay.apply(Event::Pop { from: 0, to: 2 });
    replay.apply(Event::Skip { from: 2, to: 3 });
    let resume = replay.finish("video.timeline.z", 3, 5, true, Some(7)).unwrap();
    let kept: Vec<u64> = resume.records.iter().map(|record| record.sequence).collect();
    assert_eq!(kept, vec![3, 4]);
    assert_eq!(resume.sequence, 8);
}
