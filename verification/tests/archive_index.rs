use moq_media::archive::id::ID_MAX;
use moq_media::archive::index::{Advert, Index, Run, Span};
use moq_media::archive::reader::index::{Index as RecordIndex, Span as RecordSpan};
use moq_media::archive::timeline::{Position, Record};

fn advert(segment: u64, tracks: &[(&str, &[(u64, u64)])]) -> Advert {
    Advert {
        pts: segment * 1000,
        tracks: tracks
            .iter()
            .map(|(name, ranges)| {
                let runs = ranges.iter().map(|&(start, end)| Run::new(start, end)).collect();
                (name.to_string(), runs)
            })
            .collect(),
    }
}

fn bounds(span: &Span) -> (u64, u64) {
    (span.runs[0].start, span.runs[span.runs.len() - 1].end)
}

#[test]
fn lookup_respects_bounds_and_internal_gaps() {
    let mut index = Index::new();
    index.push(0, &advert(0, &[("audio", &[(0, 2), (5, 6)]), ("video", &[(0, 0)])]));
    index.push(1, &advert(1, &[("audio", &[(7, 9)])]));

    assert_eq!(bounds(index.get("audio", 1).unwrap()), (0, 6));
    assert_eq!(
        index.get("audio", 6).unwrap().runs,
        vec![Run::new(0, 2), Run::new(5, 6)]
    );
    assert!(index.get("audio", 3).is_none(), "internal gap");
    assert_eq!(bounds(index.get("audio", 8).unwrap()), (7, 9));
    assert!(index.get("audio", 10).is_none());
    assert!(index.get("video", 1).is_none());
    assert!(index.get("chat", 0).is_none());
    assert!(index.has_track("video"));
    assert!(!index.has_track("chat"));
}

#[test]
fn next_skips_gaps_and_popped_records() {
    let mut index = Index::new();
    index.push(0, &advert(0, &[("audio", &[(0, 2), (5, 6)])]));
    index.push(1, &advert(1, &[("audio", &[(9, 9)]), ("video", &[(3, 3)])]));

    assert_eq!(index.next("audio", 0), Some(0));
    assert_eq!(index.next("audio", 2), Some(2));
    assert_eq!(index.next("audio", 3), Some(5), "internal gap");
    assert_eq!(index.next("audio", 7), Some(9), "gap between records");
    assert_eq!(index.next("audio", 10), None, "past the newest record");
    assert_eq!(index.next("video", 0), Some(3));
    assert_eq!(index.next("chat", 0), None);

    index.pop(0, 1);
    assert_eq!(
        index.next("audio", 1),
        Some(9),
        "expired groups skip to the retained window"
    );
}

#[test]
fn seek_picks_the_segment_starting_at_or_before() {
    let mut index = Index::new();
    // Records start at segment * 1000.
    index.push(0, &advert(0, &[("video", &[(0, 1)])]));
    index.push(1, &advert(1, &[("audio", &[(0, 0)])]));
    index.push(2, &advert(2, &[("video", &[(4, 5)])]));

    assert_eq!(index.seek("video", 0), Some(0));
    assert_eq!(index.seek("video", 1999), Some(0), "segment 1 has no video");
    assert_eq!(index.seek("video", 2000), Some(4));
    assert_eq!(index.seek("video", u64::MAX), Some(4));
    assert_eq!(index.seek("chat", 0), None);

    index.pop(0, 1);
    assert_eq!(
        index.seek("video", 0),
        Some(4),
        "before the window starts at its oldest span"
    );
}

fn record(sequence: u64, start: Position, end: Position) -> Record {
    Record::new(sequence, sequence * 1000, 1000, start, end)
}

fn at(group: u64) -> Position {
    Position::group(group)
}

#[test]
fn index_pop_evicts_only_the_popped_records() {
    let mut index = Index::new();
    index.push(0, &advert(0, &[("video", &[(0, 1)])]));
    index.push(1, &advert(1, &[("video", &[(2, 3)])]));

    let evicted = index.pop(0, 1);
    assert_eq!(evicted.len(), 1);
    assert_eq!(bounds(&evicted[0].1), (0, 1));
    assert!(index.get("video", 0).is_none());
    assert!(index.get("video", 2).is_some());
    assert!(index.pop(0, 1).is_empty(), "already popped");
    assert!(index.has_track("video"), "a popped track stays known");

    let mut records = RecordIndex::new();
    records.push("video", &record(0, at(0), at(2)));
    records.push("video", &record(1, at(2), at(4)));

    let evicted = records.pop("video", 0, 1);
    assert_eq!(evicted.len(), 1);
    assert_eq!(evicted[0].start, at(0));
    assert!(records.group("video", 0).is_empty());
    assert_eq!(records.group("video", 2).len(), 1);
    assert!(records.pop("video", 0, 1).is_empty(), "already popped");
}

#[test]
fn malformed_and_overlapping_tracks_are_ignored() {
    let mut index = Index::new();
    index.push(0, &advert(0, &[("video", &[(4, 6)]), ("audio", &[(3, 1)])]));
    assert!(index.get("audio", 1).is_none(), "reversed run");

    // Overlapping the earlier video span drops only the video entry.
    index.push(1, &advert(1, &[("video", &[(6, 8)]), ("audio", &[(10, 11)])]));
    assert_eq!(bounds(index.get("video", 6).unwrap()), (4, 6));
    assert!(index.get("video", 7).is_none());
    assert!(index.get("audio", 10).is_some());

    // Unordered runs and IDs past the recording range.
    index.push(
        2,
        &advert(2, &[("chat", &[(5, 6), (1, 2)]), ("data", &[(ID_MAX, ID_MAX + 1)])]),
    );
    assert!(index.get("chat", 5).is_none());
    assert!(index.get("data", ID_MAX).is_none());

    // Popping a record whose track was ignored leaves the earlier span alone.
    index.pop(1, 2);
    assert!(index.get("video", 4).is_some());
}

#[test]
fn lookup_finds_every_span_of_a_group() {
    let mut index = RecordIndex::new();
    index.push("audio", &record(0, at(0), at(3)));
    index.push("audio", &record(1, at(5), at(6)));
    // Group 7 split across two records, then whole groups again.
    index.push("video", &record(0, at(7), Position::new(7, 3)));
    index.push("video", &record(1, Position::new(7, 3), at(9)));

    let sequences =
        |spans: Vec<RecordSpan>| spans.iter().map(|span| span.sequence).collect::<Vec<_>>();
    assert_eq!(sequences(index.group("audio", 1)), vec![0]);
    assert!(index.group("audio", 3).is_empty(), "the gap between records");
    assert_eq!(sequences(index.group("audio", 5)), vec![1]);
    assert!(index.group("audio", 6).is_empty());
    assert_eq!(sequences(index.group("video", 7)), vec![0, 1]);
    assert_eq!(sequences(index.group("video", 8)), vec![1]);
    assert!(index.group("chat", 0).is_empty());
}

#[test]
fn malformed_and_overlapping_records_are_ignored() {
    let mut index = RecordIndex::new();
    index.push("video", &record(0, at(4), at(7)));
    index.push("video", &record(1, at(6), at(9)));
    assert_eq!(index.group("video", 8), Vec::new(), "overlapping the earlier span");
    index.push("video", &record(2, at(3), at(5)));
    assert_eq!(index.group("video", 3), Vec::new(), "overlapping the later span");

    index.push("audio", &record(0, at(3), at(3)));
    assert!(index.group("audio", 3).is_empty(), "an empty span");
    index.push("data", &record(0, at(ID_MAX + 1), at(ID_MAX + 2)));
    assert!(index.group("data", ID_MAX + 1).is_empty(), "past the recording range");
}

#[test]
fn popping_what_was_pushed_leaves_the_rest() {
    let mut index = RecordIndex::new();
    index.push("video", &record(0, at(0), at(2)));
    let before = index.group("video", 1);
    index.push("video", &record(1, at(2), at(4)));
    let popped = index.pop("video", 1, 2);
    assert_eq!(popped.len(), 1);
    assert_eq!(popped[0].sequence, 1);
    assert_eq!(index.group("video", 1), before);
    assert!(index.group("video", 3).is_empty());
}
