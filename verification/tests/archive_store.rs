use moq_media::archive::error::Error;
use moq_media::archive::id::ID_MAX;
use moq_media::archive::info::Info;
use moq_media::archive::path::{Key, Path};
use moq_media::archive::store::{settle, timelines, Entry, Meta, Query, Store};

fn memory() -> Store<()> {
    Store::new((), Path::parse("rec").unwrap())
}

fn meta(location: &str, size: u64) -> Meta {
    Meta {
        location: Path::parse(location).unwrap(),
        size,
    }
}

#[test]
fn timescale_bounds() {
    assert!(Info::new(0, 1).is_ok());
    assert!(Info::new(0, ID_MAX).is_ok());
    assert!(matches!(Info::new(0, 0), Err(Error::Timescale(0))));
    assert!(matches!(Info::new(0, ID_MAX + 1), Err(Error::Timescale(_))));
}

#[test]
fn an_info_is_compact_json() {
    let info = Info::new(0, 1_000_000).unwrap();
    assert_eq!(
        info.encode().unwrap(),
        r#"{"version":1,"priority":0,"timescale":1000000}"#
    );
    let value: serde_json::Value = serde_json::from_str(&info.encode().unwrap()).unwrap();
    assert_eq!(value["version"].as_u64(), Some(1));
    assert_eq!(value["priority"].as_u64(), Some(0));
    assert_eq!(value["timescale"].as_u64(), Some(1_000_000));

    let unknown = Info { version: 2, ..info };
    assert_eq!(unknown.encode(), Err(Error::Version(2)));
    assert_eq!(unknown.validate(), Err(Error::Version(2)));
}

#[test]
fn an_existing_info_must_agree() {
    let info = Info::new(3, 90_000).unwrap();
    assert_eq!(info.reconcile(&info), Ok(()));
    assert_eq!(
        info.reconcile(&Info::new(4, 90_000).unwrap()),
        Err(Error::Priority {
            existing: 4,
            intended: 3
        })
    );
    assert_eq!(
        info.reconcile(&Info::new(3, 1000).unwrap()),
        Err(Error::TimescaleMismatch {
            existing: 1000,
            intended: 90_000
        })
    );
}

#[test]
fn directory_results_are_not_silently_dropped() {
    let store = memory();
    let err = store
        .entries(&vec![Path::parse("rec/video").unwrap()], Vec::new())
        .unwrap_err();
    assert_eq!(err, Error::Directory("rec/video".to_string()));
}

#[test]
fn listed_objects_become_keys() {
    let store = memory();
    let entries = store
        .entries(
            &Vec::new(),
            vec![
                meta("rec/video/.info", 40),
                meta("rec/video/segments/0000000000000000003", 9),
            ],
        )
        .unwrap();
    assert_eq!(
        entries,
        vec![
            Entry {
                key: Key::info("video".to_string()).unwrap(),
                size: 40
            },
            Entry {
                key: Key::segments("video".to_string(), 3).unwrap(),
                size: 9
            },
        ]
    );
    assert_eq!(
        store.entries(&Vec::new(), vec![meta("rec/video/stray", 1)]),
        Err(Error::Path("rec/video/stray".to_string()))
    );
}

#[test]
fn a_streaming_listing_is_recording_relative() {
    let store = memory();
    let listing = store.list(&Query::new()).unwrap();
    assert_eq!(listing.prefix.unwrap().as_str(), "rec");
    assert!(listing.offset.is_none());

    let after = Key::segments("video".to_string(), 2).unwrap();
    let query = Query::segments("video").unwrap().after(&after).unwrap();
    let listing = store.list(&query).unwrap();
    assert_eq!(listing.prefix.unwrap().as_str(), "rec/video/segments");
    assert_eq!(
        listing.offset.unwrap().as_str(),
        "rec/video/segments/0000000000000000002"
    );
    assert_eq!(
        store.list(&query.next("token".to_string())),
        Err(Error::Pagination)
    );
}

#[test]
fn an_empty_prefix_lists_everything() {
    let store = Store::new((), Path::root());
    assert!(store.list(&Query::new()).unwrap().prefix.is_none());
    assert_eq!(store.list_paginated(&Query::new()).prefix, None);
    assert_eq!(store.prefix().as_str(), "");
}

#[test]
fn a_page_excludes_siblings_and_keeps_its_token() {
    let store = memory();
    let query = Query::track("catalog.json").unwrap().page_size(2);
    let request = store.list_paginated(&query);
    assert_eq!(request.prefix.as_deref(), Some("rec/catalog%2Ejson/"));
    assert_eq!(request.offset, None);
    assert_eq!(request.max_keys, Some(2));
    assert_eq!(request.page_token, None);

    let page = store
        .page(
            &query,
            &Vec::new(),
            vec![meta("rec/catalog%2Ejson/.info", 5)],
            Some("more".to_string()),
        )
        .unwrap();
    assert_eq!(page.entries.len(), 1);
    let next = page.next.unwrap();
    let request = store.list_paginated(&next);
    assert_eq!(request.page_token.as_deref(), Some("more"));
    assert_eq!(request.max_keys, Some(2));

    let last = store.page(&query, &Vec::new(), Vec::new(), None).unwrap();
    assert!(last.next.is_none());
}

#[test]
fn a_collision_is_settled_by_the_bytes() {
    let path = Path::parse("rec/video/.info").unwrap();
    assert_eq!(settle(&path, &vec![1, 2], &vec![1, 2]), Ok(()));
    assert_eq!(
        settle(&path, &vec![1, 2], &vec![1, 3]),
        Err(Error::Conflict("rec/video/.info".to_string()))
    );
    assert_eq!(
        settle(&path, &vec![1, 2], &vec![1, 2, 3]),
        Err(Error::Conflict("rec/video/.info".to_string()))
    );
}

#[test]
fn timelines_are_found_among_infos() {
    let entries = vec![
        Entry {
            key: Key::info("video".to_string()).unwrap(),
            size: 1,
        },
        Entry {
            key: Key::info("video.timeline.z".to_string()).unwrap(),
            size: 1,
        },
        Entry {
            key: Key::segments("audio.timeline.z".to_string(), 0).unwrap(),
            size: 1,
        },
    ];
    assert_eq!(
        timelines(&entries),
        vec![("video".to_string(), "video.timeline.z".to_string())]
    );
}

#[test]
fn a_store_names_its_objects() {
    let store = Store::new(7u8, Path::parse("a/b").unwrap());
    assert_eq!(*store.inner(), 7);
    let key = Key::segments("x".to_string(), ID_MAX).unwrap();
    assert_eq!(
        store.path(&key).unwrap().as_str(),
        "a/b/x/segments/0009007199254740991"
    );
    assert_eq!(
        Key::segments("x".to_string(), ID_MAX + 1),
        Err(Error::Id(ID_MAX + 1))
    );
    assert_eq!(Query::track("").unwrap_err(), Error::Track);
}

#[test]
fn errors_read_as_text() {
    let text = |s: &str| s.to_string();
    for (error, message) in [
        (Error::Store(text("down")), "object store: down"),
        (Error::NotFound(text("k")), "not found: k"),
        (Error::Version(9), "unknown version 9"),
        (Error::Id(1 << 53), "9007199254740992 exceeds the recording id range"),
        (Error::Timescale(0), "timescale 0 is outside 1..=9007199254740991"),
        (
            Error::Priority {
                existing: 1,
                intended: 2,
            },
            "priority 1 does not match 2",
        ),
        (
            Error::TimescaleMismatch {
                existing: 10,
                intended: 20,
            },
            "timescale 10 does not match 20",
        ),
        (Error::Empty, "empty object"),
        (Error::Sequence, "group sequences are not strictly ascending"),
        (
            Error::Bounds {
                smallest: 4,
                largest: 3,
            },
            "invalid or mismatched group bounds 4..=3",
        ),
        (Error::Span, "segment does not match its record"),
        (Error::Table, "malformed table"),
        (Error::Overflow, "overflow"),
        (Error::Track, "invalid track name"),
        (Error::Path(text("p")), "invalid path: p"),
        (Error::Directory(text("d")), "directory listing is unsupported: d"),
        (Error::Pagination, "continuation query requires list_paginated"),
        (Error::Conflict(text("c")), "conflicting object: c"),
        (Error::Json(text("j")), "json: j"),
        (Error::Moq(text("m")), "moq: m"),
        (Error::Enrolled(text("video")), "track already enrolled: video"),
        (Error::Source(text("s")), "source: s"),
        (Error::Timeline(text("t")), "timeline: t"),
        (Error::Closed, "writer closed"),
    ] {
        assert_eq!(error.message(), message);
    }
}
