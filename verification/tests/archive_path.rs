use moq_media::archive::error::Error;
use moq_media::archive::id::{check_id, check_range, format_id, parse_id, ID_MAX};
use moq_media::archive::path::{
    groups_offset, groups_prefix, parse_range, range_name, segments_prefix, Key, Path,
};
use moq_media::archive::track::{decode_track, encode_track};

fn path(text: &str) -> Path {
    Path::parse(text).unwrap()
}

#[test]
fn catalog_json_is_percent_encoded() {
    assert_eq!(encode_track("catalog.json").unwrap(), "catalog%2Ejson");
}

#[test]
fn unreserved_bytes_stay_literal() {
    assert_eq!(encode_track("AZaz09_-").unwrap(), "AZaz09_-");
}

#[test]
fn slash_and_dot_prefix_are_encoded() {
    assert_eq!(encode_track(".hidden").unwrap(), "%2Ehidden");
    assert_eq!(encode_track("a/b").unwrap(), "a%2Fb");
}

#[test]
fn hex_is_uppercase() {
    assert_eq!(encode_track(" ").unwrap(), "%20");
    assert_eq!(encode_track("é").unwrap(), "%C3%A9");
}

#[test]
fn empty_track_is_rejected() {
    assert!(matches!(encode_track(""), Err(Error::Track)));
    assert!(matches!(decode_track(""), Err(Error::Track)));
}

#[test]
fn decode_requires_canonical_encoding() {
    assert_eq!(decode_track("catalog%2Ejson").unwrap(), "catalog.json");
    assert!(matches!(decode_track("catalog%2ejson"), Err(Error::Track)));
    assert!(matches!(decode_track("%41"), Err(Error::Track)));
    assert!(matches!(decode_track("a/b"), Err(Error::Track)));
    assert!(matches!(decode_track(".info"), Err(Error::Track)));
}

#[test]
fn decoding_refuses_what_is_not_text() {
    assert!(matches!(decode_track("%FF"), Err(Error::Track)));
    assert!(matches!(decode_track("%"), Err(Error::Track)));
}

#[test]
fn every_name_decodes_to_itself() {
    for name in ["catalog.json", "a/b", "é", "%", "100%2E", "日本", " ", "AZaz09_-"] {
        let encoded = encode_track(name).unwrap();
        assert_eq!(decode_track(&encoded).unwrap(), name);
    }
}

#[test]
fn id_fields_are_19_digits() {
    assert_eq!(format_id(0).unwrap(), "0000000000000000000");
    assert_eq!(format_id(ID_MAX).unwrap(), "0009007199254740991");
    assert_eq!(parse_id("0000000000000000000").unwrap(), 0);
    assert_eq!(parse_id("0009007199254740991").unwrap(), ID_MAX);
}

#[test]
fn ids_outside_the_json_range_are_rejected() {
    assert!(matches!(format_id(ID_MAX + 1), Err(Error::Id(_))));
    assert!(matches!(check_id(u64::MAX), Err(Error::Id(_))));
    assert!(matches!(
        parse_id("0009007199254740992"),
        Err(Error::Id(n)) if n == ID_MAX + 1
    ));
    assert!(matches!(parse_id("5"), Err(Error::Path(_))));
    assert!(matches!(parse_id("000000000000000000X"), Err(Error::Path(_))));
}

#[test]
fn ids_are_checked_and_ranges_ascend() {
    assert_eq!(check_id(ID_MAX), Ok(ID_MAX));
    assert_eq!(check_range(3, 3), Ok(()));
    assert_eq!(
        check_range(4, 3),
        Err(Error::Bounds {
            smallest: 4,
            largest: 3
        })
    );
    assert_eq!(check_range(0, ID_MAX + 1), Err(Error::Id(ID_MAX + 1)));
}

#[test]
fn keys_roundtrip_under_a_prefix() {
    let prefix = path("rec/1");
    for key in [
        Key::info("catalog.json".to_string()).unwrap(),
        Key::groups("video".to_string(), 10, 5).unwrap(),
        Key::segments("timeline.z".to_string(), 0).unwrap(),
        Key::segments("timeline.z".to_string(), ID_MAX).unwrap(),
    ] {
        let path = key.path(&prefix).unwrap();
        assert_eq!(Key::parse(&prefix, &path).unwrap(), key);
    }
}

#[test]
fn encoded_track_is_not_double_encoded() {
    let path = Key::info("catalog.json".to_string())
        .unwrap()
        .path(&path("rec"))
        .unwrap();
    assert_eq!(path.as_str(), "rec/catalog%2Ejson/.info");
}

#[test]
fn inverted_range_is_rejected() {
    assert!(matches!(
        Key::groups("v".to_string(), 1, 2),
        Err(Error::Bounds {
            smallest: 2,
            largest: 1
        })
    ));
}

#[test]
fn groups_offset_has_no_dot() {
    let path = groups_offset(&path("rec"), "video", 5).unwrap();
    assert_eq!(path.as_str(), "rec/video/groups/0000000000000000005");
}

#[test]
fn keys_spell_out_their_place() {
    let prefix = path("rec");
    assert_eq!(
        Key::groups("video".to_string(), 10, 5).unwrap().path(&prefix).unwrap().as_str(),
        "rec/video/groups/0000000000000000010.0000000000000000005"
    );
    assert_eq!(
        Key::segments("a/b".to_string(), 7).unwrap().path(&prefix).unwrap().as_str(),
        "rec/a%2Fb/segments/0000000000000000007"
    );
    assert_eq!(groups_prefix(&prefix, "video").unwrap().as_str(), "rec/video/groups");
    assert_eq!(segments_prefix(&prefix, "video").unwrap().as_str(), "rec/video/segments");
    assert_eq!(Key::info("x".to_string()).unwrap().track(), "x");
}

#[test]
fn a_key_at_the_root_needs_no_prefix() {
    let key = Key::segments("video".to_string(), 3).unwrap();
    let location = key.path(&Path::root()).unwrap();
    assert_eq!(location.as_str(), "video/segments/0000000000000000003");
    assert_eq!(Key::parse(&Path::root(), &location).unwrap(), key);
}

#[test]
fn other_paths_are_not_keys() {
    let prefix = path("rec");
    for text in [
        "elsewhere/video/.info",
        "rec/video",
        "rec/video/other",
        "rec/video/segments/3",
        "rec/video/groups/0000000000000000005",
        "rec/video/groups/0000000000000000005.0000000000000000006",
        "rec/video/segments/0000000000000000003/extra",
    ] {
        assert!(Key::parse(&prefix, &path(text)).is_err(), "{text}");
    }
    assert_eq!(
        Key::parse(&prefix, &path("rec/video")),
        Err(Error::Path("rec/video".to_string()))
    );
}

#[test]
fn paths_drop_outer_slashes_and_refuse_empty_parts() {
    assert_eq!(path("/a/b/").as_str(), "a/b");
    assert_eq!(path("").as_str(), "");
    assert!(matches!(Path::parse("a//b"), Err(Error::Path(p)) if p == "a//b"));
    assert!(matches!(Path::parse("a/../b"), Err(Error::Path(_))));
}

#[test]
fn ids_sort_as_their_numbers() {
    let ids = [0, 1, 9, 10, 99, 100, 4_294_967_296, ID_MAX];
    let fields: Vec<String> = ids.iter().map(|id| format_id(*id).unwrap()).collect();
    let mut sorted = fields.clone();
    sorted.sort();
    assert_eq!(sorted, fields);
    assert!(format_id(9).unwrap() < format_id(10).unwrap());
}

#[test]
fn what_is_parsed_is_written_back() {
    for field in ["0000000000000000000", "0000000000000000042", "0009007199254740991"] {
        assert_eq!(format_id(parse_id(field).unwrap()).unwrap(), field);
    }
    for name in [
        "0000000000000000010.0000000000000000005",
        "0009007199254740991.0000000000000000000",
    ] {
        let (largest, smallest) = parse_range(name).unwrap();
        assert_eq!(range_name(largest, smallest).unwrap(), name);
    }
    for prefix in [Path::root(), path("rec"), path("a/b")] {
        for relative in [
            "catalog%2Ejson/.info",
            "video/groups/0000000000000000010.0000000000000000005",
            "a%2Fb/segments/0000000000000000007",
        ] {
            let location = if prefix.as_str().is_empty() {
                path(relative)
            } else {
                path(&format!("{}/{relative}", prefix.as_str()))
            };
            let key = Key::parse(&prefix, &location).unwrap();
            assert_eq!(key.path(&prefix).unwrap(), location);
        }
    }
}

#[test]
fn the_listing_offset_precedes_what_reaches_it() {
    let prefix = path("rec");
    let offset = groups_offset(&prefix, "video", 10).unwrap();
    for (largest, smallest, reaches) in [(9, 0, false), (10, 10, true), (10, 3, true), (11, 11, true)] {
        let key = Key::groups("video".to_string(), largest, smallest).unwrap();
        let object = key.path(&prefix).unwrap();
        assert_eq!(offset.as_str() < object.as_str(), reaches, "{largest}.{smallest}");
    }
}
