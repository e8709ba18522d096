use moq_media::archive::error::Error;
use moq_media::archive::id::ID_MAX;
use moq_media::archive::segment::{Frame, Group, Object, SEGMENT_VERSION as VERSION};
use moq_media::archive::timeline::Position;
use moq_media::archive::varint::{read_varint, write_varint};

fn frame(timestamp: u64, payload: &'static [u8]) -> Frame {
    Frame {
        timestamp,
        payload: payload.to_vec(),
    }
}

fn object(groups: Vec<Group>) -> Object {
    Object::new(groups)
}

fn group(sequence: u64, frames: usize) -> Group {
    Group {
        sequence,
        frames: (0..frames as u64).map(|i| frame(i, b"x")).collect(),
    }
}

#[test]
fn roundtrip_consecutive_and_sparse() {
    let original = object(vec![
        Group {
            sequence: 0,
            frames: vec![frame(0, b"a"), frame(1, b"bb")],
        },
        Group {
            sequence: 1,
            frames: vec![frame(2, b"ccc")],
        },
        Group {
            sequence: 4,
            frames: vec![frame(ID_MAX, b"d")],
        },
    ]);
    let bytes = original.encode().unwrap();
    assert_eq!(Object::decode(&bytes[..]).unwrap(), original);
    assert_eq!(original.start().unwrap(), Position::group(0));

    let split = Object {
        frame_start: 300,
        ..original
    };
    assert_eq!(Object::decode(&split.encode().unwrap()).unwrap(), split);
    assert_eq!(split.start().unwrap(), Position::new(0, 300));
}

#[test]
fn first_id_is_absolute_then_minus_one_deltas() {
    let bytes = object(vec![
        Group {
            sequence: 5,
            frames: vec![frame(0, b"x")],
        },
        Group {
            sequence: 6,
            frames: vec![frame(1, b"y")],
        },
        Group {
            sequence: 10,
            frames: vec![frame(2, b"z")],
        },
    ])
    .encode()
    .unwrap();

    let mut buf = &bytes[..];
    assert_eq!(read_varint(&mut buf).unwrap(), 2); // version
    assert_eq!(read_varint(&mut buf).unwrap(), 0); // frame start
    assert_eq!(read_varint(&mut buf).unwrap(), 3); // group count
    assert_eq!(read_varint(&mut buf).unwrap(), 5); // absolute
    assert_eq!(read_varint(&mut buf).unwrap(), 1); // one frame
    read_varint(&mut buf).unwrap(); // timestamp
    read_varint(&mut buf).unwrap(); // offset
    read_varint(&mut buf).unwrap(); // length
    assert_eq!(read_varint(&mut buf).unwrap(), 0); // consecutive
    assert_eq!(read_varint(&mut buf).unwrap(), 1);
    read_varint(&mut buf).unwrap();
    read_varint(&mut buf).unwrap();
    read_varint(&mut buf).unwrap();
    assert_eq!(read_varint(&mut buf).unwrap(), 3); // 10 - 6 - 1
}

#[test]
fn empty_object_is_rejected() {
    assert!(matches!(object(vec![]).encode(), Err(Error::Empty)));
    let mut bytes = Vec::new();
    write_varint(&mut bytes, VERSION).unwrap();
    write_varint(&mut bytes, 0).unwrap();
    write_varint(&mut bytes, 0).unwrap();
    assert!(matches!(Object::decode(&bytes), Err(Error::Empty)));
}

#[test]
fn sequences_must_ascend() {
    assert!(matches!(
        object(vec![
            Group {
                sequence: 2,
                frames: vec![frame(0, b"a")],
            },
            Group {
                sequence: 2,
                frames: vec![frame(1, b"b")],
            },
        ])
        .encode(),
        Err(Error::Sequence)
    ));
    assert!(matches!(
        object(vec![
            Group {
                sequence: 2,
                frames: vec![frame(0, b"a")],
            },
            Group {
                sequence: 1,
                frames: vec![frame(1, b"b")],
            },
        ])
        .encode(),
        Err(Error::Sequence)
    ));
}

#[test]
fn reconstructed_ids_must_stay_in_range() {
    let mut bytes = Vec::new();
    write_varint(&mut bytes, VERSION).unwrap();
    write_varint(&mut bytes, 0).unwrap();
    write_varint(&mut bytes, 2).unwrap();
    write_varint(&mut bytes, ID_MAX).unwrap();
    write_varint(&mut bytes, 0).unwrap(); // no frames
    write_varint(&mut bytes, 0).unwrap(); // consecutive => ID_MAX + 1
    write_varint(&mut bytes, 0).unwrap();
    assert!(matches!(Object::decode(&bytes), Err(Error::Id(_))));
}

/// A table with one frameless group per delta.
fn deltas(deltas: &[u64]) -> Vec<u8> {
    let mut bytes = Vec::new();
    write_varint(&mut bytes, VERSION).unwrap();
    write_varint(&mut bytes, 0).unwrap();
    write_varint(&mut bytes, deltas.len() as u64).unwrap();
    for &delta in deltas {
        write_varint(&mut bytes, delta).unwrap();
        write_varint(&mut bytes, 0).unwrap();
    }
    bytes
}

fn sequences(bytes: Vec<u8>) -> Result<Vec<u64>, Error> {
    Ok(Object::decode(&bytes)?
        .groups
        .iter()
        .map(|group| group.sequence)
        .collect())
}

#[test]
fn delta_extremes() {
    let varint = (1u64 << 62) - 1;
    assert_eq!(sequences(deltas(&[0, 0, 0])).unwrap(), vec![0, 1, 2]);
    assert_eq!(sequences(deltas(&[0, 9, 0])).unwrap(), vec![0, 10, 11]);
    assert_eq!(sequences(deltas(&[0, ID_MAX - 1])).unwrap(), vec![0, ID_MAX]);
    assert_eq!(sequences(deltas(&[ID_MAX])).unwrap(), vec![ID_MAX]);
    assert!(matches!(sequences(deltas(&[0, ID_MAX])), Err(Error::Id(_))));
    assert!(matches!(sequences(deltas(&[ID_MAX + 1])), Err(Error::Id(_))));
    assert!(matches!(sequences(deltas(&[varint])), Err(Error::Id(_))));
    assert!(matches!(sequences(deltas(&[ID_MAX, varint])), Err(Error::Id(_))));
}

#[test]
fn timestamp_bounds() {
    assert!(object(vec![Group {
        sequence: 0,
        frames: vec![frame(ID_MAX, b"a")],
    }])
    .encode()
    .is_ok());
    assert!(matches!(
        object(vec![Group {
            sequence: 0,
            frames: vec![frame(ID_MAX + 1, b"a")],
        }])
        .encode(),
        Err(Error::Id(_))
    ));
}

#[test]
fn segment_unknown_version_is_refused() {
    for version in [1, 3] {
        let mut bytes = Vec::new();
        write_varint(&mut bytes, version).unwrap();
        write_varint(&mut bytes, 1).unwrap();
        assert!(matches!(Object::decode(&bytes), Err(Error::Version(v)) if v == version));
    }
}

#[test]
fn payload_must_be_contiguous() {
    let mut good = object(vec![Group {
        sequence: 0,
        frames: vec![frame(0, b"ab")],
    }])
    .encode()
    .unwrap();
    good.push(b'x');
    assert!(matches!(Object::decode(&good), Err(Error::Table)));
}

#[test]
fn advertised_counts_must_fit_minimum_entry_size() {
    // group_count equals remaining bytes, so a remaining-bytes check would
    // accept it, but each group needs at least two varints.
    let mut bytes = Vec::new();
    write_varint(&mut bytes, VERSION).unwrap();
    write_varint(&mut bytes, 0).unwrap();
    write_varint(&mut bytes, 4).unwrap();
    bytes.extend_from_slice(&[0, 0, 0, 0]);
    assert!(matches!(Object::decode(&bytes), Err(Error::Table)));
}

#[test]
fn offset_overflow_and_truncated_table() {
    let mut bytes = Vec::new();
    for value in [VERSION, 0, 1, 0, 1, 0, 0, 4] {
        write_varint(&mut bytes, value).unwrap(); // length 4, no payload
    }
    assert!(matches!(Object::decode(&bytes), Err(Error::Table)));

    assert!(matches!(Object::decode(&b"\x02"[..]), Err(Error::Table)));
}

#[test]
fn frame_offsets_must_tile_the_payload() {
    // One group of two frames at (offset, length), followed by `payload` bytes.
    let table = |frames: [(u64, u64); 2], payload: usize| {
        let mut bytes = Vec::new();
        for value in [VERSION, 0, 1, 0, 2] {
            write_varint(&mut bytes, value).unwrap();
        }
        for (offset, length) in frames {
            for value in [0, offset, length] {
                write_varint(&mut bytes, value).unwrap();
            }
        }
        bytes.extend_from_slice(&vec![b'x'; payload]);
        Object::decode(&bytes)
    };
    assert!(table([(0, 1), (1, 2)], 3).is_ok());
    assert!(matches!(table([(0, 1), (0, 2)], 3), Err(Error::Table)), "overlap");
    assert!(matches!(table([(0, 1), (2, 1)], 3), Err(Error::Table)), "gap");
    assert!(matches!(table([(1, 1), (2, 1)], 3), Err(Error::Table)), "late start");
    assert!(matches!(table([(0, 1), (1, 3)], 3), Err(Error::Table)), "past the end");
    let varint = (1u64 << 62) - 1;
    assert!(
        matches!(table([(0, 1), (1, varint)], 3), Err(Error::Table)),
        "huge length"
    );
}

#[test]
fn a_span_must_match_the_record() {
    let whole = object(vec![group(5, 2), group(6, 1)]);
    whole.check_span(Position::group(5), Position::group(7)).unwrap();
    assert_eq!(
        whole.check_span(Position::group(5), Position::group(8)),
        Err(Error::Span)
    );
    assert_eq!(
        whole.check_span(Position::group(4), Position::group(7)),
        Err(Error::Span)
    );
    assert_eq!(
        whole.check_span(Position::group(5), Position::new(6, 2)),
        Err(Error::Span),
        "a partial end names its frame count"
    );

    // A frame split: frames 3..5 of group 7.
    let split = Object {
        frame_start: 3,
        groups: vec![group(7, 2)],
    };
    split.check_span(Position::new(7, 3), Position::new(7, 5)).unwrap();
    assert_eq!(
        split.check_span(Position::new(7, 3), Position::new(7, 4)),
        Err(Error::Span)
    );

    // A split's tail continues into whole groups.
    let tail = Object {
        frame_start: 3,
        groups: vec![group(7, 2), group(8, 4)],
    };
    tail.check_span(Position::new(7, 3), Position::new(8, 4)).unwrap();
    tail.check_span(Position::new(7, 3), Position::group(9)).unwrap();

    // Gaps and empty groups never appear inside a record.
    let gap = object(vec![group(5, 1), group(7, 1)]);
    assert_eq!(gap.check_span(Position::group(5), Position::group(8)), Err(Error::Span));
    let empty = object(vec![group(5, 1), group(6, 0)]);
    assert_eq!(
        empty.check_span(Position::group(5), Position::group(7)),
        Err(Error::Span)
    );
}

#[test]
fn endpoints_roundtrip() {
    let original = object(vec![Group {
        sequence: ID_MAX,
        frames: vec![frame(0, b"")],
    }]);
    assert_eq!(Object::decode(&original.encode().unwrap()).unwrap(), original);
}

#[test]
fn an_object_is_spelled_byte_by_byte() {
    let bytes = Object {
        frame_start: 1,
        groups: vec![Group {
            sequence: 7,
            frames: vec![frame(64, b"ab"), frame(2, b"c")],
        }],
    }
    .encode()
    .unwrap();
    assert_eq!(
        bytes,
        vec![2, 1, 1, 7, 2, 0x40, 64, 0, 2, 2, 2, 1, b'a', b'b', b'c']
    );
}

#[test]
fn varints_take_the_shortest_form() {
    for (value, bytes) in [
        (0u64, vec![0u8]),
        (63, vec![63]),
        (64, vec![0x40, 64]),
        (16_383, vec![0x7f, 0xff]),
        (16_384, vec![0x80, 0, 0x40, 0]),
        (1 << 30, vec![0xc0, 0, 0, 0, 0x40, 0, 0, 0]),
    ] {
        let mut out = Vec::new();
        write_varint(&mut out, value).unwrap();
        assert_eq!(out, bytes);
        let mut rest = &out[..];
        assert_eq!(read_varint(&mut rest).unwrap(), value);
        assert!(rest.is_empty());
    }
    assert_eq!(write_varint(&mut Vec::new(), 1 << 62), Err(Error::Overflow));
    assert_eq!(read_varint(&mut &[0x40u8][..]), Err(Error::Table));
}

#[test]
fn a_frame_start_past_a_varint_overflows() {
    let far = Object {
        frame_start: u64::MAX,
        groups: vec![group(0, 1)],
    };
    assert_eq!(far.encode(), Err(Error::Overflow));
}
