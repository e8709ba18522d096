//! How the streams of one Opus packet follow each other.
//!
//! A packet of several streams holds one Opus packet per stream. Each but the last is in the
//! self-delimited form, which writes the size of its last frame too and so says how long it is.

use vstd::prelude::*;
use vstd::slice::slice_subrange;

verus! {

/// The frames of a self-delimited packet.
#[verifier::ext_equal]
pub ghost struct Framing {
    /// The size of each frame, in bytes.
    pub sizes: Seq<i16>,
    /// How many bytes the packet takes.
    pub len: int,
}

/// What a packet says of its frames in front of their sizes.
pub ghost struct Header {
    /// How many frames there are.
    pub count: int,
    /// Whether they are of one size.
    pub equal: bool,
    /// Where the sizes begin.
    pub at: int,
    /// How many bytes of padding follow the frames.
    pub padding: int,
}

/// The length of a frame in samples at 48 kHz, by the packet's first byte.
pub open spec fn frame_samples(toc: u8) -> int {
    let step = toc as int / 8 % 4;
    if toc >= 128 {
        if step == 0 {
            120
        } else if step == 1 {
            240
        } else if step == 2 {
            480
        } else {
            960
        }
    } else if toc >= 96 {
        if step % 2 == 0 {
            480
        } else {
            960
        }
    } else if step == 0 {
        480
    } else if step == 1 {
        960
    } else if step == 2 {
        1920
    } else {
        2880
    }
}

/// The size written at `at`, and where it ends: one byte below 252, or a byte with a multiple of four
/// behind it.
pub open spec fn size_at(data: Seq<u8>, at: int) -> Option<(i16, int)> {
    if at >= data.len() {
        None
    } else if data[at] < 252 {
        Some((data[at] as i16, at + 1))
    } else if at + 1 >= data.len() {
        None
    } else {
        Some(((data[at + 1] * 4 + data[at]) as i16, at + 2))
    }
}

/// The `count` sizes written from `at` on, and where they end.
pub open spec fn sizes_at(data: Seq<u8>, at: int, count: int) -> Option<(Seq<i16>, int)>
    decreases count,
{
    if count <= 0 {
        Some((Seq::empty(), at))
    } else {
        match sizes_at(data, at, count - 1) {
            None => None,
            Some((sizes, at)) => match size_at(data, at) {
                None => None,
                Some((size, at)) => Some((sizes.push(size), at)),
            },
        }
    }
}

/// The bytes of padding written at `at`, and where that ends: each byte of 255 stands for 254 and
/// says that another follows.
pub open spec fn padding_at(data: Seq<u8>, at: int) -> Option<(int, int)>
    decreases data.len() - at,
{
    if at < 0 || at >= data.len() {
        None
    } else if data[at] == 255 {
        match padding_at(data, at + 1) {
            None => None,
            Some((padding, at)) => Some((254 + padding, at)),
        }
    } else {
        Some((data[at] as int, at + 1))
    }
}

/// What the packet at the front of `data` says of its frames.
pub open spec fn header(data: Seq<u8>) -> Option<Header> {
    if data.len() == 0 {
        None
    } else if data[0] % 4 == 0 {
        Some(Header { count: 1, equal: false, at: 1, padding: 0 })
    } else if data[0] % 4 == 1 {
        Some(Header { count: 2, equal: true, at: 1, padding: 0 })
    } else if data[0] % 4 == 2 {
        Some(Header { count: 2, equal: false, at: 1, padding: 0 })
    } else if data.len() == 1 {
        None
    } else {
        let count = data[1] as int % 64;
        let equal = data[1] < 128;
        if count == 0 || frame_samples(data[0]) * count > 5_760 {
            None
        } else if data[1] as int / 64 % 2 == 0 {
            Some(Header { count, equal, at: 2, padding: 0 })
        } else {
            match padding_at(data, 2) {
                None => None,
                Some((padding, at)) => Some(Header { count, equal, at, padding }),
            }
        }
    }
}

/// All bytes of frames of these sizes.
pub open spec fn total(sizes: Seq<i16>) -> int
    decreases sizes.len(),
{
    if sizes.len() == 0 {
        0
    } else {
        total(sizes.drop_last()) + sizes.last()
    }
}

/// The self-delimited packet at the front of `data`: its sizes, the frames, and the padding have to
/// fit.
pub open spec fn delimited(data: Seq<u8>) -> Option<Framing> {
    match header(data) {
        None => None,
        Some(header) => {
            let end = data.len() - header.padding;
            let written = if header.equal {
                1
            } else {
                header.count
            };
            if header.at > end {
                None
            } else {
                match sizes_at(data.take(end), header.at, written) {
                    None => None,
                    Some((written, at)) => {
                        let sizes = if header.equal {
                            Seq::new(header.count as nat, |i: int| written[0])
                        } else {
                            written
                        };
                        if at + total(sizes) > end {
                            None
                        } else {
                            Some(Framing { sizes, len: at + total(sizes) + header.padding })
                        }
                    },
                }
            }
        },
    }
}

/// The `count` self-delimited packets at the front of `data`, as if they were one.
pub open spec fn leading(data: Seq<u8>, count: int) -> Option<Framing>
    decreases count,
{
    if count <= 0 {
        Some(Framing { sizes: Seq::empty(), len: 0 })
    } else {
        match leading(data, count - 1) {
            None => None,
            Some(before) => match delimited(data.skip(before.len)) {
                None => None,
                Some(next) => Some(
                    Framing { sizes: before.sizes + next.sizes, len: before.len + next.len },
                ),
            },
        }
    }
}

/// Where the last stream of a packet begins, and the frames in front of it.
#[derive(Debug)]
pub struct Split {
    /// The size of each frame in front of the last stream, in bytes.
    pub sizes: Vec<i16>,
    /// Where the last stream begins.
    pub last: usize,
}

fn samples_of(toc: u8) -> (r: usize)
    ensures
        r == frame_samples(toc),
        120 <= r <= 2880,
{
    let step: u8 = toc / 8 % 4;
    if toc >= 128 {
        match step {
            0 => 120,
            1 => 240,
            2 => 480,
            _ => 960,
        }
    } else if toc >= 96 {
        if step % 2 == 0 {
            480
        } else {
            960
        }
    } else {
        match step {
            0 => 480,
            1 => 960,
            2 => 1920,
            _ => 2880,
        }
    }
}

fn read_padding(data: &[u8], from: usize) -> (r: Option<(u128, usize)>)
    ensures
        match r {
            None => padding_at(data@, from as int) is None,
            Some((padding, at)) => {
                &&& padding_at(data@, from as int) == Some((padding as int, at as int))
                &&& from < at <= data@.len()
            },
        },
{
    let mut padding: u128 = 0;
    let mut at: usize = from;
    while at < data.len()
        invariant
            from <= at,
            padding <= 254 * (at - from),
            at <= data@.len() || at == from,
            padding_at(data@, from as int) == match padding_at(data@, at as int) {
                None => None::<(int, int)>,
                Some((more, end)) => Some((padding + more, end)),
            },
        decreases data@.len() - at,
    {
        let byte: u8 = data[at];
        if byte != 255 {
            return Some((padding + byte as u128, at + 1));
        }
        padding = padding + 254;
        at = at + 1;
    }
    None
}

fn read_size(data: &[u8], at: usize) -> (r: Option<(i16, usize)>)
    requires
        at <= data@.len(),
    ensures
        match r {
            None => size_at(data@, at as int) is None,
            Some((size, end)) => {
                &&& size_at(data@, at as int) == Some((size, end as int))
                &&& 0 <= size <= 1275
                &&& at < end <= data@.len()
            },
        },
{
    if at >= data.len() {
        None
    } else if data[at] < 252 {
        Some((data[at] as i16, at + 1))
    } else if at + 1 >= data.len() {
        None
    } else {
        Some((data[at + 1] as i16 * 4 + data[at] as i16, at + 2))
    }
}

/// Read the packet's header: how many frames there are, whether they are of one size, where the sizes
/// begin, and how much padding follows the frames.
fn read_header(data: &[u8]) -> (r: Option<(usize, bool, usize, u128)>)
    ensures
        match r {
            None => header(data@) is None,
            Some((count, equal, at, padding)) => {
                &&& header(data@) == Some(
                    Header {
                        count: count as int,
                        equal,
                        at: at as int,
                        padding: padding as int,
                    },
                )
                &&& 1 <= count <= 63
                &&& at <= data@.len()
            },
        },
{
    if data.len() == 0 {
        return None;
    }
    match data[0] % 4 {
        0 => Some((1, false, 1, 0)),
        1 => Some((2, true, 1, 0)),
        2 => Some((2, false, 1, 0)),
        _ => {
            if data.len() == 1 {
                return None;
            }
            let count: usize = (data[1] % 64) as usize;
            let equal = data[1] < 128;
            let samples: usize = samples_of(data[0]);
            assert(samples * count <= 2880 * 63) by (nonlinear_arith)
                requires
                    samples <= 2880,
                    count <= 63,
            ;
            if count == 0 || samples * count > 5_760 {
                return None;
            }
            if data[1] / 64 % 2 == 0 {
                return Some((count, equal, 2, 0));
            }
            match read_padding(data, 2) {
                None => None,
                Some((padding, at)) => Some((count, equal, at, padding)),
            }
        },
    }
}

/// Read `count` sizes from `from` on, and where they end.
fn read_sizes(data: &[u8], from: usize, count: usize) -> (r: Option<(Vec<i16>, usize)>)
    requires
        from <= data@.len(),
    ensures
        match r {
            None => sizes_at(data@, from as int, count as int) is None,
            Some((sizes, at)) => {
                &&& sizes_at(data@, from as int, count as int) == Some((sizes@, at as int))
                &&& sizes@.len() == count
                &&& forall|i: int| 0 <= i < sizes@.len() ==> 0 <= #[trigger] sizes@[i] <= 1275
                &&& from <= at <= data@.len()
            },
        },
{
    let mut sizes: Vec<i16> = Vec::new();
    let mut at: usize = from;
    let mut i: usize = 0;
    while i < count
        invariant
            i <= count,
            from <= at <= data@.len(),
            sizes@.len() == i,
            forall|j: int| 0 <= j < sizes@.len() ==> 0 <= #[trigger] sizes@[j] <= 1275,
            sizes_at(data@, from as int, i as int) == Some((sizes@, at as int)),
        decreases count - i,
    {
        match read_size(data, at) {
            None => {
                proof {
                    lemma_sizes_stop(data@, from as int, i + 1, count as int);
                }
                return None;
            },
            Some((size, end)) => {
                sizes.push(size);
                at = end;
            },
        }
        i = i + 1;
    }
    Some((sizes, at))
}

/// Where a size is missing, so are all behind it.
proof fn lemma_sizes_stop(data: Seq<u8>, at: int, some: int, all: int)
    requires
        some <= all,
        sizes_at(data, at, some) is None,
    ensures
        sizes_at(data, at, all) is None,
    decreases all,
{
    if some < all && all > 0 {
        lemma_sizes_stop(data, at, some, all - 1);
    }
}

fn sum(sizes: &Vec<i16>) -> (r: usize)
    requires
        sizes@.len() <= 63,
        forall|i: int| 0 <= i < sizes@.len() ==> 0 <= #[trigger] sizes@[i] <= 1275,
    ensures
        r == total(sizes@),
{
    let mut bytes: usize = 0;
    let mut i: usize = 0;
    while i < sizes.len()
        invariant
            i <= sizes@.len() <= 63,
            forall|j: int| 0 <= j < sizes@.len() ==> 0 <= #[trigger] sizes@[j] <= 1275,
            bytes == total(sizes@.take(i as int)),
            bytes <= 1275 * i,
        decreases sizes@.len() - i,
    {
        assert(sizes@.take(i + 1).drop_last() =~= sizes@.take(i as int));
        bytes = bytes + sizes[i] as usize;
        i = i + 1;
    }
    assert(sizes@.take(i as int) =~= sizes@);
    bytes
}

/// Read the self-delimited packet at the front of `data`: the size of each frame, and how many bytes
/// the packet takes.
fn read_delimited(data: &[u8]) -> (r: Option<(Vec<i16>, usize)>)
    ensures
        match r {
            None => delimited(data@) is None,
            Some((sizes, len)) => {
                &&& delimited(data@) == Some(Framing { sizes: sizes@, len: len as int })
                &&& len <= data@.len()
            },
        },
{
    let (count, equal, at, padding) = match read_header(data) {
        None => {
            return None;
        },
        Some(header) => header,
    };
    if padding > data.len() as u128 || at > data.len() - padding as usize {
        return None;
    }
    let end: usize = data.len() - padding as usize;
    let front = slice_subrange(data, 0, end);
    assert(front@ =~= data@.take(end as int));
    let written: usize = if equal {
        1
    } else {
        count
    };
    let (listed, at) = match read_sizes(front, at, written) {
        None => {
            return None;
        },
        Some(read) => read,
    };
    let mut sizes: Vec<i16> = Vec::new();
    if equal {
        let size: i16 = listed[0];
        while sizes.len() < count
            invariant
                sizes@.len() <= count,
                0 <= size <= 1275,
                forall|i: int| 0 <= i < sizes@.len() ==> #[trigger] sizes@[i] == size,
            decreases count - sizes@.len(),
        {
            sizes.push(size);
        }
        assert(sizes@ =~= Seq::new(count as nat, |i: int| listed@[0]));
    } else {
        sizes = listed;
    }
    let bytes: usize = sum(&sizes);
    if bytes > end - at {
        return None;
    }
    Some((sizes, at + bytes + padding as usize))
}

/// Split a packet of `streams` streams in front of the last one, which is no longer delimited. `None`
/// where a stream in front of it is malformed.
pub fn split_streams(packet: &[u8], streams: u8) -> (r: Option<Split>)
    ensures
        match r {
            None => leading(packet@, streams - 1) is None,
            Some(split) => {
                &&& leading(packet@, streams - 1) == Some(
                    Framing { sizes: split.sizes@, len: split.last as int },
                )
                &&& split.last <= packet@.len()
            },
        },
{
    let mut sizes: Vec<i16> = Vec::new();
    let mut last: usize = 0;
    let mut done: u8 = 1;
    while done < streams
        invariant
            1 <= done,
            done <= streams || done == 1,
            last <= packet@.len(),
            leading(packet@, done - 1) == Some(Framing { sizes: sizes@, len: last as int }),
        decreases streams - done,
    {
        let rest = slice_subrange(packet, last, packet.len());
        assert(rest@ =~= packet@.skip(last as int));
        match read_delimited(rest) {
            None => {
                proof {
                    lemma_leading_stops(packet@, done as int, streams - 1);
                }
                return None;
            },
            Some((mut more, len)) => {
                sizes.append(&mut more);
                last = last + len;
            },
        }
        done = done + 1;
    }
    Some(Split { sizes, last })
}

/// Where a stream is malformed, no stream behind it is found.
proof fn lemma_leading_stops(data: Seq<u8>, some: int, all: int)
    requires
        some <= all,
        leading(data, some) is None,
    ensures
        leading(data, all) is None,
    decreases all,
{
    if some < all && all > 0 {
        lemma_leading_stops(data, some, all - 1);
    }
}

/// The high five bits of a packet's first byte give the time of each frame, in samples at 48 kHz:
/// below 12, 10, 20, 40 and 60 ms in turn; from there to below 16, 10 and 20 ms in turn; and from 16
/// on, 2.5, 5, 10 and 20 ms in turn.
pub proof fn law_a_frame_lasts_what_its_configuration_says(toc: u8, config: int, low: int)
    requires
        0 <= low < 8,
        toc == 8 * config + low,
    ensures
        config < 12 ==> frame_samples(toc) == 48 * (if config % 4 == 3 {
            60int
        } else if config % 4 == 2 {
            40
        } else if config % 4 == 1 {
            20
        } else {
            10
        }),
        12 <= config < 16 ==> frame_samples(toc) == 48 * (if config % 2 == 1 {
            20int
        } else {
            10
        }),
        16 <= config ==> 2 * frame_samples(toc) == 48 * (if config % 4 == 3 {
            40int
        } else if config % 4 == 2 {
            20
        } else if config % 4 == 1 {
            10
        } else {
            5
        }),
        0 <= config < 32,
{
    assert(toc as int / 8 == config);
}

/// A size below 252 is one byte. A larger one is a byte of at least 252 and a second that counts
/// fours.
pub proof fn law_a_size_is_one_byte_or_two(data: Seq<u8>, at: int)
    requires
        0 <= at,
    ensures
        match size_at(data, at) {
            Some((size, next)) => {
                &&& next == at + 1 ==> data[at] < 252 && size == data[at]
                &&& next == at + 2 ==> data[at] >= 252 && size == data[at] + 4 * data[at + 1]
                &&& next == at + 1 || next == at + 2
                &&& next <= data.len()
            },
            None => at >= data.len() || (data[at] >= 252 && at + 1 == data.len()),
        },
{
}

/// Padding is counted in bytes of 255, each of which stands for 254 and more to come, and one last
/// byte that stands for itself.
pub proof fn law_padding_counts_on_past_255(data: Seq<u8>, at: int, full: int)
    requires
        0 <= at,
        0 <= full,
        at + full < data.len(),
        forall|i: int| at <= i < at + full ==> #[trigger] data[i] == 255,
        data[at + full] != 255,
    ensures
        padding_at(data, at) == Some((254 * full + data[at + full], at + full + 1)),
    decreases full,
{
    if full > 0 {
        assert(data[at] == 255);
        law_padding_counts_on_past_255(data, at + 1, full - 1);
    }
}

/// Padding whose last byte is missing is none.
pub proof fn law_padding_has_an_end(data: Seq<u8>, at: int)
    requires
        0 <= at <= data.len(),
        forall|i: int| at <= i < data.len() ==> #[trigger] data[i] == 255,
    ensures
        padding_at(data, at) is None,
    decreases data.len() - at,
{
    if at < data.len() {
        law_padding_has_an_end(data, at + 1);
    }
}

/// The low two bits of a packet's first byte say how many frames it holds: one, two of one size, two
/// of sizes of their own, or as many as the low six bits of the next byte say. That byte's highest
/// bit says that the sizes differ, and the next that padding is counted behind it. A packet lasts
/// 120 ms at most.
pub proof fn law_a_header_counts_frames(data: Seq<u8>)
    ensures
        data.len() == 0 ==> header(data) is None,
        data.len() > 0 && data[0] % 4 == 0 ==> header(data) == Some(
            Header { count: 1, equal: false, at: 1, padding: 0 },
        ),
        data.len() > 0 && data[0] % 4 == 1 ==> header(data) == Some(
            Header { count: 2, equal: true, at: 1, padding: 0 },
        ),
        data.len() > 0 && data[0] % 4 == 2 ==> header(data) == Some(
            Header { count: 2, equal: false, at: 1, padding: 0 },
        ),
        data.len() == 1 && data[0] % 4 == 3 ==> header(data) is None,
        data.len() > 1 && data[0] % 4 == 3 ==> match header(data) {
            Some(h) => {
                &&& 1 <= h.count < 64
                &&& data[1] == h.count + (if h.equal {
                    0int
                } else {
                    128
                }) + (if h.at > 2 {
                    64int
                } else {
                    0
                })
                &&& h.at >= 2
                &&& h.at > 2 ==> padding_at(data, 2) == Some((h.padding, h.at))
                &&& h.at == 2 ==> h.padding == 0
                &&& frame_samples(data[0]) * h.count <= 48 * 120
            },
            None => {
                ||| data[1] % 64 == 0
                ||| frame_samples(data[0]) * (data[1] as int % 64) > 48 * 120
                ||| data[1] / 64 % 2 == 1 && padding_at(data, 2) is None
            },
        },
{
    if data.len() > 1 && data[0] % 4 == 3 {
        lemma_padding_moves(data, 2);
    }
}

proof fn lemma_padding_moves(data: Seq<u8>, at: int)
    ensures
        padding_at(data, at) matches Some((_, next)) ==> next > at,
    decreases data.len() - at,
{
    if 0 <= at < data.len() && data[at] == 255 {
        lemma_padding_moves(data, at + 1);
    }
}

/// A packet of one frame is its size and as many bytes. One of two frames of one size has the size
/// once, and one of two sizes has both before the frames.
pub proof fn law_small_packets_are_sizes_and_frames(data: Seq<u8>)
    requires
        data.len() > 0,
    ensures
        ({
            let one = size_at(data, 1);
            let two = size_at(data, (one->0).1);
            let whole = data.len() as int;
            &&& data[0] % 4 == 0 ==> match delimited(data) {
                Some(f) => one is Some && f.sizes == seq![(one->0).0] && f.len == (one->0).1 + (one->0).0
                    && f.len <= whole,
                None => one is None || (one->0).1 + (one->0).0 > whole,
            }
            &&& data[0] % 4 == 1 ==> match delimited(data) {
                Some(f) => one is Some && f.sizes == seq![(one->0).0, (one->0).0] && f.len == (one->0).1
                    + (one->0).0 + (one->0).0 && f.len <= whole,
                None => one is None || (one->0).1 + (one->0).0 + (one->0).0 > whole,
            }
            &&& data[0] % 4 == 2 ==> match delimited(data) {
                Some(f) => one is Some && two is Some && f.sizes == seq![(one->0).0, (two->0).0]
                    && f.len == (two->0).1 + (one->0).0 + (two->0).0 && f.len <= whole,
                None => one is None || two is None || (two->0).1 + (one->0).0 + (two->0).0 > whole,
            }
        }),
{
    reveal_with_fuel(sizes_at, 3);
    reveal_with_fuel(total, 3);
    assert(data.take(data.len() as int) =~= data);
    if let Some((a, at)) = size_at(data, 1) {
        assert(Seq::<i16>::empty().push(a) =~= seq![a]);
        assert(seq![a].drop_last() =~= Seq::<i16>::empty());
        assert(total(seq![a]) == a);
        let same = Seq::new(2, |i: int| seq![a][0]);
        assert(same =~= seq![a, a]);
        assert(seq![a, a].drop_last() =~= seq![a]);
        assert(total(seq![a, a]) == a + a);
        if let Some((b, _)) = size_at(data, at) {
            assert(seq![a].push(b) =~= seq![a, b]);
            assert(seq![a, b].drop_last() =~= seq![a]);
            assert(total(seq![a, b]) == a + b);
        }
    }
}

/// A packet that counts its frames ends behind them and its padding, within the data, and frames of
/// one size are all of it.
pub proof fn law_counted_packets_end_behind_their_padding(data: Seq<u8>)
    requires
        delimited(data) is Some,
    ensures
        ({
            let h = header(data)->0;
            let f = delimited(data)->0;
            let end = data.len() - h.padding;
            &&& header(data) is Some
            &&& f.sizes.len() == h.count || h.count < 0
            &&& f.len <= data.len()
            &&& h.equal ==> match size_at(data.take(end), h.at) {
                Some((size, next)) => f.len == next + h.count * size + h.padding && forall|i: int|
                    0 <= i < f.sizes.len() ==> #[trigger] f.sizes[i] == size,
                None => false,
            }
        }),
{
    reveal_with_fuel(sizes_at, 2);
    let h = header(data)->0;
    let f = delimited(data)->0;
    let end = data.len() - h.padding;
    let written = if h.equal {
        1
    } else {
        h.count
    };
    lemma_sizes_len(data.take(end), h.at, written);
    if h.equal {
        let (size, _) = size_at(data.take(end), h.at)->0;
        lemma_total_same(f.sizes, size);
    }
}

proof fn lemma_sizes_len(data: Seq<u8>, at: int, count: int)
    ensures
        sizes_at(data, at, count) matches Some((sizes, _)) ==> sizes.len() == count || count < 0,
    decreases count,
{
    if count > 0 {
        lemma_sizes_len(data, at, count - 1);
    }
}

proof fn lemma_total_same(sizes: Seq<i16>, size: i16)
    requires
        forall|i: int| 0 <= i < sizes.len() ==> #[trigger] sizes[i] == size,
    ensures
        total(sizes) == sizes.len() * size,
    decreases sizes.len(),
{
    if sizes.len() > 0 {
        lemma_total_same(sizes.drop_last(), size);
        let n = sizes.len() as int;
        assert((n - 1) * size + size == n * size) by (nonlinear_arith);
    }
}

/// Leading packets stand one behind the other: the frames of one more are the next ones, and it
/// starts where the others end.
pub proof fn law_leading_packets_follow_each_other(data: Seq<u8>, count: int)
    requires
        count >= 0,
    ensures
        leading(data, 0) == Some(Framing { sizes: Seq::empty(), len: 0 }),
        leading(data, 1) == delimited(data),
        leading(data, count + 1) matches Some(all) ==> {
            let first = leading(data, count)->0;
            let next = delimited(data.skip(first.len))->0;
            &&& leading(data, count) is Some
            &&& delimited(data.skip(first.len)) is Some
            &&& all.len == first.len + next.len
            &&& all.sizes == first.sizes + next.sizes
        },
{
    reveal_with_fuel(leading, 2);
    assert(data.skip(0) =~= data);
    if let Some(next) = delimited(data) {
        assert(Seq::<i16>::empty() + next.sizes =~= next.sizes);
    }
}

/// Sizes stand one behind the other: one more is the next, read where the others end.
pub proof fn law_sizes_stand_one_behind_the_other(data: Seq<u8>, at: int, count: int)
    requires
        count >= 0,
    ensures
        sizes_at(data, at, 0) == Some((Seq::<i16>::empty(), at)),
        match sizes_at(data, at, count + 1) {
            Some((sizes, end)) => sizes_at(data, at, count) is Some && {
                let (before, next) = sizes_at(data, at, count)->0;
                &&& size_at(data, next) == Some((sizes.last(), end))
                &&& sizes.drop_last() == before
                &&& sizes.len() == count + 1
            },
            None => sizes_at(data, at, count) is None || {
                let (_, next) = sizes_at(data, at, count)->0;
                size_at(data, next) is None
            },
        },
{
    lemma_sizes_len(data, at, count);
    if let Some((before, next)) = sizes_at(data, at, count) {
        if let Some((size, _)) = size_at(data, next) {
            assert(before.push(size).drop_last() =~= before);
        }
    }
}

/// A packet is refused only where its header is, where its padding leaves no room, where one of its
/// sizes is cut off, or where its frames do not fit before the padding. Leading packets are refused
/// only where one of them is.
pub proof fn law_packets_are_refused_only_where_they_do_not_fit(data: Seq<u8>, count: int)
    requires
        count >= 0,
    ensures
        delimited(data) is None && header(data) is Some ==> {
            let h = header(data)->0;
            let end = data.len() - h.padding;
            let sizes = sizes_at(
                data.take(end),
                h.at,
                if h.equal {
                    1
                } else {
                    h.count
                },
            );
            ||| h.at > end
            ||| sizes is None
            ||| sizes matches Some((read, at)) && (if h.equal {
                at + h.count * read[0] > end
            } else {
                at + total(read) > end
            })
        },
        leading(data, count + 1) is None && leading(data, count) is Some ==> delimited(
            data.skip(leading(data, count)->0.len),
        ) is None,
{
    if delimited(data) is None && header(data) is Some {
        let h = header(data)->0;
        lemma_header_counts(data);
        let end = data.len() - h.padding;
        if h.equal && h.at <= end {
            if let Some((read, at)) = sizes_at(data.take(end), h.at, 1) {
                let sizes = Seq::new(h.count as nat, |i: int| read[0]);
                lemma_total_same(sizes, read[0]);
            }
        }
    }
}

proof fn lemma_header_counts(data: Seq<u8>)
    requires
        header(data) is Some,
    ensures
        header(data)->0.count >= 1,
{
}

/// The sizes of frames add up one by one.
pub proof fn law_sizes_add_up(sizes: Seq<i16>, size: i16)
    ensures
        total(Seq::empty()) == 0,
        total(sizes.push(size)) == total(sizes) + size,
{
    assert(sizes.push(size).drop_last() =~= sizes);
}

} // verus!
