//! The `OpusHead` header that describes an Opus stream out of band.

use vstd::prelude::*;

verus! {

/// The bytes every header starts with: `OpusHead`.
pub open spec fn magic() -> Seq<u8> {
    seq![0x4f, 0x70, 0x75, 0x73, 0x48, 0x65, 0x61, 0x64]
}

/// A channel mapping that an Opus header declares.
#[derive(Clone, Debug, PartialEq, Eq)]
pub struct Mapping {
    /// The mapping family, which is not zero.
    pub family: u8,
    /// Opus streams in one packet.
    pub streams: u8,
    /// How many of those are coupled pairs.
    pub coupled: u8,
    /// The stream channel of each output channel.
    pub table: Vec<u8>,
}

/// What an Opus header declares.
#[derive(Clone, Debug, PartialEq, Eq)]
pub struct Head {
    /// Samples per second of the encoder's input, per channel.
    pub sample_rate: u32,
    /// Channels.
    pub channel_count: u32,
    /// Frames to drop at the start, counted at 48 kHz.
    pub pre_skip: u16,
    /// The gain to apply, in 256ths of a decibel.
    pub output_gain: i16,
    /// The channel mapping, where it is not the default one.
    pub mapping: Option<Mapping>,
}

/// What a [`Mapping`] declares.
#[verifier::ext_equal]
pub struct MappingView {
    pub family: u8,
    pub streams: u8,
    pub coupled: u8,
    pub table: Seq<u8>,
}

/// What a [`Head`] declares.
#[verifier::ext_equal]
pub struct HeadView {
    pub sample_rate: u32,
    pub channel_count: u32,
    pub pre_skip: u16,
    pub output_gain: i16,
    pub mapping: Option<MappingView>,
}

impl View for Mapping {
    type V = MappingView;

    open spec fn view(&self) -> MappingView {
        MappingView {
            family: self.family,
            streams: self.streams,
            coupled: self.coupled,
            table: self.table@,
        }
    }
}

impl View for Head {
    type V = HeadView;

    open spec fn view(&self) -> HeadView {
        HeadView {
            sample_rate: self.sample_rate,
            channel_count: self.channel_count,
            pre_skip: self.pre_skip,
            output_gain: self.output_gain,
            mapping: match self.mapping {
                Some(mapping) => Some(mapping@),
                None => None,
            },
        }
    }
}

/// A plain header: the default mapping, no gain.
pub open spec fn plain(sample_rate: u32, channel_count: u32, pre_skip: u16) -> HeadView {
    HeadView { sample_rate, channel_count, pre_skip, output_gain: 0, mapping: None }
}

/// Two bytes as a number, the low one first.
pub open spec fn le16(s: Seq<u8>, at: int) -> int {
    s[at] + 256 * s[at + 1]
}

/// Four bytes as a number, the lowest first.
pub open spec fn le32(s: Seq<u8>, at: int) -> int {
    le16(s, at) + 65_536 * le16(s, at + 2)
}

/// A two byte number as a signed one.
pub open spec fn signed16(word: int) -> int {
    if word < 32_768 {
        word
    } else {
        word - 65_536
    }
}

/// The header that `data` spells, if it spells one: the magic, a version whose high half is zero, at
/// least one channel, and a mapping table where the family asks for one.
pub open spec fn head_at(data: Seq<u8>) -> Option<HeadView> {
    if data.len() < 19 || data.take(8) != magic() || data[8] >= 16 || data[9] == 0 {
        None
    } else if data[18] != 0 && data.len() < 21 + data[9] {
        None
    } else {
        Some(
            HeadView {
                sample_rate: le32(data, 12) as u32,
                channel_count: data[9] as u32,
                pre_skip: le16(data, 10) as u16,
                output_gain: signed16(le16(data, 16)) as i16,
                mapping: if data[18] == 0 {
                    None
                } else {
                    Some(
                        MappingView {
                            family: data[18],
                            streams: data[19],
                            coupled: data[20],
                            table: data.subrange(21, 21 + data[9]),
                        },
                    )
                },
            },
        )
    }
}

/// The two bytes of a number, the low one first.
pub open spec fn bytes16(word: int) -> Seq<u8> {
    seq![(word % 256) as u8, (word / 256) as u8]
}

/// How a header is spelled.
pub open spec fn head_bytes(head: HeadView) -> Seq<u8> {
    magic() + seq![1u8, head.channel_count as u8] + bytes16(head.pre_skip as int) + bytes16(
        head.sample_rate as int % 65_536,
    ) + bytes16(head.sample_rate as int / 65_536) + bytes16(
        if head.output_gain < 0 {
            head.output_gain + 65_536
        } else {
            head.output_gain as int
        },
    ) + (match head.mapping {
        None => seq![0u8],
        Some(mapping) => seq![mapping.family, mapping.streams, mapping.coupled] + mapping.table,
    })
}

/// Whether a header can be spelled: its channels fit a byte, and a mapping names a stream channel
/// for each.
pub open spec fn spellable(head: HeadView) -> bool {
    &&& 1 <= head.channel_count <= 255
    &&& match head.mapping {
        None => true,
        Some(mapping) => mapping.family != 0 && mapping.table.len() == head.channel_count,
    }
}

fn read16(data: &[u8], at: usize) -> (r: u16)
    requires
        at + 1 < data@.len(),
    ensures
        r == le16(data@, at as int),
{
    data[at] as u16 + 256 * data[at + 1] as u16
}

fn push16(out: &mut Vec<u8>, word: u16)
    ensures
        final(out)@ == old(out)@ + bytes16(word as int),
{
    let ghost before = out@;
    out.push((word % 256) as u8);
    out.push((word / 256) as u8);
    assert(out@ =~= before + bytes16(word as int));
}

fn is_magic(data: &[u8]) -> (r: bool)
    requires
        data@.len() >= 8,
    ensures
        r == (data@.take(8) == magic()),
{
    let found: bool = data[0] == 0x4f && data[1] == 0x70 && data[2] == 0x75 && data[3] == 0x73
        && data[4] == 0x48 && data[5] == 0x65 && data[6] == 0x61 && data[7] == 0x64;
    proof {
        let s = data@.take(8);
        let m = magic();
        assert(m.len() == 8);
        if found {
            assert(s =~= m);
        } else if s == m {
            assert(s[0] == m[0] && s[1] == m[1] && s[2] == m[2] && s[3] == m[3]);
            assert(s[4] == m[4] && s[5] == m[5] && s[6] == m[6] && s[7] == m[7]);
        }
    }
    found
}

impl Head {
    /// A plain header: the default mapping, no gain.
    pub fn new(sample_rate: u32, channel_count: u32, pre_skip: u16) -> (r: Self)
        ensures
            r@ == plain(sample_rate, channel_count, pre_skip),
    {
        Head { sample_rate, channel_count, pre_skip, output_gain: 0, mapping: None }
    }

    /// Read a header, `None` where `data` does not spell one.
    pub fn parse(data: &[u8]) -> (r: Option<Self>)
        ensures
            match r {
                Some(head) => head_at(data@) == Some(head@),
                None => head_at(data@) is None,
            },
    {
        if data.len() < 19 {
            return None;
        }
        if !is_magic(data) || data[8] >= 16 || data[9] == 0 {
            return None;
        }
        let channels: usize = data[9] as usize;
        let family: u8 = data[18];
        let gain: u16 = read16(data, 16);
        let output_gain: i16 = if gain < 32_768 {
            gain as i16
        } else {
            (gain as i32 - 65_536) as i16
        };
        let low: u16 = read16(data, 12);
        let high: u16 = read16(data, 14);
        let sample_rate: u32 = low as u32 + 65_536 * high as u32;
        let pre_skip: u16 = read16(data, 10);
        if family == 0 {
            return Some(
                Head {
                    sample_rate,
                    channel_count: channels as u32,
                    pre_skip,
                    output_gain,
                    mapping: None,
                },
            );
        }
        if data.len() < 21 + channels {
            return None;
        }
        let mut table: Vec<u8> = Vec::new();
        let mut i: usize = 0;
        while i < channels
            invariant
                0 <= i <= channels <= 255,
                21 + channels <= data@.len(),
                table@ == data@.subrange(21, 21 + i),
            decreases channels - i,
        {
            table.push(data[21 + i]);
            assert(table@ =~= data@.subrange(21, 21 + i + 1));
            i = i + 1;
        }
        assert(table@ =~= data@.subrange(21, 21 + channels));
        Some(
            Head {
                sample_rate,
                channel_count: channels as u32,
                pre_skip,
                output_gain,
                mapping: Some(Mapping { family, streams: data[19], coupled: data[20], table }),
            },
        )
    }

    /// Spell the header.
    pub fn encode(&self) -> (r: Vec<u8>)
        requires
            spellable(self@),
        ensures
            r@ == head_bytes(self@),
    {
        let mut out: Vec<u8> = vec![0x4f, 0x70, 0x75, 0x73, 0x48, 0x65, 0x61, 0x64];
        assert(out@ =~= magic());
        out.push(1);
        out.push(self.channel_count as u8);
        assert(out@ =~= magic() + seq![1u8, self.channel_count as u8]);
        push16(&mut out, self.pre_skip);
        push16(&mut out, (self.sample_rate % 65_536) as u16);
        push16(&mut out, (self.sample_rate / 65_536) as u16);
        let gain: u16 = if self.output_gain < 0 {
            (self.output_gain as i32 + 65_536) as u16
        } else {
            self.output_gain as u16
        };
        push16(&mut out, gain);
        let ghost fixed = out@;
        match &self.mapping {
            None => {
                out.push(0);
                assert(out@ =~= fixed + seq![0u8]);
            },
            Some(mapping) => {
                out.push(mapping.family);
                out.push(mapping.streams);
                out.push(mapping.coupled);
                let ghost lead = seq![mapping.family, mapping.streams, mapping.coupled];
                assert(out@ =~= fixed + (lead + mapping.table@.take(0)));
                let mut i: usize = 0;
                while i < mapping.table.len()
                    invariant
                        0 <= i <= mapping.table@.len(),
                        out@ == fixed + (lead + mapping.table@.take(i as int)),
                    decreases mapping.table@.len() - i,
                {
                    out.push(mapping.table[i]);
                    assert(out@ =~= fixed + (lead + mapping.table@.take(i + 1)));
                    i = i + 1;
                }
                assert(mapping.table@.take(i as int) =~= mapping.table@);
            },
        }
        out
    }
}

/// Reading a header gives back what was written.
pub proof fn law_parse_undoes_encode(head: HeadView)
    requires
        spellable(head),
    ensures
        head_at(head_bytes(head)) == Some(head),
{
    let data = head_bytes(head);
    let rate = head.sample_rate as int;
    let gain = if head.output_gain < 0 {
        head.output_gain + 65_536
    } else {
        head.output_gain as int
    };
    assert(magic().len() == 8);
    assert(data.take(8) =~= magic());
    assert(data[8] == 1);
    assert(data[9] == head.channel_count as u8);
    assert(le16(data, 10) == head.pre_skip);
    assert(le16(data, 12) == rate % 65_536);
    assert(le16(data, 14) == rate / 65_536);
    assert(le32(data, 12) == rate);
    assert(le16(data, 16) == gain);
    match head.mapping {
        None => {
            assert(data[18] == 0);
        },
        Some(mapping) => {
            assert(data[18] == mapping.family);
            assert(data[19] == mapping.streams);
            assert(data[20] == mapping.coupled);
            assert(data.subrange(21, 21 + head.channel_count as int) =~= mapping.table);
        },
    }
}

/// A head is read where the bytes start with `OpusHead`, a version below 16 and at least one channel,
/// and hold a whole mapping where they name one. Its numbers are little-endian, the gain signed, and
/// each stands at its own place.
pub proof fn law_a_head_is_read_byte_by_byte(data: Seq<u8>)
    ensures
        head_at(data) is Some <==> {
            &&& data.len() >= 19
            &&& data.take(8) == seq![79u8, 112, 117, 115, 72, 101, 97, 100]
            &&& data[8] < 16
            &&& data[9] > 0
            &&& data[18] == 0 || data.len() >= 21 + data[9]
        },
        head_at(data) matches Some(head) ==> {
            &&& head.channel_count == data[9]
            &&& head.pre_skip == data[10] + 256 * data[11]
            &&& head.sample_rate == data[12] + 256 * data[13] + 65_536 * data[14] + 16_777_216
                * data[15]
            &&& head.output_gain == data[16] + 256 * data[17] - if data[17] >= 128 {
                65_536int
            } else {
                0
            }
            &&& head.mapping is None <==> data[18] == 0
            &&& head.mapping matches Some(mapping) ==> {
                &&& mapping.family == data[18]
                &&& mapping.streams == data[19]
                &&& mapping.coupled == data[20]
                &&& mapping.table.len() == data[9]
                &&& forall|i: int|
                    0 <= i < mapping.table.len() ==> #[trigger] mapping.table[i] == data[21 + i]
            }
        },
{
    assert(magic() =~= seq![79u8, 112, 117, 115, 72, 101, 97, 100]);
}

/// A written head is of version 1, names its channels and ends with its mapping: 19 bytes without
/// one, and otherwise 21 and one for each channel.
pub proof fn law_a_written_head_is_of_version_one(head: HeadView)
    requires
        spellable(head),
    ensures
        head_bytes(head)[8] == 1,
        head_bytes(head)[9] == head.channel_count,
        head.mapping is None ==> head_bytes(head).len() == 19 && head_bytes(head)[18] == 0,
        head.mapping is Some ==> head_bytes(head).len() == 21 + head.channel_count,
        head_at(head_bytes(head)) == Some(head),
{
    law_parse_undoes_encode(head);
}

/// A head of a rate, channels and pre-skip alone has neither gain nor mapping.
pub proof fn law_a_plain_head_has_no_gain_or_mapping(rate: u32, channels: u32, skip: u16)
    ensures
        plain(rate, channels, skip).sample_rate == rate,
        plain(rate, channels, skip).channel_count == channels,
        plain(rate, channels, skip).pre_skip == skip,
        plain(rate, channels, skip).output_gain == 0,
        plain(rate, channels, skip).mapping is None,
{
}

} // verus!
