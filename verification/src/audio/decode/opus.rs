//! How an Opus stream is decoded: its streams, its layout, and the order of its channels.

use crate::audio::codec::config::opus_rate;
use super::decoder::{opus_head, read_head, Catalog};
use crate::audio::codec::head::{Head, HeadView};
use crate::audio::codec::opus::{
    channels_fault, channels_for, rate_fault, validate_sample_rate, Channels,
};
use crate::audio::error::{Error, ErrorView};
use crate::audio::layout::{channels_of, speakers_of, wave_layout, Layout, Speaker};
use crate::text::{decimal_text, push_decimal};
use vstd::prelude::*;
use vstd::string::StringExecFns;

verus! {

/// Packets cap at this many milliseconds of audio.
pub const MAX_FRAME_MS: usize = 120;

/// How to open a decoder.
#[derive(Clone, Debug, PartialEq, Eq)]
pub struct Plan {
    /// The rate it decodes at.
    pub sample_rate: u32,
    /// The layout it decodes to.
    pub layout: Layout,
    /// For each canonical channel, the decoded channel it comes from, where they differ.
    pub reorder: Option<Vec<usize>>,
    /// Opus streams in one packet.
    pub streams: u8,
    /// How many of those are coupled pairs.
    pub coupled: u8,
    /// The stream channel of each output channel.
    pub table: Vec<u8>,
    /// Frames of startup delay, at the rate it decodes at.
    pub delay: usize,
    /// The most frames a packet decodes to.
    pub max_frame_size: usize,
}

/// The speakers of a family 1 stream of `channels`, in the order the codec gives them.
pub open spec fn vorbis_speakers(channels: u32) -> Option<Seq<Speaker>> {
    if channels == 1 {
        Some(seq![Speaker::FrontCenter])
    } else if channels == 2 {
        Some(seq![Speaker::FrontLeft, Speaker::FrontRight])
    } else if channels == 3 {
        Some(seq![Speaker::FrontLeft, Speaker::FrontCenter, Speaker::FrontRight])
    } else if channels == 4 {
        Some(
            seq![
                Speaker::FrontLeft,
                Speaker::FrontRight,
                Speaker::BackLeft,
                Speaker::BackRight,
            ],
        )
    } else if channels == 5 {
        Some(
            seq![
                Speaker::FrontLeft,
                Speaker::FrontCenter,
                Speaker::FrontRight,
                Speaker::SideLeft,
                Speaker::SideRight,
            ],
        )
    } else if channels == 6 {
        Some(
            seq![
                Speaker::FrontLeft,
                Speaker::FrontCenter,
                Speaker::FrontRight,
                Speaker::SideLeft,
                Speaker::SideRight,
                Speaker::Lfe,
            ],
        )
    } else if channels == 7 {
        Some(
            seq![
                Speaker::FrontLeft,
                Speaker::FrontCenter,
                Speaker::FrontRight,
                Speaker::SideLeft,
                Speaker::SideRight,
                Speaker::BackCenter,
                Speaker::Lfe,
            ],
        )
    } else if channels == 8 {
        Some(
            seq![
                Speaker::FrontLeft,
                Speaker::FrontCenter,
                Speaker::FrontRight,
                Speaker::SideLeft,
                Speaker::SideRight,
                Speaker::BackLeft,
                Speaker::BackRight,
                Speaker::Lfe,
            ],
        )
    } else {
        None
    }
}

/// The layout of a family 1 stream of `channels`.
pub open spec fn vorbis_layout(channels: u32) -> Layout {
    if channels == 1 {
        Layout::Mono
    } else if channels == 2 {
        Layout::Stereo
    } else if channels == 3 {
        Layout::ThreePointZero
    } else if channels == 4 {
        Layout::Quad
    } else if channels == 5 {
        Layout::FivePointZero
    } else if channels == 6 {
        Layout::FivePointOne
    } else if channels == 7 {
        Layout::SixPointOne
    } else {
        Layout::SevenPointOne
    }
}

/// Whether `order` takes each canonical channel of `layout` from the channel of the same speaker.
pub open spec fn sorts(order: Seq<usize>, given: Seq<Speaker>, layout: Layout) -> bool {
    &&& order.len() == given.len()
    &&& speakers_of(layout) is Some
    &&& speakers_of(layout)->0.len() == given.len()
    &&& forall|i: int|
        0 <= i < order.len() ==> (#[trigger] order[i]) < given.len() && given[order[i] as int]
            == speakers_of(layout)->0[i]
}

/// Channels in the order they come.
pub open spec fn in_order(n: nat) -> Seq<usize> {
    Seq::new(n, |i: int| i as usize)
}

/// The layout a family 1 stream of `channels` declares, and how to reorder its channels into that
/// layout's canonical order, where they differ.
///
/// The codec puts the center between the fronts and the LFE last. Its rear pair in 5.0 and 5.1 is
/// the surround pair, which is side in the canonical layouts, while 7.1 has distinct side and rear
/// pairs.
pub fn vorbis(channels: u32) -> (r: Result<(Layout, Option<Vec<usize>>), Error>)
    ensures
        match r {
            Ok((layout, reorder)) => {
                &&& 1 <= channels <= 8
                &&& layout == vorbis_layout(channels)
                &&& sorts(
                    match reorder {
                        Some(order) => order@,
                        None => in_order(channels as nat),
                    },
                    vorbis_speakers(channels)->0,
                    layout,
                )
                &&& reorder is None <==> vorbis_speakers(channels) == speakers_of(layout)
            },
            Err(e) => !(1 <= channels <= 8) && e@ == ErrorView::Unsupported(
                "opus channel mapping family 1 has no "@ + decimal_text(channels as nat)
                    + "-channel layout"@,
            ),
        },
{
    let (layout, reorder): (Layout, Option<Vec<usize>>) = match channels {
        1 => (Layout::Mono, None),
        2 => (Layout::Stereo, None),
        3 => (Layout::ThreePointZero, Some(vec![0, 2, 1])),
        4 => (Layout::Quad, None),
        5 => (Layout::FivePointZero, Some(vec![0, 2, 1, 3, 4])),
        6 => (Layout::FivePointOne, Some(vec![0, 2, 1, 5, 3, 4])),
        7 => (Layout::SixPointOne, Some(vec![0, 2, 1, 6, 5, 3, 4])),
        8 => (Layout::SevenPointOne, Some(vec![0, 2, 1, 7, 5, 6, 3, 4])),
        other => {
            let mut text = "opus channel mapping family 1 has no ".to_owned();
            push_decimal(&mut text, other as u64);
            text.append("-channel layout");
            return Err(Error::Unsupported(text));
        },
    };
    proof {
        let given = vorbis_speakers(channels)->0;
        let canonical = speakers_of(layout)->0;
        match reorder {
            Some(_) => {
                assert(given[1] != canonical[1]);
            },
            None => {
                assert(given =~= canonical);
            },
        }
    }
    Ok((layout, reorder))
}

/// Frames of `order.len()` channels, each reordered.
pub open spec fn reordered<T>(samples: Seq<T>, order: Seq<usize>) -> Seq<T> {
    let n = order.len() as int;
    Seq::new(samples.len(), |i: int| samples[i - i % n + order[i % n]])
}

/// Reorder the channels of each frame.
pub fn reorder<T: Copy>(samples: &Vec<T>, order: &Vec<usize>) -> (r: Vec<T>)
    requires
        order@.len() > 0,
        samples@.len() as int % order@.len() as int == 0,
        forall|i: int| 0 <= i < order@.len() ==> (#[trigger] order@[i]) < order@.len(),
    ensures
        r@ == reordered(samples@, order@),
{
    let n: usize = order.len();
    let ghost all = reordered(samples@, order@);
    let mut out: Vec<T> = Vec::new();
    let mut i: usize = 0;
    while i < samples.len()
        invariant
            0 <= i <= samples@.len(),
            n == order@.len(),
            n > 0,
            samples@.len() as int % n as int == 0,
            forall|j: int| 0 <= j < order@.len() ==> (#[trigger] order@[j]) < order@.len(),
            all == reordered(samples@, order@),
            out@ == all.take(i as int),
        decreases samples@.len() - i,
    {
        proof {
            vstd::arithmetic::div_mod::lemma_mod_decreases(i as nat, n as nat);
            lemma_frame_end(samples@.len() as int, n as int, i as int);
            assert(order@[i as int % n as int] < n);
        }
        let start: usize = i - i % n;
        out.push(samples[start + order[i % n]]);
        assert(out@ =~= all.take(i + 1));
        i = i + 1;
    }
    assert(out@ =~= all);
    out
}

/// A frame that starts within whole frames ends within them.
proof fn lemma_frame_end(len: int, n: int, i: int)
    requires
        n > 0,
        len % n == 0,
        0 <= i < len,
    ensures
        0 <= i - i % n,
        i - i % n + n <= len,
{
    vstd::arithmetic::div_mod::lemma_fundamental_div_mod(len, n);
    vstd::arithmetic::div_mod::lemma_fundamental_div_mod(i, n);
    let q = len / n;
    let k = i / n;
    assert(k < q) by (nonlinear_arith)
        requires
            n > 0,
            len == n * q,
            n * k <= i,
            i < len,
    ;
    assert(n * k + n <= n * q) by (nonlinear_arith)
        requires
            n > 0,
            k < q,
    ;
    assert(0 <= n * k) by (nonlinear_arith)
        requires
            n > 0,
            k >= 0,
    ;
}

/// Every canonical channel of a reordered frame carries its own speaker.
pub proof fn law_reordering_is_canonical<T>(
    samples: Seq<T>,
    order: Seq<usize>,
    given: Seq<Speaker>,
    layout: Layout,
    frame: int,
    i: int,
)
    requires
        sorts(order, given, layout),
        order.len() > 0,
        0 <= frame,
        0 <= i < order.len(),
        (frame + 1) * order.len() <= samples.len(),
    ensures
        reordered(samples, order)[frame * order.len() + i] == samples[frame * order.len()
            + order[i]],
        given[order[i] as int] == speakers_of(layout)->0[i],
{
    let n = order.len() as int;
    let at = frame * n + i;
    assert((frame + 1) * n == frame * n + n) by (nonlinear_arith);
    assert(0 <= frame * n) by (nonlinear_arith)
        requires
            0 <= frame,
            0 < n,
    ;
    vstd::arithmetic::div_mod::lemma_fundamental_div_mod_converse(at, n, frame, i);
}

/// Why an Opus stream is refused, if it is.
pub open spec fn head_fault(head: HeadView) -> Option<ErrorView> {
    if !opus_rate(head.sample_rate) {
        Some(rate_fault(head.sample_rate))
    } else {
        match head.mapping {
            None => channels_fault(head.channel_count),
            Some(mapping) => if mapping.family != 1 {
                Some(
                    ErrorView::Unsupported(
                        "opus channel mapping family "@ + decimal_text(mapping.family as nat)
                            + " declares no speaker positions"@,
                    ),
                )
            } else if !(1 <= head.channel_count <= 8) {
                Some(
                    ErrorView::Unsupported(
                        "opus channel mapping family 1 has no "@ + decimal_text(
                            head.channel_count as nat,
                        ) + "-channel layout"@,
                    ),
                )
            } else {
                None
            },
        }
    }
}

/// Whether `plan` says how to decode the stream that `head` declares.
pub open spec fn planned(head: HeadView, plan: Plan) -> bool {
    &&& plan.sample_rate == head.sample_rate
    &&& plan.delay == head.pre_skip * head.sample_rate / 48_000
    &&& plan.max_frame_size == head.sample_rate * MAX_FRAME_MS / 1000
    &&& match head.mapping {
        None => {
            &&& plan.layout == wave_layout(head.channel_count)
            &&& plan.reorder is None
            &&& plan.streams == 1
            &&& plan.coupled == head.channel_count - 1
            &&& plan.table@ == Seq::new(head.channel_count as nat, |i: int| i as u8)
        },
        Some(mapping) => {
            &&& plan.layout == vorbis_layout(head.channel_count)
            &&& plan.streams == mapping.streams
            &&& plan.coupled == mapping.coupled
            &&& plan.table@ == mapping.table
            &&& sorts(
                match plan.reorder {
                    Some(order) => order@,
                    None => in_order(head.channel_count as nat),
                },
                vorbis_speakers(head.channel_count)->0,
                plan.layout,
            )
        },
    }
}

/// Plan how to decode an Opus stream. Without a channel mapping it is mono or stereo, one stream,
/// coupled where stereo. A family 1 mapping decodes up to 7.1 in the canonical order; no other
/// family declares speakers.
pub fn plan(head: Head) -> (r: Result<Plan, Error>)
    ensures
        match r {
            Err(e) => head_fault(head@) == Some(e@),
            Ok(plan) => head_fault(head@) is None && planned(head@, plan),
        },
{
    match validate_sample_rate(head.sample_rate) {
        Ok(_) => {},
        Err(e) => {
            return Err(e);
        },
    }
    assert(head.pre_skip * head.sample_rate <= 65_535 * 48_000) by (nonlinear_arith)
        requires
            head.pre_skip <= 65_535,
            head.sample_rate <= 48_000,
    ;
    let delay: usize = (head.pre_skip as u64 * head.sample_rate as u64 / 48_000) as usize;
    let max_frame_size: usize = (head.sample_rate as u64 * 120 / 1000) as usize;
    match head.mapping {
        None => {
            let (layout, table, coupled): (Layout, Vec<u8>, u8) = match channels_for(
                head.channel_count,
            ) {
                Ok(Channels::Mono) => (Layout::Mono, vec![0], 0),
                Ok(Channels::Stereo) => (Layout::Stereo, vec![0, 1], 1),
                Err(e) => {
                    return Err(e);
                },
            };
            assert(table@ =~= Seq::new(head.channel_count as nat, |i: int| i as u8));
            Ok(
                Plan {
                    sample_rate: head.sample_rate,
                    layout,
                    reorder: None,
                    streams: 1,
                    coupled,
                    table,
                    delay,
                    max_frame_size,
                },
            )
        },
        Some(mapping) => {
            if mapping.family != 1 {
                let mut text = "opus channel mapping family ".to_owned();
                push_decimal(&mut text, mapping.family as u64);
                text.append(" declares no speaker positions");
                return Err(Error::Unsupported(text));
            }
            match vorbis(head.channel_count) {
                Ok((layout, reorder)) => Ok(
                    Plan {
                        sample_rate: head.sample_rate,
                        layout,
                        reorder,
                        streams: mapping.streams,
                        coupled: mapping.coupled,
                        table: mapping.table,
                        delay,
                        max_frame_size,
                    },
                ),
                Err(e) => Err(e),
            }
        },
    }
}

/// Plan how to decode the Opus track of a catalog. A missing description falls back to the
/// catalog's sample rate and channel count. One that is malformed is refused: guessing the default
/// mapping would decode the packets with the wrong streams.
pub fn open(catalog: &Catalog) -> (r: Result<Plan, Error>)
    ensures
        match opus_head(*catalog) {
            Err(fault) => r is Err && r->Err_0@ == fault,
            Ok(head) => match r {
                Err(e) => head_fault(head) == Some(e@),
                Ok(plan) => head_fault(head) is None && planned(head, plan),
            },
        },
{
    match read_head(catalog) {
        Ok(head) => plan(head),
        Err(e) => Err(e),
    }
}

/// In the order that Opus carries channels, one is the center and two are the fronts. With three or
/// from five on the center stands between the fronts, from five on the sides follow, what is at the
/// back comes behind them, and from six on the low-frequency channel is the last.
pub proof fn law_carried_channels_go_around_the_front(channels: u32)
    ensures
        vorbis_speakers(channels) is Some <==> 1 <= channels <= 8,
        vorbis_speakers(channels) matches Some(all) ==> {
            &&& all.len() == channels
            &&& channels == 1 ==> all[0] == Speaker::FrontCenter
            &&& channels > 1 ==> all[0] == Speaker::FrontLeft
            &&& channels == 2 || channels == 4 ==> all[1] == Speaker::FrontRight
            &&& channels == 3 || channels > 4 ==> all[1] == Speaker::FrontCenter && all[2]
                == Speaker::FrontRight
            &&& channels == 4 ==> all[2] == Speaker::BackLeft && all[3] == Speaker::BackRight
            &&& channels > 4 ==> all[3] == Speaker::SideLeft && all[4] == Speaker::SideRight
            &&& channels == 7 ==> all[5] == Speaker::BackCenter
            &&& channels == 8 ==> all[5] == Speaker::BackLeft && all[6] == Speaker::BackRight
            &&& channels > 5 ==> all[channels - 1] == Speaker::Lfe
        },
{
}

/// The layout of a number of carried channels has as many speakers, and they are the ones carried.
pub proof fn law_a_carried_layout_has_the_carried_speakers(channels: u32, i: int)
    requires
        1 <= channels <= 8,
        0 <= i < channels,
    ensures
        speakers_of(vorbis_layout(channels)) is Some,
        speakers_of(vorbis_layout(channels))->0.len() == channels,
        speakers_of(vorbis_layout(channels))->0.contains(vorbis_speakers(channels)->0[i]),
{
    let all = speakers_of(vorbis_layout(channels))->0;
    assert(all[0] == all[0] && all[1] == all[1] && all[2] == all[2] && all[3] == all[3]);
    assert(all[4] == all[4] && all[5] == all[5] && all[6] == all[6] && all[7] == all[7]);
}

/// Reordering moves samples within their frame alone: each place of a frame takes the sample at the
/// place that the order gives for it.
pub proof fn law_samples_are_reordered_within_their_frame<T>(
    samples: Seq<T>,
    order: Seq<usize>,
    frame: int,
    place: int,
)
    requires
        0 <= place < order.len(),
        0 <= frame,
        frame * order.len() + place < samples.len(),
    ensures
        reordered(samples, order).len() == samples.len(),
        reordered(samples, order)[frame * order.len() + place] == samples[frame * order.len()
            + order[place]],
{
    let n = order.len() as int;
    let i = frame * n + place;
    assert(0 <= frame * n) by (nonlinear_arith)
        requires
            0 <= frame,
            0 < n,
    ;
    vstd::arithmetic::div_mod::lemma_fundamental_div_mod_converse_mod(i, n, frame, place);
    assert(i % n == place);
}

/// A head is played where its rate is one that Opus runs at and its channels have places: one or two
/// without a mapping, and with one of family 1 up to eight.
pub proof fn law_a_head_is_played_where_its_channels_have_places(head: HeadView)
    ensures
        head_fault(head) is None <==> {
            &&& head.sample_rate == 8_000 || head.sample_rate == 12_000 || head.sample_rate
                == 16_000 || head.sample_rate == 24_000 || head.sample_rate == 48_000
            &&& match head.mapping {
                None => 1 <= head.channel_count <= 2,
                Some(mapping) => mapping.family == 1 && 1 <= head.channel_count <= 8,
            }
        },
{
}

/// A plan decodes at the head's rate, with room for 120 ms, and leaves out the pre-skip: it counts
/// samples at 48 kHz and is rounded down to whole ones at the rate. Without a mapping there is one
/// stream, coupled where it is stereo, and with one the plan takes its streams and table as they are.
pub proof fn law_a_plan_follows_its_head(head: HeadView, plan: Plan)
    requires
        planned(head, plan),
        head_fault(head) is None,
    ensures
        plan.sample_rate == head.sample_rate,
        48_000 * plan.delay <= head.pre_skip * head.sample_rate < 48_000 * (plan.delay + 1),
        1_000 * plan.max_frame_size == 120 * head.sample_rate,
        channels_of(plan.layout) == head.channel_count,
        head.mapping matches Some(mapping) ==> plan.streams == mapping.streams && plan.coupled
            == mapping.coupled && plan.table@ == mapping.table,
        head.mapping is None ==> {
            &&& plan.streams == 1
            &&& plan.coupled == 0 <==> head.channel_count == 1
            &&& plan.coupled == 1 <==> head.channel_count == 2
            &&& plan.reorder is None
            &&& plan.table@.len() == head.channel_count
            &&& plan.table@[0] == 0
            &&& head.channel_count == 2 ==> plan.table@[1] == 1
        },
{
    if head.mapping is Some {
        law_a_carried_layout_has_the_carried_speakers(head.channel_count, 0);
    }
}

} // verus!
