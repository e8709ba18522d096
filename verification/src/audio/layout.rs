//! Channel layouts, and the speakers they name.

use super::error::{Error, ErrorView};
use vstd::prelude::*;

verus! {

/// Speaker meaning and interleaving order for PCM channels.
///
/// Named layouts interleave in the SMPTE/WAVE order, keeping only the speakers the layout has.
/// Every decoder reorders its codec's native order into this one.
#[derive(Clone, Copy, Debug, PartialEq, Eq, Structural)]
#[non_exhaustive]
pub enum Layout {
    /// One center channel.
    Mono,
    /// Left then right channels.
    Stereo,
    /// Channels with no declared speaker positions, in source order.
    ///
    /// Passes through unchanged but can't be remixed into another layout.
    Discrete(u32),
    /// 2.1: left, right, LFE.
    TwoPointOne,
    /// 3.0: left, right, center.
    ThreePointZero,
    /// Quad: left, right, back left, back right.
    Quad,
    /// 4.0: left, right, center, back center.
    FourPointZero,
    /// 5.0: left, right, center, side left, side right.
    FivePointZero,
    /// 5.1: left, right, center, LFE, side left, side right.
    FivePointOne,
    /// 6.1: left, right, center, LFE, back center, side left, side right.
    SixPointOne,
    /// 7.1: left, right, center, LFE, back left, back right, side left, side right.
    SevenPointOne,
}

impl Default for Layout {
    fn default() -> (r: Self)
        ensures
            r == Layout::Stereo,
    {
        Layout::Stereo
    }
}

/// One speaker position, declared in the canonical interleaving order.
#[derive(Clone, Copy, Debug, PartialEq, Eq, Structural)]
pub enum Speaker {
    FrontLeft,
    FrontRight,
    FrontCenter,
    Lfe,
    BackLeft,
    BackRight,
    BackCenter,
    SideLeft,
    SideRight,
}

impl Speaker {
    /// The speaker's place in the canonical order.
    pub open spec fn rank(self) -> int {
        match self {
            Speaker::FrontLeft => 0,
            Speaker::FrontRight => 1,
            Speaker::FrontCenter => 2,
            Speaker::Lfe => 3,
            Speaker::BackLeft => 4,
            Speaker::BackRight => 5,
            Speaker::BackCenter => 6,
            Speaker::SideLeft => 7,
            Speaker::SideRight => 8,
        }
    }
}

/// The speakers a layout feeds, in interleaved order, or `None` for a discrete layout.
pub open spec fn speakers_of(layout: Layout) -> Option<Seq<Speaker>> {
    match layout {
        Layout::Mono => Some(seq![Speaker::FrontCenter]),
        Layout::Stereo => Some(seq![Speaker::FrontLeft, Speaker::FrontRight]),
        Layout::Discrete(_) => None,
        Layout::TwoPointOne => Some(
            seq![Speaker::FrontLeft, Speaker::FrontRight, Speaker::Lfe],
        ),
        Layout::ThreePointZero => Some(
            seq![Speaker::FrontLeft, Speaker::FrontRight, Speaker::FrontCenter],
        ),
        Layout::Quad => Some(
            seq![
                Speaker::FrontLeft,
                Speaker::FrontRight,
                Speaker::BackLeft,
                Speaker::BackRight,
            ],
        ),
        Layout::FourPointZero => Some(
            seq![
                Speaker::FrontLeft,
                Speaker::FrontRight,
                Speaker::FrontCenter,
                Speaker::BackCenter,
            ],
        ),
        Layout::FivePointZero => Some(
            seq![
                Speaker::FrontLeft,
                Speaker::FrontRight,
                Speaker::FrontCenter,
                Speaker::SideLeft,
                Speaker::SideRight,
            ],
        ),
        Layout::FivePointOne => Some(
            seq![
                Speaker::FrontLeft,
                Speaker::FrontRight,
                Speaker::FrontCenter,
                Speaker::Lfe,
                Speaker::SideLeft,
                Speaker::SideRight,
            ],
        ),
        Layout::SixPointOne => Some(
            seq![
                Speaker::FrontLeft,
                Speaker::FrontRight,
                Speaker::FrontCenter,
                Speaker::Lfe,
                Speaker::BackCenter,
                Speaker::SideLeft,
                Speaker::SideRight,
            ],
        ),
        Layout::SevenPointOne => Some(
            seq![
                Speaker::FrontLeft,
                Speaker::FrontRight,
                Speaker::FrontCenter,
                Speaker::Lfe,
                Speaker::BackLeft,
                Speaker::BackRight,
                Speaker::SideLeft,
                Speaker::SideRight,
            ],
        ),
    }
}

/// How many channels a layout interleaves.
pub open spec fn channels_of(layout: Layout) -> nat {
    match layout {
        Layout::Discrete(channels) => channels as nat,
        _ => speakers_of(layout)->0.len(),
    }
}

/// The layout of a channel count by the WAVE convention.
pub open spec fn wave_layout(channels: u32) -> Layout {
    if channels == 1 {
        Layout::Mono
    } else if channels == 2 {
        Layout::Stereo
    } else if channels == 3 {
        Layout::TwoPointOne
    } else if channels == 4 {
        Layout::Quad
    } else if channels == 5 {
        Layout::FivePointZero
    } else if channels == 6 {
        Layout::FivePointOne
    } else if channels == 7 {
        Layout::SixPointOne
    } else if channels == 8 {
        Layout::SevenPointOne
    } else {
        Layout::Discrete(channels)
    }
}

/// What a layout without channels is refused with.
pub open spec fn no_channels() -> ErrorView {
    ErrorView::Unsupported("audio layout must contain at least one channel"@)
}

impl Layout {
    /// The default layout for a channel count, by the WAVE convention: 1 is mono, 2 stereo, 3 2.1,
    /// 4 quad, 5 5.0, 6 5.1, 7 6.1, and 8 7.1.
    ///
    /// Any other count is [`Discrete`](Self::Discrete), since there is no convention to take
    /// speaker positions from.
    pub fn from_channels(channels: u32) -> (r: Result<Self, Error>)
        ensures
            match r {
                Ok(layout) => channels > 0 && layout == wave_layout(channels),
                Err(e) => channels == 0 && e@ == no_channels(),
            },
    {
        match channels {
            0 => Err(
                Error::Unsupported("audio layout must contain at least one channel".to_owned()),
            ),
            1 => Ok(Layout::Mono),
            2 => Ok(Layout::Stereo),
            3 => Ok(Layout::TwoPointOne),
            4 => Ok(Layout::Quad),
            5 => Ok(Layout::FivePointZero),
            6 => Ok(Layout::FivePointOne),
            7 => Ok(Layout::SixPointOne),
            8 => Ok(Layout::SevenPointOne),
            channels => Ok(Layout::Discrete(channels)),
        }
    }

    /// Number of interleaved channels in this layout.
    pub fn channels(self) -> (r: u32)
        ensures
            r == channels_of(self),
    {
        match self {
            Layout::Mono => 1,
            Layout::Stereo => 2,
            Layout::Discrete(channels) => channels,
            Layout::TwoPointOne => 3,
            Layout::ThreePointZero => 3,
            Layout::Quad => 4,
            Layout::FourPointZero => 4,
            Layout::FivePointZero => 5,
            Layout::FivePointOne => 6,
            Layout::SixPointOne => 7,
            Layout::SevenPointOne => 8,
        }
    }

    /// The speaker each channel feeds, in interleaved order, or `None` for a discrete layout.
    pub fn speakers(self) -> (r: Option<Vec<Speaker>>)
        ensures
            match r {
                Some(speakers) => speakers_of(self) == Some(speakers@),
                None => speakers_of(self) is None,
            },
    {
        let speakers: Vec<Speaker> = match self {
            Layout::Discrete(_) => {
                return None;
            },
            Layout::Mono => vec![Speaker::FrontCenter],
            Layout::Stereo => vec![Speaker::FrontLeft, Speaker::FrontRight],
            Layout::TwoPointOne => vec![Speaker::FrontLeft, Speaker::FrontRight, Speaker::Lfe],
            Layout::ThreePointZero => vec![
                Speaker::FrontLeft,
                Speaker::FrontRight,
                Speaker::FrontCenter,
            ],
            Layout::Quad => vec![
                Speaker::FrontLeft,
                Speaker::FrontRight,
                Speaker::BackLeft,
                Speaker::BackRight,
            ],
            Layout::FourPointZero => vec![
                Speaker::FrontLeft,
                Speaker::FrontRight,
                Speaker::FrontCenter,
                Speaker::BackCenter,
            ],
            Layout::FivePointZero => vec![
                Speaker::FrontLeft,
                Speaker::FrontRight,
                Speaker::FrontCenter,
                Speaker::SideLeft,
                Speaker::SideRight,
            ],
            Layout::FivePointOne => vec![
                Speaker::FrontLeft,
                Speaker::FrontRight,
                Speaker::FrontCenter,
                Speaker::Lfe,
                Speaker::SideLeft,
                Speaker::SideRight,
            ],
            Layout::SixPointOne => vec![
                Speaker::FrontLeft,
                Speaker::FrontRight,
                Speaker::FrontCenter,
                Speaker::Lfe,
                Speaker::BackCenter,
                Speaker::SideLeft,
                Speaker::SideRight,
            ],
            Layout::SevenPointOne => vec![
                Speaker::FrontLeft,
                Speaker::FrontRight,
                Speaker::FrontCenter,
                Speaker::Lfe,
                Speaker::BackLeft,
                Speaker::BackRight,
                Speaker::SideLeft,
                Speaker::SideRight,
            ],
        };
        assert(speakers@ =~= speakers_of(self)->0);
        Some(speakers)
    }

    /// Refuse a layout without channels.
    pub fn validate(self) -> (r: Result<(), Error>)
        ensures
            match r {
                Ok(_) => channels_of(self) > 0,
                Err(e) => channels_of(self) == 0 && e@ == no_channels(),
            },
    {
        if self.channels() == 0 {
            return Err(
                Error::Unsupported("audio layout must contain at least one channel".to_owned()),
            );
        }
        Ok(())
    }
}

/// The layout of a channel count has that many channels.
pub proof fn law_layout_keeps_its_count(channels: u32)
    requires
        channels > 0,
    ensures
        channels_of(wave_layout(channels)) == channels,
{
}

/// Every named layout's speakers follow the canonical order without repeating.
pub proof fn law_speakers_follow_the_canonical_order(layout: Layout)
    requires
        speakers_of(layout) is Some,
    ensures
        forall|i: int, j: int|
            0 <= i < j < speakers_of(layout)->0.len() ==> (#[trigger] speakers_of(
                layout,
            )->0[i]).rank() < (#[trigger] speakers_of(layout)->0[j]).rank(),
{
}

/// Speakers are ranked from the front to the back and then the sides, left before right, with the
/// center behind the two fronts and the low-frequency one behind it.
pub proof fn law_speakers_are_ranked_front_to_side(speaker: Speaker)
    ensures
        0 <= speaker.rank() < 9,
        seq![
            Speaker::FrontLeft,
            Speaker::FrontRight,
            Speaker::FrontCenter,
            Speaker::Lfe,
            Speaker::BackLeft,
            Speaker::BackRight,
            Speaker::BackCenter,
            Speaker::SideLeft,
            Speaker::SideRight,
        ][speaker.rank()] == speaker,
{
}

/// Every layout of speakers but the one of a single channel has both fronts. Which others it has is
/// what its name counts: a center for an odd number of full-range speakers or where there are at
/// least five, a low-frequency one for a number behind the point, and the rest at the sides or back.
pub proof fn law_layouts_hold_the_speakers_they_name(layout: Layout)
    ensures
        speakers_of(layout) is None <==> layout is Discrete,
        speakers_of(layout) matches Some(all) ==> {
            &&& all.contains(Speaker::FrontLeft) <==> layout !is Mono
            &&& all.contains(Speaker::FrontRight) <==> layout !is Mono
            &&& all.contains(Speaker::FrontCenter) <==> !(layout is Stereo || layout is TwoPointOne
                || layout is Quad)
            &&& all.contains(Speaker::Lfe) <==> layout is TwoPointOne || layout is FivePointOne
                || layout is SixPointOne || layout is SevenPointOne
            &&& all.contains(Speaker::BackLeft) <==> layout is Quad || layout is SevenPointOne
            &&& all.contains(Speaker::BackRight) <==> layout is Quad || layout is SevenPointOne
            &&& all.contains(Speaker::BackCenter) <==> layout is FourPointZero
                || layout is SixPointOne
            &&& all.contains(Speaker::SideLeft) <==> layout is FivePointZero
                || layout is FivePointOne || layout is SixPointOne || layout is SevenPointOne
            &&& all.contains(Speaker::SideRight) <==> layout is FivePointZero
                || layout is FivePointOne || layout is SixPointOne || layout is SevenPointOne
        },
{
    if let Some(all) = speakers_of(layout) {
        lemma_contains(all, Speaker::FrontLeft);
        lemma_contains(all, Speaker::FrontRight);
        lemma_contains(all, Speaker::FrontCenter);
        lemma_contains(all, Speaker::Lfe);
        lemma_contains(all, Speaker::BackLeft);
        lemma_contains(all, Speaker::BackRight);
        lemma_contains(all, Speaker::BackCenter);
        lemma_contains(all, Speaker::SideLeft);
        lemma_contains(all, Speaker::SideRight);
    }
}

/// Channels without a declared layout are taken for the layout of as many speakers from one to
/// eight, and for none beyond. Three have a low-frequency one in place of a center, and four have
/// two at the back.
pub proof fn law_channels_are_taken_for_a_layout(channels: u32)
    ensures
        channels_of(wave_layout(channels)) == channels,
        wave_layout(channels) is Discrete <==> channels == 0 || channels > 8,
        channels == 3 ==> speakers_of(wave_layout(channels))->0[2] == Speaker::Lfe,
        channels == 4 ==> speakers_of(wave_layout(channels))->0[2] == Speaker::BackLeft,
        forall|n: u32| channels_of(Layout::Discrete(n)) == n,
{
    if channels > 0 {
        law_layout_keeps_its_count(channels);
    }
}

proof fn lemma_contains(all: Seq<Speaker>, speaker: Speaker)
    requires
        1 <= all.len() <= 8,
    ensures
        all.contains(speaker) <==> {
            ||| all[0] == speaker
            ||| all.len() > 1 && all[1] == speaker
            ||| all.len() > 2 && all[2] == speaker
            ||| all.len() > 3 && all[3] == speaker
            ||| all.len() > 4 && all[4] == speaker
            ||| all.len() > 5 && all[5] == speaker
            ||| all.len() > 6 && all[6] == speaker
            ||| all.len() > 7 && all[7] == speaker
        },
{
}

} // verus!
