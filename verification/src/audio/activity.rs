//! Whether audio is active or silent.

use vstd::prelude::*;

verus! {

/// Whether a packet carried coded audio, or none at all.
///
/// Codecs without a discontinuous mode are always [`Active`](Self::Active). A run of
/// [`Dtx`](Self::Dtx) is interrupted by ordinarily coded frames of silence, so audio is never
/// reported as silence, but silence is reported as audio a frame at a time.
#[derive(Clone, Copy, Debug, PartialEq, Eq, Structural)]
pub enum Activity {
    /// The packet coded audio for this frame.
    Active,
    /// The packet coded no audio for this frame, which the sender does while its input is silent.
    Dtx,
}

impl Activity {
    /// Whether the packet coded audio for this frame.
    pub fn is_active(self) -> (r: bool)
        ensures
            r == (self is Active),
    {
        match self {
            Activity::Active => true,
            Activity::Dtx => false,
        }
    }

    /// Whether the packet coded no audio for this frame.
    pub fn is_dtx(self) -> (r: bool)
        ensures
            r == (self is Dtx),
    {
        match self {
            Activity::Active => false,
            Activity::Dtx => true,
        }
    }
}

impl Default for Activity {
    fn default() -> (r: Self)
        ensures
            r == Activity::Active,
    {
        Activity::Active
    }
}

/// Whether a packet coded audio, by the sizes of its frames. A frame of one byte or none is withheld,
/// so a packet of such frames alone coded nothing; one whose frames cannot be told apart is taken to
/// have coded audio. No sizes at all stand for an empty packet, which conceals a lost one: a loss
/// during silence stays silent, and one during audio stays active.
pub fn activity(sizes: Option<&Vec<i16>>, in_dtx: bool) -> (r: Activity)
    ensures
        r is Dtx <==> match sizes {
            None => in_dtx,
            Some(sizes) => sizes@.len() > 0 && forall|i: int|
                0 <= i < sizes@.len() ==> #[trigger] sizes@[i] <= 1,
        },
{
    let frames: &Vec<i16> = match sizes {
        None => {
            return if in_dtx {
                Activity::Dtx
            } else {
                Activity::Active
            };
        },
        Some(frames) => frames,
    };
    let mut i: usize = 0;
    while i < frames.len()
        invariant
            sizes == Some(frames),
            i <= frames@.len(),
            forall|j: int| 0 <= j < i ==> #[trigger] frames@[j] <= 1,
        decreases frames@.len() - i,
    {
        if frames[i] > 1 {
            return Activity::Active;
        }
        i = i + 1;
    }
    if frames.len() == 0 {
        Activity::Active
    } else {
        Activity::Dtx
    }
}

} // verus!
