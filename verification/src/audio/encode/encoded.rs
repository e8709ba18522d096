//! Encoded packets.

use crate::audio::activity::Activity;
use vstd::prelude::*;

verus! {

/// One encoded audio packet, plus what the codec was doing when it produced it.
#[derive(Debug)]
pub struct Encoded {
    /// The packet, in the framing the matching catalog importer expects.
    pub payload: Vec<u8>,
    /// Real audio, or the comfort noise sent while the input is silent.
    pub activity: Activity,
}

impl Encoded {
    /// A packet carrying real audio.
    pub fn new(payload: Vec<u8>) -> (r: Self)
        ensures
            r == (Encoded { payload, activity: Activity::Active }),
    {
        Encoded { payload, activity: Activity::Active }
    }
}

} // verus!
