//! Timestamped buffers of samples.

use super::activity::Activity;
use crate::time::Timestamp;
use vstd::prelude::*;

verus! {

/// One unit of raw PCM crossing the codec boundary. The PCM layout is fixed by the producer or
/// consumer, never per frame.
#[derive(Debug)]
pub struct Frame {
    /// Presentation timestamp of the first sample.
    pub timestamp: Timestamp,
    /// The samples, in the layout the producer or consumer was built with.
    pub data: Vec<u8>,
    /// Whether the packet these samples came out of coded audio, or none at all.
    pub activity: Activity,
}

impl Frame {
    /// PCM shown at `timestamp`, classified active.
    pub fn new(data: Vec<u8>, timestamp: Timestamp) -> (r: Self)
        ensures
            r == (Frame { timestamp, data, activity: Activity::Active }),
    {
        Frame { timestamp, data, activity: Activity::Active }
    }
}

} // verus!
