//! From a device's format to the encoder's.

use crate::audio::capture::device::Layout;
use crate::audio::error::Error;
use crate::audio::layout::{no_channels, wave_layout};
use vstd::prelude::*;

verus! {

/// Converts one opened stream's native layout into the producer's fixed input layout. A new
/// instance per open keeps filter state out of recovery gaps.
#[derive(Clone, Copy, Debug, PartialEq, Eq, Structural)]
pub struct Converter {
    input: Layout,
    output: Layout,
    /// The timestamp of the first input that is buffered and was not returned yet.
    anchor_us: Option<u64>,
}

impl Converter {
    /// The stream's layout.
    pub closed spec fn input(self) -> Layout {
        self.input
    }

    /// The producer's layout.
    pub closed spec fn output(self) -> Layout {
        self.output
    }

    /// The timestamp of the first input that is buffered and was not returned yet.
    pub closed spec fn anchor(self) -> Option<u64> {
        self.anchor_us
    }

    /// Convert `input` to `output`. Channel counts that differ have to name layouts.
    pub fn new(input: Layout, output: Layout) -> (r: Result<Self, Error>)
        ensures
            match r {
                Ok(c) => {
                    &&& input.channels == output.channels || input.channels > 0 && output.channels
                        > 0
                    &&& c.input() == input
                    &&& c.output() == output
                    &&& c.anchor() is None
                },
                Err(e) => {
                    &&& input.channels != output.channels
                    &&& input.channels == 0 || output.channels == 0
                    &&& e@ == no_channels()
                },
            },
    {
        if input.channels != output.channels {
            let _ = crate::audio::layout::Layout::from_channels(input.channels)?;
            let _ = crate::audio::layout::Layout::from_channels(output.channels)?;
        }
        Ok(Converter { input, output, anchor_us: None })
    }

    /// How many frames the resampler takes at a time, where the rates differ. Ten milliseconds
    /// bounds recovery buffering, independent of the device callback size.
    pub fn chunk_frames(&self) -> (r: Option<usize>)
        ensures
            if self.input().sample_rate == self.output().sample_rate {
                r is None
            } else {
                r == Some(
                    if self.input().sample_rate < 100 {
                        1usize
                    } else {
                        (self.input().sample_rate / 100) as usize
                    },
                )
            },
    {
        if self.input.sample_rate == self.output.sample_rate {
            None
        } else {
            let frames: usize = (self.input.sample_rate / 100) as usize;
            if frames < 1 {
                Some(1)
            } else {
                Some(frames)
            }
        }
    }

    /// The layouts to remix between, where the channel counts differ.
    pub fn remix(&self) -> (r: Result<
        Option<(crate::audio::layout::Layout, crate::audio::layout::Layout)>,
        Error,
    >)
        ensures
            if self.input().channels == self.output().channels {
                r is Ok && r->Ok_0 is None
            } else if self.input().channels == 0 || self.output().channels == 0 {
                r is Err && r->Err_0@ == no_channels()
            } else {
                r is Ok && r->Ok_0 == Some(
                    (wave_layout(self.input().channels), wave_layout(self.output().channels)),
                )
            },
    {
        if self.input.channels == self.output.channels {
            return Ok(None);
        }
        let input = crate::audio::layout::Layout::from_channels(self.input.channels)?;
        let output = crate::audio::layout::Layout::from_channels(self.output.channels)?;
        Ok(Some((input, output)))
    }

    /// Forget what is buffered.
    pub fn reset(&mut self)
        ensures
            final(self).anchor() is None,
            final(self).input() == old(self).input(),
            final(self).output() == old(self).output(),
    {
        self.anchor_us = None;
    }

    /// Take in a buffer, before it is resampled. Returns whether the resampler has to forget what it
    /// buffered, which a gap asks for.
    pub fn begin(&mut self, gap: bool, empty: bool, timestamp_us: u64) -> (r: bool)
        ensures
            r == gap,
            final(self).input() == old(self).input(),
            final(self).output() == old(self).output(),
            final(self).anchor() == (if !gap && old(self).anchor() is Some {
                old(self).anchor()
            } else if empty {
                None
            } else {
                Some(timestamp_us)
            }),
    {
        if gap {
            self.reset();
        }
        if self.anchor_us.is_none() && !empty {
            self.anchor_us = Some(timestamp_us);
        }
        gap
    }

    /// The timestamp of the converted samples: that of the first input buffered into them. `None`
    /// where the conversion held everything back, so the timestamp is kept for what follows.
    pub fn finish(&mut self, empty: bool, timestamp_us: u64) -> (r: Option<u64>)
        ensures
            final(self).input() == old(self).input(),
            final(self).output() == old(self).output(),
            if empty {
                r is None && final(self).anchor() == old(self).anchor()
            } else {
                r == Some(
                    match old(self).anchor() {
                        Some(anchor) => anchor,
                        None => timestamp_us,
                    },
                ) && final(self).anchor() is None
            },
    {
        if empty {
            return None;
        }
        let timestamp: u64 = match self.anchor_us {
            Some(anchor) => anchor,
            None => timestamp_us,
        };
        self.anchor_us = None;
        Some(timestamp)
    }
}

} // verus!
