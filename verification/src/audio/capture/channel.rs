//! A bounded handoff from a realtime capture callback to the capture loop.
//!
//! The sender never blocks: when the reader falls behind, the newest buffer is dropped and counted.
//! The reader observes that as a gap and re-anchors its timeline.

use crate::time::Duration;
use vstd::prelude::*;

verus! {

/// How many buffers the queue holds: roughly 80 ms at the common 10 ms callback cadence.
pub const DEPTH: usize = 8;

/// Drops are reported at most this often, in nanoseconds.
pub const REPORT_INTERVAL: u128 = 1_000_000_000;

/// How handing a buffer to the queue ended.
#[derive(Clone, Copy, Debug, PartialEq, Eq, Structural)]
pub enum Sent {
    /// It was queued.
    Queued,
    /// The queue was full.
    Full,
    /// The reader is gone.
    Closed,
}

/// How many drops an attempt to queue one buffer adds. A closed queue means the reader is gone,
/// which loses nothing.
pub fn dropped(sent: Sent) -> (r: u64)
    ensures
        r == (if sent == Sent::Full {
            1u64
        } else {
            0u64
        }),
{
    match sent {
        Sent::Full => 1,
        _ => 0,
    }
}

/// What the reading end knows about dropped buffers.
#[derive(Clone, Copy, Debug, PartialEq, Eq, Structural)]
pub struct Drops {
    /// Whether anything was dropped since the flag was last taken.
    pub gap: bool,
    /// Drops that were not reported yet.
    pub unreported: u64,
    /// When drops were last reported, on the reader's clock.
    pub last_report: Option<Duration>,
}

/// Whether a report is due at `now`.
pub open spec fn report_due(last: Option<Duration>, now: Duration) -> bool {
    match last {
        Some(last) => now.nanos - last.nanos >= REPORT_INTERVAL,
        None => true,
    }
}

impl Drops {
    /// Nothing dropped.
    pub fn new() -> (r: Self)
        ensures
            r == (Drops { gap: false, unreported: 0, last_report: None }),
    {
        Drops { gap: false, unreported: 0, last_report: None }
    }

    /// Whether anything was dropped since the last call, so the item just read is not contiguous
    /// with the previous one. Clears the flag.
    pub fn gap(&mut self) -> (r: bool)
        ensures
            r == old(self).gap,
            *final(self) == (Drops { gap: false, ..*old(self) }),
    {
        let gap: bool = self.gap;
        self.gap = false;
        gap
    }

    /// Fold drops into the gap flag and the throttled report: the count to report now, if any.
    pub fn observe(&mut self, dropped: u64, now: Duration) -> (r: Option<u64>)
        requires
            old(self).unreported + dropped <= u64::MAX,
            old(self).last_report matches Some(last) ==> last.nanos <= now.nanos,
        ensures
            final(self).gap == (old(self).gap || dropped > 0),
            ({
                let total = (old(self).unreported + dropped) as u64;
                if total > 0 && report_due(old(self).last_report, now) {
                    r == Some(total) && final(self).unreported == 0 && final(self).last_report
                        == Some(now)
                } else {
                    r is None && final(self).unreported == total && final(self).last_report == old(self).last_report
                }
            }),
    {
        if dropped > 0 {
            self.gap = true;
            self.unreported = self.unreported + dropped;
        }
        if self.unreported == 0 {
            return None;
        }
        if let Some(last) = self.last_report {
            if now.nanos - last.nanos < REPORT_INTERVAL {
                return None;
            }
        }
        let total: u64 = self.unreported;
        self.last_report = Some(now);
        self.unreported = 0;
        Some(total)
    }
}

/// Drops are reported at most once a second, and at once the first time.
pub proof fn law_drops_are_reported_once_a_second(last: Duration, now: Duration)
    ensures
        report_due(None, now),
        report_due(Some(last), now) <==> last.nanos + 1_000_000_000 <= now.nanos,
        DEPTH == 8,
{
}

} // verus!
