//! How long a recording is kept, and what expires.

use crate::archive::timeline::Record;
use crate::time::Duration;
use std::collections::VecDeque;
use vstd::prelude::*;

verus! {

/// A retention policy.
#[derive(Clone, Copy, Debug, PartialEq, Eq, Structural)]
pub struct Retention {
    /// Keep at least this much of each track's content, measured from its timeline records.
    pub window: Duration,
    /// How long expired objects outlive the timeline that stopped advertising them, so readers
    /// holding an older timeline can finish their fetches.
    pub grace: Duration,
}

impl Retention {
    /// Keep `window` of content and delete expired objects `grace` after they leave the timeline.
    pub fn new(window: Duration, grace: Duration) -> (r: Self)
        ensures
            r == (Retention { window, grace }),
    {
        Retention { window, grace }
    }

    /// The retained content in milliseconds, the unit of a record's times, rounded up.
    pub open spec fn target(self) -> int {
        (self.window.nanos + 999_999) / 1_000_000
    }

    /// The retained content in milliseconds, rounded up.
    fn target_millis(&self) -> (r: u128)
        ensures
            r == self.target(),
    {
        let whole: u128 = self.window.nanos / 1_000_000;
        if self.window.nanos % 1_000_000 > 0 {
            whole + 1
        } else {
            whole
        }
    }
}

/// How a writer cuts and retains its recording, `T` saying how records are cut.
#[derive(Clone, Copy, Debug, PartialEq, Eq)]
#[non_exhaustive]
pub struct Config<T> {
    /// How each track's records are cut.
    pub timeline: T,
    /// Expire old records, or keep everything when `None`.
    pub retention: Option<Retention>,
}

impl<T> Config<T> {
    /// Cut records by `timeline` and keep everything.
    pub fn new(timeline: T) -> (r: Self)
        ensures
            r == (Config { timeline, retention: None }),
    {
        Config { timeline, retention: None }
    }

    /// Cut records by `timeline`.
    pub fn with_timeline(self, timeline: T) -> (r: Self)
        ensures
            r == (Config { timeline, retention: self.retention }),
    {
        Config { timeline, retention: self.retention }
    }

    /// Expire old records by `retention`, or keep everything when `None`.
    pub fn with_retention(self, retention: Option<Retention>) -> (r: Self)
        ensures
            r == (Config { timeline: self.timeline, retention }),
    {
        Config { timeline: self.timeline, retention }
    }
}

/// Where the newest of `records` ends.
pub open spec fn newest_end(records: Seq<Record>) -> int {
    records.last().pts + records.last().duration
}

/// How much the records from the `from`-th on hold, up to where the newest ends.
pub open spec fn held(records: Seq<Record>, from: int) -> int {
    let span = newest_end(records) - records[from].pts;
    if span < 0 {
        0
    } else {
        span
    }
}

/// Whether the records from the `from`-th on cover `target` by themselves.
pub open spec fn covers(records: Seq<Record>, from: int, target: int) -> bool {
    held(records, from) >= target
}

/// How many of the oldest records can go: each may go while the ones after it cover `target`.
pub open spec fn expired_count(records: Seq<Record>, target: int) -> int
    decreases records.len(),
{
    if records.len() > 1 && covers(records, 1, target) {
        1 + expired_count(records.skip(1), target)
    } else {
        0
    }
}

/// Pop the oldest records while the rest still cover the retention window, and return them. The
/// newest record always stays, such as a catalog that never changes.
pub fn expire(retention: &Retention, window: &mut VecDeque<Record>) -> (r: Vec<Record>)
    ensures
        r@ == old(window)@.take(expired_count(old(window)@, retention.target())),
        final(window)@ == old(window)@.skip(expired_count(old(window)@, retention.target())),
{
    let target: u128 = retention.target_millis();
    let ghost all = window@;
    let ghost goal = retention.target();
    let mut expired: Vec<Record> = Vec::new();
    proof {
        lemma_expired_bounds(all, goal);
        assert(all.skip(0) =~= all);
    }
    while window.len() > 1
        invariant
            target == goal,
            goal == retention.target(),
            0 <= expired@.len() <= expired_count(all, goal) <= all.len(),
            expired@ == all.take(expired@.len() as int),
            window@ == all.skip(expired@.len() as int),
            expired_count(all, goal) == expired@.len() + expired_count(window@, goal),
        ensures
            expired@.len() == expired_count(all, goal),
            expired@ == all.take(expired@.len() as int),
            window@ == all.skip(expired@.len() as int),
        decreases window@.len(),
    {
        let newest = window[window.len() - 1];
        let end: u128 = newest.pts as u128 + newest.duration as u128;
        let second: u128 = window[1].pts as u128;
        let kept: u128 = if end < second {
            0
        } else {
            end - second
        };
        assert(window@.last() == newest);
        assert(covers(window@, 1, goal) <==> kept >= target);
        if kept < target {
            break;
        }
        let ghost before = window@;
        if let Some(record) = window.pop_front() {
            assert(window@ =~= before.skip(1));
            expired.push(record);
            assert(expired@ =~= all.take(expired@.len() as int));
            assert(window@ =~= all.skip(expired@.len() as int));
            proof {
                lemma_expired_bounds(window@, goal);
            }
        }
    }
    expired
}

proof fn lemma_expired_bounds(records: Seq<Record>, target: int)
    ensures
        0 <= expired_count(records, target) <= records.len(),
        records.len() > 0 ==> expired_count(records, target) < records.len(),
    decreases records.len(),
{
    if records.len() > 1 && covers(records, 1, target) {
        lemma_expired_bounds(records.skip(1), target);
    }
}

/// What stays after expiry still covers the retention window, and holds the newest record.
pub proof fn law_window_stays_covered(records: Seq<Record>, target: int)
    requires
        records.len() > 0,
    ensures
        ({
            let kept = records.skip(expired_count(records, target));
            &&& kept.len() > 0
            &&& kept.last() == records.last()
            &&& expired_count(records, target) > 0 ==> covers(kept, 0, target)
        }),
    decreases records.len(),
{
    lemma_expired_bounds(records, target);
    let n = expired_count(records, target);
    if n > 0 {
        let rest = records.skip(1);
        lemma_expired_bounds(rest, target);
        law_window_stays_covered(rest, target);
        assert(rest.skip(n - 1) =~= records.skip(n));
        if n == 1 {
            assert(rest.skip(0) =~= rest);
        }
    }
}

/// Expiry keeps at least the policy's window of content, to the nanosecond, and always the newest
/// record. It keeps no record more than that takes: without the oldest one kept, the rest would hold
/// less than the window.
pub proof fn law_at_least_the_window_is_kept(retention: Retention, records: Seq<Record>)
    requires
        records.len() > 0,
    ensures
        ({
            let n = expired_count(records, retention.target());
            let kept = records.skip(n);
            &&& kept.len() > 0
            &&& kept.last() == records.last()
            &&& n > 0 ==> held(kept, 0) * 1_000_000 >= retention.window.nanos
            &&& kept.len() > 1 ==> held(kept, 1) * 1_000_000 < retention.window.nanos
        }),
{
    let target = retention.target();
    law_window_stays_covered(records, target);
    law_expiry_settles(records, target);
    lemma_expired_bounds(records.skip(expired_count(records, target)).skip(1), target);
}

/// Expiring twice in a row takes nothing the second time.
pub proof fn law_expiry_settles(records: Seq<Record>, target: int)
    ensures
        expired_count(records.skip(expired_count(records, target)), target) == 0,
    decreases records.len(),
{
    let n = expired_count(records, target);
    lemma_expired_bounds(records, target);
    if n > 0 {
        law_expiry_settles(records.skip(1), target);
        lemma_expired_bounds(records.skip(1), target);
        assert(records.skip(1).skip(n - 1) =~= records.skip(n));
    } else {
        assert(records.skip(0) =~= records);
    }
}

/// What expiry leaves reaches back from the end of the newest record to the start of the oldest one
/// left, and that is at least the policy's window wherever a record went. From the start of the next
/// one it would be less.
pub proof fn law_the_window_is_measured_between_records(retention: Retention, records: Seq<Record>)
    requires
        records.len() > 0,
    ensures
        ({
            let n = expired_count(records, retention.target());
            let kept = records.skip(n);
            let newest = records[records.len() - 1];
            let end = newest.pts + newest.duration;
            &&& 0 <= n < records.len()
            &&& n > 0 ==> retention.window.nanos == 0 || (end - kept[0].pts) * 1_000_000
                >= retention.window.nanos
            &&& kept.len() > 1 ==> (end - kept[1].pts) * 1_000_000 < retention.window.nanos
        }),
{
    lemma_expired_bounds(records, retention.target());
    law_at_least_the_window_is_kept(retention, records);
}

} // verus!
