//! Arithmetic on packet timestamps.

use crate::audio::error::{Error, ErrorView};
use crate::time::{lemma_is_quotient, lemma_quotient, law_own_units_are_kept, rescaled, Timestamp};
use vstd::prelude::*;

verus! {

/// The finest quantization a packet can be assumed to have kept, in units per second: a wire that
/// cannot carry a timescale falls back to milliseconds.
pub const FINEST: u64 = 1000;

/// How far a packet may miss the one before it, in units of a second's `scale`: one unit of the
/// coarsest timescale on the path, and one of the stamp's own for rounding.
pub open spec fn tolerance(scale: int) -> int {
    let quantum = if scale < FINEST {
        scale
    } else {
        FINEST as int
    };
    (scale + quantum - 1) / quantum + 1
}

/// Whether `timestamp` fails to continue `expected`, leaving a hole or an overlap rather than the
/// next packet in line.
pub open spec fn is_discontinuous(expected: Timestamp, timestamp: Timestamp) -> bool {
    let scale = if expected.scale < timestamp.scale {
        timestamp.scale as int
    } else {
        expected.scale as int
    };
    let gap = expected.units(scale) - timestamp.units(scale);
    gap > tolerance(scale) || -gap > tolerance(scale)
}

/// Whether `timestamp` fails to continue `expected`.
///
/// Exact contiguity cannot be the test: stamps in whole milliseconds land beside where a frame of
/// 23.22 ms ended. The slack is the quantization the stamps carry, and nothing else, because a
/// single lost packet lands exactly one frame off.
pub fn discontinuous(expected: Timestamp, timestamp: Timestamp) -> (r: bool)
    requires
        expected.wf(),
        timestamp.wf(),
    ensures
        r == is_discontinuous(expected, timestamp),
{
    let scale: u64 = if expected.scale < timestamp.scale {
        timestamp.scale
    } else {
        expected.scale
    };
    let quantum: u64 = if scale < FINEST {
        scale
    } else {
        FINEST
    };
    let slack: u128 = (scale as u128 + quantum as u128 - 1) / quantum as u128 + 1;
    let a: u128 = expected.as_scale(scale);
    let b: u128 = timestamp.as_scale(scale);
    if a > b {
        a - b > slack
    } else {
        b - a > slack
    }
}

/// A packet that misses its place by the shortest packet there is, 2.5 ms, is never taken for the
/// next in line. Left out are the stamps too coarse to tell: up to 800 units per second, and those
/// just over a thousand, which the millisecond floor rounds up to two units.
pub proof fn law_a_lost_packet_shows(expected: Timestamp, timestamp: Timestamp)
    requires
        expected.scale == timestamp.scale,
        expected.scale > 800,
        !(1000 < expected.scale <= 1200),
        (timestamp.value - expected.value) * 400 >= expected.scale,
    ensures
        is_discontinuous(expected, timestamp),
{
    let s = expected.scale as int;
    assert(expected.units(s) == expected.value) by (nonlinear_arith)
        requires
            s > 0,
            expected.units(s) == expected.value * s / s,
    ;
    assert(timestamp.units(s) == timestamp.value) by (nonlinear_arith)
        requires
            s > 0,
            timestamp.units(s) == timestamp.value * s / s,
    ;
    let quantum = if s < FINEST {
        s
    } else {
        FINEST as int
    };
    if s < 1000 {
        assert((s + s - 1) / s == 1) by (nonlinear_arith)
            requires
                s > 1,
        ;
        assert(tolerance(s) == 2);
    } else {
        assert(tolerance(s) == (s + 999) / 1000 + 1);
    }
}

/// Two stamps that round the same instant down to whole milliseconds, or leave it as it is, are
/// never taken for a hole.
pub proof fn law_rounding_to_milliseconds_is_no_hole(expected: Timestamp, timestamp: Timestamp)
    requires
        expected.scale == timestamp.scale,
        expected.scale >= 1000,
        -expected.scale <= (timestamp.value - expected.value) * 1000 <= expected.scale,
    ensures
        !is_discontinuous(expected, timestamp),
{
    let s = expected.scale as int;
    assert(expected.units(s) == expected.value) by (nonlinear_arith)
        requires
            s > 0,
            expected.units(s) == expected.value * s / s,
    ;
    assert(timestamp.units(s) == timestamp.value) by (nonlinear_arith)
        requires
            s > 0,
            timestamp.units(s) == timestamp.value * s / s,
    ;
    assert(tolerance(s) == (s + 999) / 1000 + 1);
}

/// `frames` at `rate`, in units of a second's `scale`.
pub open spec fn span_of(frames: int, rate: int, scale: int) -> int {
    rescaled(frames, rate, scale)
}

/// `timestamp` moved forward by `frames` at `rate`.
pub open spec fn advanced(timestamp: Timestamp, frames: int, rate: int) -> Option<Timestamp> {
    let value = timestamp.value + span_of(frames, rate, timestamp.scale as int);
    if value > u64::MAX {
        None
    } else {
        Some(Timestamp { value: value as u64, ..timestamp })
    }
}

/// `timestamp` moved back by `frames` at `rate`, but not before zero.
pub open spec fn rewound(timestamp: Timestamp, frames: int, rate: int) -> Option<Timestamp> {
    let span = span_of(frames, rate, timestamp.scale as int);
    if span > u64::MAX {
        None
    } else if span > timestamp.value {
        Some(Timestamp { value: 0, ..timestamp })
    } else {
        Some(Timestamp { value: (timestamp.value - span) as u64, ..timestamp })
    }
}

proof fn lemma_span_bound(frames: int, rate: int, scale: int)
    requires
        0 <= frames <= u64::MAX,
        0 < rate,
        0 <= scale <= u64::MAX,
    ensures
        0 <= frames * scale <= u128::MAX,
        0 <= span_of(frames, rate, scale),
{
    assert(0 <= frames * scale <= u64::MAX * u64::MAX) by (nonlinear_arith)
        requires
            0 <= frames <= u64::MAX,
            0 <= scale <= u64::MAX,
    ;
    assert(u64::MAX * u64::MAX <= u128::MAX) by (nonlinear_arith);
    assert(0 <= frames * scale / rate) by (nonlinear_arith)
        requires
            0 <= frames * scale,
            0 < rate,
    ;
}

fn span(frames: usize, rate: u32, scale: u64) -> (r: u128)
    requires
        rate > 0,
    ensures
        r == span_of(frames as int, rate as int, scale as int),
{
    proof {
        lemma_span_bound(frames as int, rate as int, scale as int);
    }
    (frames as u128 * scale as u128) / rate as u128
}

/// `timestamp` moved forward by `frames` at `rate`, in its own timescale.
pub fn advance(timestamp: Timestamp, frames: usize, rate: u32) -> (r: Result<Timestamp, Error>)
    requires
        timestamp.wf(),
        rate > 0,
    ensures
        match r {
            Ok(t) => advanced(timestamp, frames as int, rate as int) == Some(t) && t.wf(),
            Err(e) => advanced(timestamp, frames as int, rate as int) is None && e@
                == ErrorView::TimeOverflow,
        },
{
    let offset: u128 = span(frames, rate, timestamp.scale);
    if offset > u64::MAX as u128 {
        return Err(Error::TimeOverflow);
    }
    let value: u128 = timestamp.value as u128 + offset;
    if value > u64::MAX as u128 {
        return Err(Error::TimeOverflow);
    }
    Ok(Timestamp { value: value as u64, scale: timestamp.scale })
}

/// `timestamp` moved back by `frames` at `rate`, in its own timescale.
///
/// Saturates at zero rather than failing: a publisher whose first timestamps don't advance is odd,
/// but it isn't a reason to end the track.
pub fn rewind(timestamp: Timestamp, frames: usize, rate: u32) -> (r: Result<Timestamp, Error>)
    requires
        timestamp.wf(),
        rate > 0,
    ensures
        match r {
            Ok(t) => rewound(timestamp, frames as int, rate as int) == Some(t) && t.wf(),
            Err(e) => rewound(timestamp, frames as int, rate as int) is None && e@
                == ErrorView::TimeOverflow,
        },
{
    let offset: u128 = span(frames, rate, timestamp.scale);
    if offset > u64::MAX as u128 {
        return Err(Error::TimeOverflow);
    }
    if offset > timestamp.value as u128 {
        return Ok(Timestamp { value: 0, scale: timestamp.scale });
    }
    Ok(
        Timestamp {
            value: (timestamp.value as u128 - offset) as u64,
            scale: timestamp.scale,
        },
    )
}

/// Moving forward and then back by the same frames leads back.
pub proof fn law_rewind_undoes_advance(timestamp: Timestamp, frames: int, rate: int)
    requires
        0 <= frames <= u64::MAX,
        0 < rate,
        advanced(timestamp, frames, rate) is Some,
    ensures
        rewound(advanced(timestamp, frames, rate)->0, frames, rate) == Some(timestamp),
{
    lemma_span_bound(frames, rate, timestamp.scale as int);
}

/// Nanoseconds from `start` to `end`, where `end` does not come first.
pub open spec fn nanos_between(start: Timestamp, end: Timestamp) -> Option<int> {
    let from = start.units(end.scale as int);
    if from > end.value {
        None
    } else {
        Some((end.value - from) * 1_000_000_000 / end.scale as int)
    }
}

/// The frames at `rate` that fit `nanos` best.
pub open spec fn nearest_frames(nanos: int, rate: int) -> int {
    (nanos * rate + 500_000_000) / 1_000_000_000
}

/// Codec-rate frames in the interval, rounding a marker to the nearest frame.
pub fn frames_between(start: Timestamp, end: Timestamp, rate: u32) -> (r: Result<usize, Error>)
    requires
        start.wf(),
        end.wf(),
    ensures
        match nanos_between(start, end) {
            None => r is Err && r->Err_0@ == ErrorView::TimeOverflow,
            Some(nanos) => if nearest_frames(nanos, rate as int) <= usize::MAX {
                r == Ok::<usize, Error>(nearest_frames(nanos, rate as int) as usize)
            } else {
                r is Err && r->Err_0@ == ErrorView::Unsupported(
                    "audio duration does not fit in memory"@,
                )
            },
        },
{
    let from: u128 = start.as_scale(end.scale);
    if from > end.value as u128 {
        return Err(Error::TimeOverflow);
    }
    let units: u128 = end.value as u128 - from;
    let nanos: u128 = units * 1_000_000_000 / end.scale as u128;
    proof {
        let e = end.scale as int;
        assert(nanos <= units * 1_000_000_000) by {
            vstd::arithmetic::div_mod::lemma_div_is_ordered_by_denominator(
                (units * 1_000_000_000) as int,
                1,
                e,
            );
            vstd::arithmetic::div_mod::lemma_div_basics((units * 1_000_000_000) as int);
        }
        assert(nanos * rate <= u64::MAX * 1_000_000_000 * u32::MAX) by (nonlinear_arith)
            requires
                nanos <= u64::MAX * 1_000_000_000,
                rate <= u32::MAX,
        ;
    }
    let frames: u128 = (nanos * rate as u128 + 500_000_000) / 1_000_000_000;
    if frames > usize::MAX as u128 {
        return Err(Error::Unsupported("audio duration does not fit in memory".to_owned()));
    }
    Ok(frames as usize)
}

/// Whether `frames` at `rate` are `units` of a second's `scale`, leaving out less than one unit.
pub open spec fn lasts(frames: int, rate: int, units: int, scale: int) -> bool {
    units * rate <= frames * scale < (units + 1) * rate
}

/// Moving forward by `frames` adds the time they last, to the unit below, and fails only where the
/// timestamp could not hold it.
pub proof fn law_advancing_adds_the_time_of_the_frames(timestamp: Timestamp, frames: int, rate: int)
    requires
        0 <= frames,
        0 < rate,
    ensures
        match advanced(timestamp, frames, rate) {
            Some(t) => t.scale == timestamp.scale && t.value >= timestamp.value && lasts(
                frames,
                rate,
                t.value - timestamp.value,
                timestamp.scale as int,
            ),
            None => (u64::MAX + 1 - timestamp.value) * rate <= frames * timestamp.scale,
        },
{
    let x = frames * timestamp.scale;
    let q = x / rate;
    lemma_quotient(x, rate);
    assert(x >= 0) by (nonlinear_arith)
        requires
            x == frames * timestamp.scale,
            0 <= frames,
            0 <= timestamp.scale,
    ;
    if timestamp.value + q > u64::MAX {
        assert((u64::MAX + 1 - timestamp.value) * rate <= x) by (nonlinear_arith)
            requires
                q * rate <= x,
                q >= u64::MAX + 1 - timestamp.value,
                rate > 0,
        ;
    }
}

/// Moving back by `frames` takes away the time they last, to the unit below, stops at zero, and fails
/// only where that time could not be held.
pub proof fn law_rewinding_takes_away_the_time_of_the_frames(
    timestamp: Timestamp,
    frames: int,
    rate: int,
)
    requires
        0 <= frames,
        0 < rate,
    ensures
        match rewound(timestamp, frames, rate) {
            Some(t) => {
                &&& t.scale == timestamp.scale
                &&& t.value <= timestamp.value
                &&& t.value > 0 ==> lasts(
                    frames,
                    rate,
                    timestamp.value - t.value,
                    timestamp.scale as int,
                )
                &&& t.value == 0 ==> timestamp.value * rate <= frames * timestamp.scale
            },
            None => (u64::MAX + 1) * rate <= frames * timestamp.scale,
        },
{
    let x = frames * timestamp.scale;
    let q = x / rate;
    lemma_quotient(x, rate);
    assert(x >= 0) by (nonlinear_arith)
        requires
            x == frames * timestamp.scale,
            0 <= frames,
            0 <= timestamp.scale,
    ;
    let v = timestamp.value as int;
    if q > u64::MAX {
        assert((u64::MAX + 1) * rate <= x) by (nonlinear_arith)
            requires
                q * rate <= x,
                q >= u64::MAX + 1,
                rate > 0,
        ;
    } else if q >= v {
        assert(v * rate <= x) by (nonlinear_arith)
            requires
                q * rate <= x,
                q >= v,
                rate > 0,
        ;
    }
}

/// Stamps of one timescale are taken for a hole or an overlap exactly where they are a quantum and
/// more than two units apart, a quantum being a millisecond, or a unit where units are coarser.
pub proof fn law_a_hole_is_what_rounding_cannot_explain(expected: Timestamp, timestamp: Timestamp)
    requires
        expected.scale == timestamp.scale,
        expected.scale > 0,
    ensures
        ({
            let d = if timestamp.value > expected.value {
                timestamp.value - expected.value
            } else {
                expected.value - timestamp.value
            };
            let per_second = if expected.scale < 1000 {
                expected.scale as int
            } else {
                1000
            };
            is_discontinuous(expected, timestamp) <==> (d - 2) * per_second >= expected.scale
        }),
{
    law_own_units_are_kept(expected);
    law_own_units_are_kept(timestamp);
    let s = expected.scale as int;
    let p = if s < 1000 {
        s
    } else {
        1000
    };
    let c = (s + p - 1) / p;
    lemma_quotient(s + p - 1, p);
    let d = if timestamp.value > expected.value {
        timestamp.value - expected.value
    } else {
        expected.value - timestamp.value
    };
    assert(tolerance(s) == c + 1);
    assert(d - 2 >= c <==> (d - 2) * p >= s) by (nonlinear_arith)
        requires
            p > 0,
            c * p <= s + p - 1,
            s + p - 1 < (c + 1) * p,
    ;
}

/// Stamps of two timescales are compared in the finer one, each rounded down to whole units of it.
pub proof fn law_stamps_are_compared_in_the_finer_timescale(
    expected: Timestamp,
    timestamp: Timestamp,
    finer: u64,
    a: u64,
    b: u64,
)
    requires
        expected.wf(),
        timestamp.wf(),
        finer >= expected.scale,
        finer >= timestamp.scale,
        finer == expected.scale || finer == timestamp.scale,
        a * expected.scale <= expected.value * finer < (a + 1) * expected.scale,
        b * timestamp.scale <= timestamp.value * finer < (b + 1) * timestamp.scale,
    ensures
        is_discontinuous(expected, timestamp) == is_discontinuous(
            Timestamp { value: a, scale: finer },
            Timestamp { value: b, scale: finer },
        ),
{
    lemma_is_quotient(expected.value * finer, expected.scale as int, a as int);
    lemma_is_quotient(timestamp.value * finer, timestamp.scale as int, b as int);
    law_own_units_are_kept(Timestamp { value: a, scale: finer });
    law_own_units_are_kept(Timestamp { value: b, scale: finer });
}

/// The frames up to a marker are the whole number nearest to the time between, which is counted in
/// whole nanoseconds; the later of two that are as near. A marker before the start has none.
pub proof fn law_a_marker_is_rounded_to_the_nearest_frame(
    start: Timestamp,
    end: Timestamp,
    rate: int,
)
    requires
        start.wf(),
        end.wf(),
        rate >= 0,
    ensures
        match nanos_between(start, end) {
            None => (end.value + 1) * start.scale <= start.value * end.scale,
            Some(nanos) => {
                let frames = nearest_frames(nanos, rate);
                &&& nanos >= 0
                &&& nanos * end.scale <= (end.value - start.units(end.scale as int))
                    * 1_000_000_000 < (nanos + 1) * end.scale
                &&& 2 * (frames * 1_000_000_000) <= 2 * (nanos * rate) + 1_000_000_000
                &&& 2 * (nanos * rate) < 2 * (frames * 1_000_000_000) + 1_000_000_000
            },
        },
{
    let from = start.units(end.scale as int);
    lemma_quotient(start.value * end.scale, start.scale as int);
    if from > end.value {
        assert((end.value + 1) * start.scale <= start.value * end.scale) by (nonlinear_arith)
            requires
                from * start.scale <= start.value * end.scale,
                from >= end.value + 1,
                start.scale > 0,
        ;
    } else {
        lemma_quotient((end.value - from) * 1_000_000_000, end.scale as int);
        let nanos = nanos_between(start, end)->0;
        lemma_quotient(nanos * rate + 500_000_000, 1_000_000_000);
    }
}

} // verus!
