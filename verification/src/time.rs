//! Durations, and timestamps in units of their own.

use vstd::prelude::*;

verus! {

/// A span of time, counted in nanoseconds.
#[derive(Clone, Copy, Debug, PartialEq, Eq, Structural)]
pub struct Duration {
    /// Nanoseconds.
    pub nanos: u128,
}

impl Duration {
    /// Whole microseconds in this span.
    pub open spec fn micros(self) -> int {
        self.nanos as int / 1000
    }

    /// A span of whole milliseconds.
    pub fn from_millis(millis: u64) -> (r: Self)
        ensures
            r.nanos == millis * 1_000_000,
    {
        Duration { nanos: millis as u128 * 1_000_000 }
    }

    /// A span of whole microseconds.
    pub fn from_micros(micros: u64) -> (r: Self)
        ensures
            r.nanos == micros * 1000,
    {
        Duration { nanos: micros as u128 * 1000 }
    }

    /// A span of whole seconds.
    pub fn from_secs(secs: u64) -> (r: Self)
        ensures
            r.nanos == secs * 1_000_000_000,
    {
        Duration { nanos: secs as u128 * 1_000_000_000 }
    }

    /// Whole microseconds, leaving out the rest.
    pub fn as_micros(&self) -> (r: u128)
        ensures
            r == self.micros(),
    {
        self.nanos / 1000
    }
}

/// A point in time: `value` units, of which a second has `scale`.
#[derive(Clone, Copy, Debug, PartialEq, Eq, Structural)]
pub struct Timestamp {
    /// Units since the start.
    pub value: u64,
    /// Units per second.
    pub scale: u64,
}

/// `value` units of a second's `from`, in units of a second's `to`, leaving out the rest.
pub open spec fn rescaled(value: int, from: int, to: int) -> int {
    value * to / from
}

impl Timestamp {
    /// Whether the timestamp has a unit.
    pub open spec fn wf(self) -> bool {
        self.scale > 0
    }

    /// The timestamp in units of a second's `scale`.
    pub open spec fn units(self, scale: int) -> int {
        rescaled(self.value as int, self.scale as int, scale)
    }

    /// Whether this point comes before or at the other.
    pub open spec fn at_most(self, other: Timestamp) -> bool {
        self.value * other.scale <= other.value * self.scale
    }

    /// `value` units of a second's `scale`.
    pub fn new(value: u64, scale: u64) -> (r: Self)
        requires
            scale > 0,
        ensures
            r == (Timestamp { value, scale }),
            r.wf(),
    {
        Timestamp { value, scale }
    }

    /// Whole microseconds.
    pub fn from_micros(value: u64) -> (r: Self)
        ensures
            r == (Timestamp { value, scale: 1_000_000 }),
            r.wf(),
    {
        Timestamp { value, scale: 1_000_000 }
    }

    /// Whole milliseconds.
    pub fn from_millis(value: u64) -> (r: Self)
        ensures
            r == (Timestamp { value, scale: 1000 }),
            r.wf(),
    {
        Timestamp { value, scale: 1000 }
    }

    /// The timestamp in units of a second's `scale`, leaving out the rest.
    pub fn as_scale(&self, scale: u64) -> (r: u128)
        requires
            self.wf(),
        ensures
            r == self.units(scale as int),
    {
        assert(self.value * scale <= u64::MAX * u64::MAX) by (nonlinear_arith)
            requires
                self.value <= u64::MAX,
                scale <= u64::MAX,
        ;
        assert(u64::MAX * u64::MAX <= u128::MAX) by (nonlinear_arith);
        (self.value as u128 * scale as u128) / self.scale as u128
    }

    /// Whether this point comes before or at the other.
    pub fn le(&self, other: &Timestamp) -> (r: bool)
        ensures
            r == self.at_most(*other),
    {
        assert(self.value * other.scale <= u64::MAX * u64::MAX && other.value * self.scale
            <= u64::MAX * u64::MAX) by (nonlinear_arith)
            requires
                self.value <= u64::MAX,
                other.scale <= u64::MAX,
                other.value <= u64::MAX,
                self.scale <= u64::MAX,
        ;
        assert(u64::MAX * u64::MAX <= u128::MAX) by (nonlinear_arith);
        self.value as u128 * other.scale as u128 <= other.value as u128 * self.scale as u128
    }

    /// The later of two points; this one where they are the same.
    pub fn max(self, other: Timestamp) -> (r: Self)
        ensures
            r == (if other.at_most(self) {
                self
            } else {
                other
            }),
    {
        if other.le(&self) {
            self
        } else {
            other
        }
    }
}

/// A quotient is the whole number of times the divisor goes into the dividend.
pub proof fn lemma_quotient(dividend: int, divisor: int)
    requires
        divisor > 0,
    ensures
        (dividend / divisor) * divisor <= dividend,
        dividend < (dividend / divisor + 1) * divisor,
        dividend >= 0 ==> dividend / divisor >= 0,
{
    assert((dividend / divisor) * divisor <= dividend && dividend < (dividend / divisor + 1) * divisor)
        by (nonlinear_arith)
        requires
            divisor > 0,
    ;
    assert(dividend >= 0 ==> dividend / divisor >= 0) by (nonlinear_arith)
        requires
            divisor > 0,
    ;
}

/// A whole number that goes into the dividend, and one more does not, is the quotient.
pub proof fn lemma_is_quotient(dividend: int, divisor: int, q: int)
    requires
        divisor > 0,
        q * divisor <= dividend,
        dividend < (q + 1) * divisor,
    ensures
        dividend / divisor == q,
{
    lemma_quotient(dividend, divisor);
    let p = dividend / divisor;
    assert(p == q) by (nonlinear_arith)
        requires
            divisor > 0,
            q * divisor <= dividend < (q + 1) * divisor,
            p * divisor <= dividend < (p + 1) * divisor,
    ;
}

/// A span in microseconds leaves out less than a microsecond.
pub proof fn law_micros_leave_out_less_than_one(duration: Duration)
    ensures
        duration.micros() * 1000 <= duration.nanos < (duration.micros() + 1) * 1000,
{
}

/// A timestamp in other units is the last whole unit at or before the point.
pub proof fn law_units_are_whole_and_not_past_the_point(timestamp: Timestamp, scale: int)
    requires
        timestamp.wf(),
    ensures
        timestamp.units(scale) * timestamp.scale <= timestamp.value * scale,
        timestamp.value * scale < (timestamp.units(scale) + 1) * timestamp.scale,
{
    lemma_quotient(timestamp.value * scale, timestamp.scale as int);
}

/// In its own units a timestamp is what it says.
pub proof fn law_own_units_are_kept(timestamp: Timestamp)
    requires
        timestamp.wf(),
    ensures
        timestamp.units(timestamp.scale as int) == timestamp.value,
{
    let s = timestamp.scale as int;
    assert(timestamp.value * s < (timestamp.value + 1) * s) by (nonlinear_arith)
        requires
            s > 0,
    ;
    lemma_is_quotient(timestamp.value * s, s, timestamp.value as int);
}

/// Points in time are in order exactly as their distances from the start in seconds are, whatever
/// units each is in.
pub proof fn law_points_are_ordered_in_seconds(a: Timestamp, b: Timestamp)
    ensures
        a.at_most(b) <==> a.value * b.scale <= b.value * a.scale,
        a.scale == b.scale && a.scale > 0 ==> (a.at_most(b) <==> a.value <= b.value),
{
    if a.scale == b.scale && a.scale > 0 {
        let s = a.scale as int;
        assert(a.value * s <= b.value * s <==> a.value <= b.value) by (nonlinear_arith)
            requires
                s > 0,
        ;
    }
}

} // verus!
