//! Timestamps with nanosecond resolution, stored at microsecond resolution.

use vstd::arithmetic::div_mod::{lemma_fundamental_div_mod, lemma_mod_pos_bound};
use vstd::prelude::*;

verus! {

/// Nanoseconds in one second.
pub const NANOS_PER_SEC: i128 = 1_000_000_000;

/// Earliest second supported (the start of year -262144).
pub const MIN_SECS: i64 = -8_334_601_228_800;

/// Latest second supported (the last second of year 262143).
pub const MAX_SECS: i64 = 8_210_266_876_799;

/// An instant: whole seconds since the Unix epoch plus a nanosecond part.
#[derive(Clone, Copy, Debug, PartialEq, Eq, Structural)]
pub struct Timestamp {
    pub secs: i64,
    pub nanos: u32,
}

/// An inclusive range of instants, `start..=end`.
#[derive(Clone, Copy, Debug, PartialEq, Eq, Structural)]
pub struct TimeRange {
    pub start: Timestamp,
    pub end: Timestamp,
}

impl Timestamp {
    /// The seconds lie in the supported span and the nanosecond part is below one second.
    pub open spec fn wf(self) -> bool {
        &&& MIN_SECS <= self.secs <= MAX_SECS
        &&& self.nanos < 1_000_000_000
    }

    /// Nanoseconds since the epoch.
    pub open spec fn total(self) -> int {
        self.secs * 1_000_000_000 + self.nanos
    }

    /// Microseconds since the epoch, sub-microsecond part dropped.
    pub open spec fn micros(self) -> int {
        self.secs * 1_000_000 + self.nanos / 1000
    }

    /// The same instant with the sub-microsecond part dropped.
    pub open spec fn truncated(self) -> Timestamp {
        Timestamp { secs: self.secs, nanos: (self.nanos / 1000 * 1000) as u32 }
    }

    /// Whether an instant of `total` nanoseconds since the epoch is supported.
    pub open spec fn total_in_range(total: int) -> bool {
        MIN_SECS * 1_000_000_000 <= total < (MAX_SECS + 1) * 1_000_000_000
    }

    /// The instant `total` nanoseconds after the epoch.
    pub open spec fn from_total(total: int) -> Timestamp {
        Timestamp {
            secs: (MIN_SECS + (total - MIN_SECS * 1_000_000_000) / 1_000_000_000) as i64,
            nanos: ((total - MIN_SECS * 1_000_000_000) % 1_000_000_000) as u32,
        }
    }

    /// The epoch itself.
    pub fn epoch() -> (r: Timestamp)
        ensures
            r.wf(),
            r.total() == 0,
    {
        Timestamp { secs: 0, nanos: 0 }
    }

    /// Whether `self` comes no later than `other`.
    pub fn le(&self, other: &Timestamp) -> (r: bool)
        requires
            self.wf(),
            other.wf(),
        ensures
            r == (self.total() <= other.total()),
    {
        proof { lemma_total_order(*self, *other); }
        self.secs < other.secs || (self.secs == other.secs && self.nanos <= other.nanos)
    }

    /// Microseconds since the epoch, sub-microsecond part dropped.
    pub fn timestamp_micros(&self) -> (r: i64)
        requires
            self.wf(),
        ensures
            r == self.micros(),
    {
        proof { lemma_micros_bounds(*self); }
        self.secs * 1_000_000 + (self.nanos / 1000) as i64
    }

    /// The instant `micros` microseconds after the epoch, if it is supported.
    pub fn from_timestamp_micros(micros: i64) -> (r: Option<Timestamp>)
        ensures
            r is Some <==> Timestamp::total_in_range(micros * 1000),
            r matches Some(t) ==> t.wf() && t.micros() == micros && t.total() == micros * 1000,
    {
        let total = micros as i128 * 1000;
        Timestamp::from_nanos(total)
    }

    /// The instant `total` nanoseconds after the epoch, if it is supported.
    pub fn from_nanos(total: i128) -> (r: Option<Timestamp>)
        ensures
            r is Some <==> Timestamp::total_in_range(total as int),
            r matches Some(t) ==> t.wf() && t.total() == total && t == Timestamp::from_total(total as int),
            r matches Some(t) ==> total % 1000 == 0 ==> t.micros() * 1000 == total,
    {
        let low: i128 = MIN_SECS as i128 * NANOS_PER_SEC;
        let high: i128 = (MAX_SECS as i128 + 1) * NANOS_PER_SEC;
        if total < low || total >= high {
            return None;
        }
        let offset: i128 = total - low;
        let t = Timestamp {
            secs: (MIN_SECS as i128 + offset / NANOS_PER_SEC) as i64,
            nanos: (offset % NANOS_PER_SEC) as u32,
        };
        proof { lemma_from_total(total as int); }
        Some(t)
    }

    /// The same instant with the sub-microsecond part dropped.
    pub fn truncate_nanos(&self) -> (r: Timestamp)
        ensures
            r == self.truncated(),
    {
        Timestamp { secs: self.secs, nanos: self.nanos / 1000 * 1000 }
    }

    /// The instant `by` nanoseconds later (earlier when negative), if it is supported.
    pub fn shifted(&self, by: i128) -> (r: Option<Timestamp>)
        requires
            self.wf(),
        ensures
            r is Some <==> Timestamp::total_in_range(self.total() + by),
            r matches Some(t) ==> t.wf() && t.total() == self.total() + by,
    {
        let limit: i128 = 100_000_000_000_000_000_000_000;
        if by > limit || by < -limit {
            return None;
        }
        let total: i128 = self.secs as i128 * NANOS_PER_SEC + self.nanos as i128;
        Timestamp::from_nanos(total + by)
    }
}

/// Nanosecond totals order instants as their (seconds, nanoseconds) pairs do.
pub proof fn lemma_total_order(a: Timestamp, b: Timestamp)
    requires
        a.nanos < 1_000_000_000,
        b.nanos < 1_000_000_000,
    ensures
        (a.total() <= b.total()) == (a.secs < b.secs || (a.secs == b.secs && a.nanos <= b.nanos)),
{
    if a.secs < b.secs {
        assert(a.secs * 1_000_000_000 + 1_000_000_000 <= b.secs * 1_000_000_000) by (nonlinear_arith)
            requires a.secs < b.secs;
    } else if a.secs > b.secs {
        assert(b.secs * 1_000_000_000 + 1_000_000_000 <= a.secs * 1_000_000_000) by (nonlinear_arith)
            requires b.secs < a.secs;
    }
}

/// The microsecond count of a supported instant fits in an `i64`.
pub proof fn lemma_micros_bounds(t: Timestamp)
    requires
        t.wf(),
    ensures
        i64::MIN <= t.micros() <= i64::MAX,
        i64::MIN <= t.secs * 1_000_000 <= i64::MAX,
{
    assert(MIN_SECS * 1_000_000 <= t.secs * 1_000_000 <= MAX_SECS * 1_000_000) by (nonlinear_arith)
        requires MIN_SECS <= t.secs <= MAX_SECS;
}

/// `from_total` yields a supported instant with the requested total.
pub proof fn lemma_from_total(total: int)
    requires
        Timestamp::total_in_range(total),
    ensures
        Timestamp::from_total(total).wf(),
        Timestamp::from_total(total).total() == total,
        total % 1000 == 0 ==> Timestamp::from_total(total).micros() * 1000 == total,
{
    let off = total - MIN_SECS * 1_000_000_000;
    let q = off / 1_000_000_000;
    let r = off % 1_000_000_000;
    lemma_fundamental_div_mod(off, 1_000_000_000);
    lemma_mod_pos_bound(off, 1_000_000_000);
    assert(0 <= q <= MAX_SECS - MIN_SECS) by (nonlinear_arith)
        requires off == q * 1_000_000_000 + r, 0 <= r < 1_000_000_000, off < (MAX_SECS - MIN_SECS + 1) * 1_000_000_000, off >= 0;
    let t = Timestamp::from_total(total);
    assert(t.secs == MIN_SECS + q);
    assert(t.nanos == r);
    assert(t.total() == total) by (nonlinear_arith)
        requires t.secs == MIN_SECS + q, t.nanos == r, off == q * 1_000_000_000 + r, off == total - MIN_SECS * 1_000_000_000;
    if total % 1000 == 0 {
        assert(r % 1000 == 0) by (nonlinear_arith)
            requires total % 1000 == 0, total == (MIN_SECS + q) * 1_000_000_000 + r;
        assert(t.micros() * 1000 == total) by (nonlinear_arith)
            requires t.total() == total, t.nanos == r, r % 1000 == 0,
                t.micros() == t.secs * 1_000_000 + t.nanos / 1000, t.total() == t.secs * 1_000_000_000 + t.nanos;
    }
}

/// Two supported instants with the same nanosecond total are the same instant.
pub proof fn lemma_total_injective(a: Timestamp, b: Timestamp)
    requires
        a.wf(),
        b.wf(),
        a.total() == b.total(),
    ensures
        a == b,
{
    lemma_total_order(a, b);
    lemma_total_order(b, a);
}

} // verus!
