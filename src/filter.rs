//! Query filters: one constraint per record field.

use crate::record::{fits_field, value_fits, Value};
use crate::schema::{Descriptor, FieldType};
use crate::time::{lemma_from_total, lemma_total_injective, TimeRange, Timestamp, MAX_SECS, MIN_SECS};
use vstd::prelude::*;

verus! {

/// The constraint that a filter puts on one field.
#[derive(Clone, Debug)]
pub enum Constraint {
    /// The value must be one of these; an empty list allows every value.
    Values(Vec<Value>),
    /// The time must lie in this inclusive range; `None` allows every time.
    Range(Option<TimeRange>),
}

/// A filter on records: one constraint per field, in declared order.
#[derive(Clone, Debug)]
pub struct Filter {
    /// The index of the declared timestamp field, if any.
    pub timestamp: Option<usize>,
    pub constraints: Vec<Constraint>,
}

/// Why a filter could not be used.
#[derive(Clone, Debug, PartialEq, Eq)]
pub enum FilterError {
    /// A required constraint is missing: `field is required`.
    Required(String),
    /// The filter has no time range.
    NoTimestamp,
    /// A shifted time range leaves the supported span.
    OutOfRange,
    /// A field name that the record does not have.
    UnknownField(String),
}

impl FilterError {
    /// The message of the error.
    pub fn message(&self) -> (r: String)
        ensures
            r@ == match self {
                FilterError::Required(f) => f@ + " is required"@,
                FilterError::NoTimestamp => "no timestamp"@,
                FilterError::OutOfRange => "out of range"@,
                FilterError::UnknownField(f) => "unknown field "@ + f@,
            },
    {
        match self {
            FilterError::Required(f) => {
                let mut m = f.clone();
                m.append(" is required");
                m
            },
            FilterError::NoTimestamp => String::from_str("no timestamp"),
            FilterError::OutOfRange => String::from_str("out of range"),
            FilterError::UnknownField(f) => {
                let mut m = String::from_str("unknown field ");
                m.append(f.as_str());
                m
            },
        }
    }
}

impl TimeRange {
    /// Both ends are supported instants.
    pub open spec fn wf(self) -> bool {
        self.start.wf() && self.end.wf()
    }

    /// Whether `t` lies in the range.
    pub open spec fn holds(self, t: Timestamp) -> bool {
        self.start.total() <= t.total() <= self.end.total()
    }

    /// The range with both ends truncated to microseconds.
    pub open spec fn truncated(self) -> TimeRange {
        TimeRange { start: self.start.truncated(), end: self.end.truncated() }
    }

    /// The range moved by `by` nanoseconds, if both ends stay supported.
    pub open spec fn shifted(self, by: int) -> Option<TimeRange> {
        if Timestamp::total_in_range(self.start.total() + by) && Timestamp::total_in_range(self.end.total() + by) {
            Some(TimeRange {
                start: Timestamp::from_total(self.start.total() + by),
                end: Timestamp::from_total(self.end.total() + by),
            })
        } else {
            None
        }
    }

    /// Whether `t` lies in the range.
    pub fn contains(&self, t: &Timestamp) -> (r: bool)
        requires
            self.wf(),
            t.wf(),
        ensures
            r == self.holds(*t),
    {
        self.start.le(t) && t.le(&self.end)
    }
}

/// Whether `c` allows value `v`.
pub open spec fn constraint_holds(c: Constraint, v: Value) -> bool {
    match c {
        Constraint::Values(vs) => vs@.len() == 0 || vs@.contains(v),
        Constraint::Range(None) => true,
        Constraint::Range(Some(r)) => v matches Value::Time(t) && r.holds(t),
    }
}

/// Whether `c` is a constraint of a field of type `ty`.
pub open spec fn constraint_fits(ty: FieldType, rounds: bool, c: Constraint) -> bool {
    if ty == FieldType::Timestamp {
        c matches Constraint::Range(r) && (r matches Some(range) ==> range.wf())
    } else {
        c matches Constraint::Values(vs) && forall|k: int| 0 <= k < vs@.len() ==> value_fits(ty, rounds, #[trigger] vs@[k])
    }
}

/// Whether a constraint is an optional one that needs its column read back.
pub open spec fn constrains_values(c: Constraint) -> bool {
    c matches Constraint::Values(vs) && vs@.len() > 0
}

impl Filter {
    /// Whether the filter has one fitting constraint per field of `d`.
    pub open spec fn fits(self, d: Descriptor) -> bool {
        &&& self.timestamp == d.timestamp
        &&& self.constraints@.len() == d.fields@.len()
        &&& forall|i: int| 0 <= i < d.fields@.len() ==>
            constraint_fits(d.fields@[i].ty, d.rounds_floats(), #[trigger] self.constraints@[i])
    }

    /// Whether record `r` satisfies every constraint.
    pub open spec fn matches(self, r: Seq<Value>) -> bool {
        forall|i: int| 0 <= i < self.constraints@.len() ==> constraint_holds(#[trigger] self.constraints@[i], r[i])
    }

    /// The time range, if the filter has one.
    pub open spec fn range(self) -> Option<TimeRange> {
        match self.timestamp {
            Some(t) => if t < self.constraints@.len() {
                match self.constraints@[t as int] {
                    Constraint::Range(r) => r,
                    _ => None,
                }
            } else {
                None
            },
            None => None,
        }
    }

    /// Whether the filter has one fitting constraint per field of `d`.
    pub fn fits_check(&self, d: &Descriptor) -> (r: bool)
        ensures
            r == self.fits(*d),
    {
        if self.timestamp != d.timestamp || self.constraints.len() != d.fields.len() {
            return false;
        }
        let rounds = d.float_round.is_some();
        let mut i: usize = 0;
        while i < self.constraints.len()
            invariant
                rounds == d.rounds_floats(),
                self.constraints@.len() == d.fields@.len(),
                i <= d.fields@.len(),
                forall|a: int| 0 <= a < i ==> constraint_fits(d.fields@[a].ty, d.rounds_floats(), #[trigger] self.constraints@[a]),
            decreases d.fields@.len() - i,
        {
            let ty = d.fields[i].ty;
            let ok = match &self.constraints[i] {
                Constraint::Range(r) => ty == FieldType::Timestamp && match r {
                    Some(x) => x.start.secs >= MIN_SECS && x.start.secs <= MAX_SECS && x.start.nanos < 1_000_000_000
                        && x.end.secs >= MIN_SECS && x.end.secs <= MAX_SECS && x.end.nanos < 1_000_000_000,
                    None => true,
                },
                Constraint::Values(vs) => {
                    if ty == FieldType::Timestamp {
                        false
                    } else {
                        let mut all = true;
                        let mut k: usize = 0;
                        while k < vs.len()
                            invariant
                                k <= vs@.len(),
                                all == forall|b: int| 0 <= b < k ==> value_fits(ty, rounds, #[trigger] vs@[b]),
                            decreases vs@.len() - k,
                        {
                            if !fits_field(ty, rounds, &vs[k]) {
                                all = false;
                            }
                            k += 1;
                        }
                        all
                    }
                },
            };
            if !ok {
                return false;
            }
            i += 1;
        }
        true
    }

    /// A filter that allows every record of `d`.
    pub fn unconstrained(d: &Descriptor) -> (r: Filter)
        ensures
            r.fits(*d),
            r.range() is None,
            forall|i: int| 0 <= i < d.fields@.len() ==> match #[trigger] r.constraints@[i] {
                Constraint::Values(vs) => vs@.len() == 0,
                Constraint::Range(x) => x is None,
            },
    {
        let mut constraints: Vec<Constraint> = Vec::new();
        let mut i: usize = 0;
        while i < d.fields.len()
            invariant
                i <= d.fields@.len(),
                constraints@.len() == i,
                forall|k: int| 0 <= k < i ==> constraint_fits(d.fields@[k].ty, d.rounds_floats(), #[trigger] constraints@[k]),
                forall|k: int| 0 <= k < i ==> match #[trigger] constraints@[k] {
                    Constraint::Values(vs) => vs@.len() == 0,
                    Constraint::Range(x) => x is None,
                },
            decreases d.fields@.len() - i,
        {
            if d.fields[i].ty == FieldType::Timestamp {
                constraints.push(Constraint::Range(None));
            } else {
                constraints.push(Constraint::Values(Vec::new()));
            }
            i += 1;
        }
        Filter { timestamp: d.timestamp, constraints }
    }

    /// A filter with the required constraints: the allowed values of each
    /// group key, in `group_by` order, and the time range when `d` declares a
    /// timestamp. Every other constraint allows everything.
    pub fn new(d: &Descriptor, keys: Vec<Vec<Value>>, range: Option<TimeRange>) -> (r: Filter)
        requires
            d.wf(),
            keys@.len() == d.group_by@.len(),
            forall|k: int, m: int| 0 <= k < keys@.len() && 0 <= m < keys@[k]@.len() ==>
                value_fits(d.fields@[d.group_by@[k] as int].ty, d.rounds_floats(), #[trigger] keys@[k]@[m]),
            range is Some <==> d.timestamp is Some,
            range matches Some(x) ==> x.wf(),
        ensures
            r.fits(*d),
            r.range() == range,
            forall|k: int| 0 <= k < keys@.len() ==>
                (#[trigger] r.constraints@[d.group_by@[k] as int] matches Constraint::Values(vs) && vs@ == keys@[k]@),
            forall|i: int| 0 <= i < d.fields@.len() && !d.group_by@.contains(i as usize) && d.timestamp != Some(i as usize) ==>
                match #[trigger] r.constraints@[i] {
                    Constraint::Values(vs) => vs@.len() == 0,
                    Constraint::Range(x) => x is None,
                },
    {
        let mut r = Filter::unconstrained(d);
        let mut keys = keys;
        let ghost keys0 = keys@;
        let mut k: usize = keys.len();
        while k > 0
            invariant
                d.wf(),
                keys0.len() == d.group_by@.len(),
                k <= keys0.len(),
                keys@ == keys0.subrange(0, k as int),
                forall|a: int, m: int| 0 <= a < keys0.len() && 0 <= m < keys0[a]@.len() ==>
                    value_fits(d.fields@[d.group_by@[a] as int].ty, d.rounds_floats(), #[trigger] keys0[a]@[m]),
                r.fits(*d),
                r.range() is None,
                forall|a: int| k <= a < keys0.len() ==>
                    (#[trigger] r.constraints@[d.group_by@[a] as int] matches Constraint::Values(vs) && vs@ == keys0[a]@),
                forall|i: int| 0 <= i < d.fields@.len() && !(exists|a: int| k <= a < keys0.len() && d.group_by@[a] == i as usize) ==>
                    match #[trigger] r.constraints@[i] {
                        Constraint::Values(vs) => vs@.len() == 0,
                        Constraint::Range(x) => x is None,
                    },
            decreases k,
        {
            let values = keys.pop().unwrap();
            k -= 1;
            let idx = d.group_by[k];
            assert(d.group_by@[k as int] < d.fields@.len());
            proof {
                assert(values == keys0[k as int]);
                assert(!(d.timestamp == Some(idx))) by {
                    assert(d.group_by@.contains(idx));
                }
            }
            r.constraints.set(idx, Constraint::Values(values));
            proof {
                assert forall|a: int| k <= a < keys0.len() implies
                    (#[trigger] r.constraints@[d.group_by@[a] as int] matches Constraint::Values(vs) && vs@ == keys0[a]@) by {
                    if a != k {
                        assert(d.group_by@[a] != d.group_by@[k as int]);
                    }
                }
            }
        }
        if let Some(x) = range {
            let t = d.timestamp.unwrap();
            proof {
                assert(!d.group_by@.contains(t));
                assert forall|a: int| 0 <= a < keys0.len() implies d.group_by@[a] != t by {
                    if d.group_by@[a] == t { assert(d.group_by@.contains(t)); }
                }
            }
            r.constraints.set(t, Constraint::Range(Some(x)));
        }
        proof {
            assert forall|i: int| 0 <= i < d.fields@.len() && !d.group_by@.contains(i as usize) && d.timestamp != Some(i as usize) implies
                match #[trigger] r.constraints@[i] {
                    Constraint::Values(vs) => vs@.len() == 0,
                    Constraint::Range(x) => x is None,
                } by {
                if exists|a: int| 0 <= a < keys0.len() && d.group_by@[a] == i as usize {
                    let a = choose|a: int| 0 <= a < keys0.len() && d.group_by@[a] == i as usize;
                    assert(d.group_by@.contains(i as usize));
                }
            }
        }
        r
    }

    /// Whether record `row` satisfies every constraint.
    pub fn filter(&self, d: &Descriptor, row: &Vec<Value>) -> (r: bool)
        requires
            self.fits(*d),
            row@.len() == d.fields@.len(),
            forall|i: int| 0 <= i < row@.len() ==> value_fits(d.fields@[i].ty, d.rounds_floats(), #[trigger] row@[i]),
        ensures
            r == self.matches(row@),
    {
        let mut i: usize = 0;
        while i < self.constraints.len()
            invariant
                self.fits(*d),
                row@.len() == d.fields@.len(),
                forall|i: int| 0 <= i < row@.len() ==> value_fits(d.fields@[i].ty, d.rounds_floats(), #[trigger] row@[i]),
                i <= self.constraints@.len(),
                forall|k: int| 0 <= k < i ==> constraint_holds(#[trigger] self.constraints@[k], row@[k]),
            decreases self.constraints@.len() - i,
        {
            let ok = match &self.constraints[i] {
                Constraint::Values(vs) => {
                    if vs.len() == 0 {
                        true
                    } else {
                        let mut found = false;
                        let mut m: usize = 0;
                        while m < vs.len()
                            invariant
                                m <= vs@.len(),
                                i < row@.len(),
                                found == (exists|x: int| 0 <= x < m && vs@[x] == row@[i as int]),
                            decreases vs@.len() - m,
                        {
                            if vs[m] == row[i] {
                                found = true;
                            }
                            m += 1;
                        }
                        proof {
                            if found {
                                let x = choose|x: int| 0 <= x < m && vs@[x] == row@[i as int];
                                assert(vs@.contains(row@[i as int]));
                            }
                        }
                        found
                    }
                },
                Constraint::Range(None) => true,
                Constraint::Range(Some(x)) => {
                    assert(d.fields@[i as int].ty == FieldType::Timestamp);
                    match &row[i] {
                        Value::Time(t) => x.contains(t),
                        _ => false,
                    }
                },
            };
            if !ok {
                return false;
            }
            i += 1;
        }
        true
    }

    /// The bounds of the time range.
    pub fn range_bounds(&self) -> (r: Result<(Timestamp, Timestamp), FilterError>)
        ensures
            r is Ok <==> self.range() is Some,
            r matches Ok((s, e)) ==> self.range() == Some(TimeRange { start: s, end: e }),
            r matches Err(err) ==> err == FilterError::NoTimestamp,
    {
        match self.timestamp {
            Some(t) => {
                if t < self.constraints.len() {
                    match &self.constraints[t] {
                        Constraint::Range(Some(x)) => Ok((x.start, x.end)),
                        _ => Err(FilterError::NoTimestamp),
                    }
                } else {
                    Err(FilterError::NoTimestamp)
                }
            },
            None => Err(FilterError::NoTimestamp),
        }
    }

    /// How long the time range is, in nanoseconds: `end - start`.
    pub fn range_duration(&self) -> (r: Result<i128, FilterError>)
        requires
            self.range() matches Some(x) ==> x.wf(),
        ensures
            r is Ok <==> self.range() is Some,
            r matches Ok(n) ==> n == self.range()->0.end.total() - self.range()->0.start.total(),
            r matches Err(err) ==> err == FilterError::NoTimestamp,
    {
        let (start, end) = self.range_bounds()?;
        let s: i128 = start.secs as i128 * 1_000_000_000 + start.nanos as i128;
        let e: i128 = end.secs as i128 * 1_000_000_000 + end.nanos as i128;
        Ok(e - s)
    }

    /// Replaces the time range `start..=end` with `start + by ..= end + by`,
    /// `by` in nanoseconds.
    pub fn range_shift(&mut self, by: i128) -> (r: Result<(), FilterError>)
        requires
            old(self).range() matches Some(x) ==> x.wf(),
        ensures
            r is Ok <==> (old(self).range() is Some && old(self).range()->0.shifted(by as int) is Some),
            r is Ok ==> shifted_filter(*old(self), *final(self), by as int),
            r is Err ==> *final(self) == *old(self),
            r matches Err(err) ==> (err == FilterError::NoTimestamp <==> old(self).range() is None),
            r matches Err(err) ==> err == FilterError::NoTimestamp || err == FilterError::OutOfRange,
    {
        let (start, end) = self.range_bounds()?;
        let s = match start.shifted(by) {
            Some(s) => s,
            None => return Err(FilterError::OutOfRange),
        };
        let e = match end.shifted(by) {
            Some(e) => e,
            None => return Err(FilterError::OutOfRange),
        };
        proof {
            lemma_from_total(start.total() + by);
            lemma_from_total(end.total() + by);
            lemma_total_injective(s, Timestamp::from_total(start.total() + by));
            lemma_total_injective(e, Timestamp::from_total(end.total() + by));
        }
        let t = self.timestamp.unwrap();
        self.constraints.set(t, Constraint::Range(Some(TimeRange { start: s, end: e })));
        Ok(())
    }

    /// Truncates both ends of the time range to microseconds.
    pub fn range_truncate(&mut self) -> (r: Result<(), FilterError>)
        ensures
            r is Ok <==> old(self).range() is Some,
            r is Ok ==> truncated_filter(*old(self), *final(self)),
            r is Err ==> *final(self) == *old(self),
            r matches Err(err) ==> err == FilterError::NoTimestamp,
    {
        let (start, end) = self.range_bounds()?;
        let t = self.timestamp.unwrap();
        self.constraints.set(t, Constraint::Range(Some(TimeRange { start: start.truncate_nanos(), end: end.truncate_nanos() })));
        Ok(())
    }
}

/// Whether `new` is `old` with its time range truncated to microseconds and
/// every other constraint kept.
pub open spec fn truncated_filter(old: Filter, new: Filter) -> bool {
    &&& old.range() is Some
    &&& new.range() == Some(old.range()->0.truncated())
    &&& same_but_range(old, new)
}

/// Whether `new` is `old` with its time range moved by `by` nanoseconds and
/// every other constraint kept.
pub open spec fn shifted_filter(old: Filter, new: Filter, by: int) -> bool {
    &&& old.range() is Some
    &&& new.range() == old.range()->0.shifted(by)
    &&& same_but_range(old, new)
}

/// Whether two filters agree on everything but the time range.
pub open spec fn same_but_range(a: Filter, b: Filter) -> bool {
    &&& b.timestamp == a.timestamp
    &&& b.constraints@.len() == a.constraints@.len()
    &&& forall|i: int| 0 <= i < a.constraints@.len() && Some(i as usize) != a.timestamp
        ==> #[trigger] b.constraints@[i] == a.constraints@[i]
}

/// Truncating a filter's time range a second time changes nothing more.
pub proof fn lemma_filter_truncate_idempotent(f0: Filter, f1: Filter, f2: Filter)
    requires
        truncated_filter(f0, f1),
        truncated_filter(f1, f2),
    ensures
        f2.range() == f1.range(),
        same_but_range(f1, f2),
        same_but_range(f0, f2),
{
    lemma_range_truncate_idempotent(f0.range()->0);
}

/// Shifting a filter's time range by `by` can be undone by shifting it by
/// `-by`, which gives back the range and every other constraint.
pub proof fn lemma_filter_shift_inverse(f0: Filter, f1: Filter, by: int)
    requires
        f0.range() matches Some(x) ==> x.wf(),
        shifted_filter(f0, f1, by),
        f1.range() is Some,
    ensures
        f1.range()->0.shifted(-by) == f0.range(),
        forall|f2: Filter| #[trigger] shifted_filter(f1, f2, -by) ==> f2.range() == f0.range() && same_but_range(f0, f2),
{
    lemma_range_shift_inverse(f0.range()->0, by);
}

/// Truncating a time range twice is the same as truncating it once.
pub proof fn lemma_range_truncate_idempotent(r: TimeRange)
    ensures
        r.truncated().truncated() == r.truncated(),
{
}

/// Shifting a time range by `by` and then by `-by` gives the range back.
pub proof fn lemma_range_shift_inverse(r: TimeRange, by: int)
    requires
        r.wf(),
        r.shifted(by) is Some,
    ensures
        r.shifted(by)->0.shifted(-by) == Some(r),
{
    let s = r.shifted(by)->0;
    lemma_from_total(r.start.total() + by);
    lemma_from_total(r.end.total() + by);
    assert(s.start.total() - by == r.start.total());
    assert(s.end.total() - by == r.end.total());
    lemma_from_total(r.start.total());
    lemma_from_total(r.end.total());
    lemma_total_injective(r.start, Timestamp::from_total(r.start.total()));
    lemma_total_injective(r.end, Timestamp::from_total(r.end.total()));
}

} // verus!
