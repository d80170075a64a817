//! Building a filter from loosely shaped input, such as decoded JSON.

use crate::filter::{Constraint, Filter};
use crate::record::{value_fits, Value};
use crate::schema::{find_field, has_field, Descriptor, FieldType};
use crate::time::{TimeRange, Timestamp};
use vstd::prelude::*;

verus! {

/// Relies on chrono's `FromStr for DateTime<Utc>` (a relaxed RFC 3339): the
/// instant a text names, as seconds since the epoch and a nanosecond part.
pub uninterp spec fn utc_time_of(s: Seq<char>) -> Option<(i64, u32)>;

/// Relies on chrono's `FromStr for DateTime<Utc>`, read back through
/// `DateTime::timestamp` and `DateTime::timestamp_subsec_nanos`.
#[verifier::external_body]
fn parse_utc(s: &str) -> (r: Option<(i64, u32)>)
    ensures
        r == utc_time_of(s@),
{
    s.parse::<chrono::DateTime<chrono::Utc>>().ok().map(|t| (t.timestamp(), t.timestamp_subsec_nanos()))
}

/// A loosely shaped input value.
pub enum Input {
    Null,
    Bool(bool),
    Int(i64),
    Text(String),
    /// A float, already in the form its field holds (bits or scaled integer).
    Float(Value),
    List(Vec<Input>),
    /// A value of a shape that no field accepts, such as an object.
    Other,
}

/// Why an input could not be read as a filter.
#[derive(Clone, Debug, PartialEq, Eq)]
pub enum DeserializeError {
    /// A key that names no field.
    UnknownField(String),
    /// A key given twice.
    DuplicateField(String),
    /// A value of the wrong type or out of range for the field.
    InvalidValue(String),
    /// A time range of the wrong shape, or a text that is not a time.
    InvalidTime(String),
}

/// The instant a text names, if it is one and lies in the supported span.
/// A leap second (`...:59:60`), which chrono holds as a nanosecond part of a
/// second or more, is not a supported instant and is refused.
pub open spec fn time_of_text(s: Seq<char>) -> Option<Timestamp> {
    match utc_time_of(s) {
        Some((secs, nanos)) => if (Timestamp { secs, nanos }).wf() { Some(Timestamp { secs, nanos }) } else { None },
        None => None,
    }
}

impl DeserializeError {
    /// The message of the error.
    pub fn message(&self) -> (r: String)
        ensures
            r@ == match self {
                DeserializeError::UnknownField(k) => "unknown field "@ + k@,
                DeserializeError::DuplicateField(k) => "duplicate field "@ + k@,
                DeserializeError::InvalidValue(k) => "invalid value for "@ + k@,
                DeserializeError::InvalidTime(k) => "invalid time format: "@ + k@,
            },
    {
        let (mut m, k) = match self {
            DeserializeError::UnknownField(k) => (String::from_str("unknown field "), k),
            DeserializeError::DuplicateField(k) => (String::from_str("duplicate field "), k),
            DeserializeError::InvalidValue(k) => (String::from_str("invalid value for "), k),
            DeserializeError::InvalidTime(k) => (String::from_str("invalid time format: "), k),
        };
        m.append(k.as_str());
        m
    }
}

/// The value an input scalar stands for in a field of type `ty`.
pub open spec fn value_of_input(ty: FieldType, rounds: bool, x: Input) -> Option<Value> {
    match x {
        Input::Int(n) => if ty == FieldType::Int64 {
            Some(Value::Int64(n))
        } else if ty == FieldType::Int32 && i32::MIN <= n <= i32::MAX {
            Some(Value::Int32(n as i32))
        } else {
            None
        },
        Input::Bool(b) => if ty == FieldType::Bool { Some(Value::Bool(b)) } else { None },
        Input::Float(v) => if value_fits(ty, rounds, v) && (ty == FieldType::Float32 || ty == FieldType::Float64) {
            Some(v)
        } else {
            None
        },
        _ => None,
    }
}

/// The allowed values an input stands for: `null` for none, one value, or a list.
pub open spec fn values_of_input(ty: FieldType, rounds: bool, x: Input) -> Option<Seq<Value>> {
    match x {
        Input::Null => Some(Seq::empty()),
        Input::List(items) => if forall|k: int| 0 <= k < items@.len() ==> (#[trigger] value_of_input(ty, rounds, items@[k])) is Some {
            Some(items@.map_values(|it: Input| value_of_input(ty, rounds, it)->0))
        } else {
            None
        },
        _ => match value_of_input(ty, rounds, x) {
            Some(v) => Some(seq![v]),
            None => None,
        },
    }
}

/// The time range an input stands for (the inner `None` is no range), or
/// `None` for an input of any other shape: `null`, `""` and `[]` give no
/// range, `"t"` and `["t"]` give `t..=t`, `["a", "b"]` gives `a..=b`.
pub open spec fn range_of_input(x: Input) -> Option<Option<TimeRange>> {
    match x {
        Input::Null => Some(None),
        Input::Text(s) => if s@.len() == 0 {
            Some(None)
        } else {
            match time_of_text(s@) {
                Some(t) => Some(Some(TimeRange { start: t, end: t })),
                None => None,
            }
        },
        Input::List(items) => if items@.len() == 0 {
            Some(None)
        } else if items@.len() > 2 {
            None
        } else {
            match items@[0] {
                Input::Text(a) => match time_of_text(a@) {
                    Some(start) => if items@.len() == 1 {
                        Some(Some(TimeRange { start, end: start }))
                    } else {
                        match items@[1] {
                            Input::Text(b) => match time_of_text(b@) {
                                Some(end) => Some(Some(TimeRange { start, end })),
                                None => None,
                            },
                            _ => None,
                        }
                    },
                    None => None,
                },
                _ => None,
            }
        },
        _ => None,
    }
}

/// The constraint an input stands for in a field of type `ty`.
pub open spec fn constraint_of_input(ty: FieldType, rounds: bool, x: Input) -> Option<(Seq<Value>, Option<TimeRange>)> {
    if ty == FieldType::Timestamp {
        match range_of_input(x) {
            Some(r) => Some((Seq::empty(), r)),
            None => None,
        }
    } else {
        match values_of_input(ty, rounds, x) {
            Some(vs) => Some((vs, None)),
            None => None,
        }
    }
}

/// The view of a constraint: its allowed values and its time range.
pub open spec fn constraint_view(c: Constraint) -> (Seq<Value>, Option<TimeRange>) {
    match c {
        Constraint::Values(vs) => (vs@, None),
        Constraint::Range(r) => (Seq::empty(), r),
    }
}

/// The instant a text names; leap seconds are refused.
fn time_from_text(s: &String) -> (r: Option<Timestamp>)
    ensures
        r == time_of_text(s@),
{
    match parse_utc(s.as_str()) {
        Some((secs, nanos)) => {
            let t = Timestamp { secs, nanos };
            if crate::time::MIN_SECS <= secs && secs <= crate::time::MAX_SECS && nanos < 1_000_000_000 {
                Some(t)
            } else {
                None
            }
        },
        None => None,
    }
}

/// The value an input scalar stands for in a field of type `ty`.
fn value_from_input(ty: FieldType, rounds: bool, x: &Input) -> (r: Option<Value>)
    ensures
        r == value_of_input(ty, rounds, *x),
{
    match x {
        Input::Int(n) => {
            if ty == FieldType::Int64 {
                Some(Value::Int64(*n))
            } else if ty == FieldType::Int32 && i32::MIN as i64 <= *n && *n <= i32::MAX as i64 {
                Some(Value::Int32(*n as i32))
            } else {
                None
            }
        },
        Input::Bool(b) => if ty == FieldType::Bool { Some(Value::Bool(*b)) } else { None },
        Input::Float(v) => {
            let ok = match v {
                Value::Scaled(_) => rounds,
                Value::Float32Bits(_) => !rounds && ty == FieldType::Float32,
                Value::Float64Bits(_) => !rounds && ty == FieldType::Float64,
                _ => false,
            };
            if ok && (ty == FieldType::Float32 || ty == FieldType::Float64) { Some(*v) } else { None }
        },
        _ => None,
    }
}

/// The time range an input stands for, if it has one of the accepted shapes.
fn range_from_input(x: &Input) -> (r: Option<Option<TimeRange>>)
    ensures
        r == range_of_input(*x),
{
    match x {
        Input::Null => Some(None),
        Input::Text(s) => {
            if s.unicode_len() == 0 {
                Some(None)
            } else {
                match time_from_text(s) {
                    Some(t) => Some(Some(TimeRange { start: t, end: t })),
                    None => None,
                }
            }
        },
        Input::List(items) => {
            if items.len() == 0 {
                Some(None)
            } else if items.len() > 2 {
                None
            } else {
                match &items[0] {
                    Input::Text(a) => match time_from_text(a) {
                        Some(start) => {
                            if items.len() == 1 {
                                Some(Some(TimeRange { start, end: start }))
                            } else {
                                match &items[1] {
                                    Input::Text(b) => match time_from_text(b) {
                                        Some(end) => Some(Some(TimeRange { start, end })),
                                        None => None,
                                    },
                                    _ => None,
                                }
                            }
                        },
                        None => None,
                    },
                    _ => None,
                }
            }
        },
        _ => None,
    }
}

/// The constraint an input stands for in a field of type `ty`.
pub fn constraint_from_input(ty: FieldType, rounds: bool, x: &Input) -> (r: Option<Constraint>)
    ensures
        r is Some <==> constraint_of_input(ty, rounds, *x) is Some,
        r matches Some(c) ==> constraint_view(c) == constraint_of_input(ty, rounds, *x)->0,
        r matches Some(c) ==> crate::filter::constraint_fits(ty, rounds, c),
{
    if ty == FieldType::Timestamp {
        return match range_from_input(x) {
            Some(r) => Some(Constraint::Range(r)),
            None => None,
        };
    }
    match x {
        Input::Null => Some(Constraint::Values(Vec::new())),
        Input::List(items) => {
            let mut vs: Vec<Value> = Vec::new();
            let mut k: usize = 0;
            while k < items.len()
                invariant
                    ty != FieldType::Timestamp,
                    *x == Input::List(*items),
                    k <= items@.len(),
                    forall|a: int| 0 <= a < k ==> (#[trigger] value_of_input(ty, rounds, items@[a])) is Some,
                    vs@ == items@.take(k as int).map_values(|it: Input| value_of_input(ty, rounds, it)->0),
                    forall|a: int| 0 <= a < vs@.len() ==> value_fits(ty, rounds, #[trigger] vs@[a]),
                decreases items@.len() - k,
            {
                match value_from_input(ty, rounds, &items[k]) {
                    Some(v) => {
                        proof { lemma_input_value_fits(ty, rounds, items@[k as int]); }
                        vs.push(v);
                        proof {
                            assert(items@.take(k + 1) == items@.take(k as int).push(items@[k as int]));
                            assert(vs@ =~= items@.take(k + 1).map_values(|it: Input| value_of_input(ty, rounds, it)->0));
                        }
                    },
                    None => {
                        proof { assert(value_of_input(ty, rounds, items@[k as int]) is None); }
                        return None;
                    },
                }
                k += 1;
            }
            assert(items@.take(items@.len() as int) == items@);
            Some(Constraint::Values(vs))
        },
        _ => match value_from_input(ty, rounds, x) {
            Some(v) => {
                proof { lemma_input_value_fits(ty, rounds, *x); }
                let mut vs: Vec<Value> = Vec::new();
                vs.push(v);
                assert(vs@ =~= seq![v]);
                Some(Constraint::Values(vs))
            },
            None => None,
        },
    }
}

/// A value read from an input fits its field.
proof fn lemma_input_value_fits(ty: FieldType, rounds: bool, x: Input)
    ensures
        value_of_input(ty, rounds, x) matches Some(v) ==> value_fits(ty, rounds, v),
{
}

/// Whether key `k` names the field of the constraint.
pub open spec fn entry_for(d: Descriptor, entries: Seq<(String, Input)>, i: int, e: int) -> bool {
    0 <= e < entries.len() && entries[e].0@ == d.fields@[i].name@
}

/// Whether the entries form a valid filter: every key names a field, no key
/// comes twice, and every value has an accepted shape for its field.
pub open spec fn valid_entries(d: Descriptor, entries: Seq<(String, Input)>) -> bool {
    &&& forall|e: int| 0 <= e < entries.len() ==> has_field(d.fields@, #[trigger] entries[e].0@)
    &&& forall|e: int, g: int| 0 <= e < g < entries.len() ==> #[trigger] entries[e].0@ != #[trigger] entries[g].0@
    &&& forall|e: int, i: int| 0 <= i < d.fields@.len() && #[trigger] entry_for(d, entries, i, e) ==>
        constraint_of_input(d.fields@[i].ty, d.rounds_floats(), entries[e].1) is Some
}

impl Filter {
    /// Reads a filter from `key: value` entries, such as the members of a JSON
    /// object. A field without an entry is left unconstrained.
    pub fn from_entries(d: &Descriptor, entries: &Vec<(String, Input)>) -> (r: Result<Filter, DeserializeError>)
        requires
            d.wf(),
        ensures
            r is Ok <==> valid_entries(*d, entries@),
            r matches Ok(f) ==> f.fits(*d),
            r matches Ok(f) ==> forall|i: int| 0 <= i < d.fields@.len() ==> (#[trigger] constraint_view(f.constraints@[i])) == (
                if exists|e: int| entry_for(*d, entries@, i, e) {
                    constraint_of_input(d.fields@[i].ty, d.rounds_floats(), entries@[choose|e: int| entry_for(*d, entries@, i, e)].1)->0
                } else {
                    (Seq::<Value>::empty(), None::<TimeRange>)
                }),
            r matches Err(DeserializeError::UnknownField(k)) ==> !has_field(d.fields@, k@),
            r matches Err(DeserializeError::DuplicateField(k)) ==> exists|e: int, g: int| 0 <= e < g < entries@.len()
                && entries@[e].0@ == k@ && entries@[g].0@ == k@,
            r matches Err(DeserializeError::InvalidTime(k)) ==> exists|e: int, i: int| 0 <= i < d.fields@.len()
                && #[trigger] entry_for(*d, entries@, i, e) && entries@[e].0@ == k@
                && d.fields@[i].ty == FieldType::Timestamp
                && constraint_of_input(d.fields@[i].ty, d.rounds_floats(), entries@[e].1) is None,
            r matches Err(DeserializeError::InvalidValue(k)) ==> exists|e: int, i: int| 0 <= i < d.fields@.len()
                && #[trigger] entry_for(*d, entries@, i, e) && entries@[e].0@ == k@
                && d.fields@[i].ty != FieldType::Timestamp
                && constraint_of_input(d.fields@[i].ty, d.rounds_floats(), entries@[e].1) is None,
    {
        let rounds = d.float_round.is_some();
        let mut f = Filter::unconstrained(d);
        let n = d.fields.len();
        let mut seen: Vec<bool> = Vec::new();
        let mut i: usize = 0;
        while i < n
            invariant
                i <= n,
                seen@.len() == i,
                forall|a: int| 0 <= a < i ==> !#[trigger] seen@[a],
            decreases n - i,
        {
            seen.push(false);
            i += 1;
        }
        let mut e: usize = 0;
        while e < entries.len()
            invariant
                d.wf(),
                n == d.fields@.len(),
                rounds == d.rounds_floats(),
                f.fits(*d),
                seen@.len() == n,
                e <= entries@.len(),
                forall|a: int| 0 <= a < e ==> has_field(d.fields@, #[trigger] entries@[a].0@),
                forall|a: int, b: int| 0 <= a < b < e ==> #[trigger] entries@[a].0@ != #[trigger] entries@[b].0@,
                forall|a: int, i: int| 0 <= i < n && #[trigger] entry_for(*d, entries@, i, a) && a < e ==>
                    constraint_of_input(d.fields@[i].ty, d.rounds_floats(), entries@[a].1) is Some,
                forall|i: int| 0 <= i < n ==> (#[trigger] seen@[i] <==> exists|a: int| a < e && entry_for(*d, entries@, i, a)),
                forall|i: int| 0 <= i < n ==> (#[trigger] constraint_view(f.constraints@[i])) == (
                    if exists|a: int| a < e && entry_for(*d, entries@, i, a) {
                        constraint_of_input(d.fields@[i].ty, d.rounds_floats(), entries@[choose|a: int| a < e && entry_for(*d, entries@, i, a)].1)->0
                    } else {
                        (Seq::<Value>::empty(), None::<TimeRange>)
                    }),
            decreases entries@.len() - e,
        {
            let key = &entries[e].0;
            let i = match find_field(&d.fields, key) {
                Some(i) => i,
                None => return Err(DeserializeError::UnknownField(key.clone())),
            };
            if seen[i] {
                proof {
                    let a = choose|a: int| a < e && entry_for(*d, entries@, i as int, a);
                    assert(entries@[a].0@ == entries@[e as int].0@);
                }
                return Err(DeserializeError::DuplicateField(key.clone()));
            }
            let c = match constraint_from_input(d.fields[i].ty, rounds, &entries[e].1) {
                Some(c) => c,
                None => {
                    proof {
                        assert(entry_for(*d, entries@, i as int, e as int));
                        assert(entries@[e as int].0@ == key@);
                    }
                    return Err(if d.fields[i].ty == FieldType::Timestamp {
                        DeserializeError::InvalidTime(key.clone())
                    } else {
                        DeserializeError::InvalidValue(key.clone())
                    });
                },
            };
            let ghost old_f = f;
            let ghost old_seen = seen@;
            f.constraints.set(i, c);
            seen.set(i, true);
            proof {
                assert forall|i2: int| 0 <= i2 < n implies (#[trigger] seen@[i2] <==> exists|a: int| a < e + 1 && entry_for(*d, entries@, i2, a)) by {
                    if i2 == i {
                        assert(entry_for(*d, entries@, i2, e as int));
                    } else {
                        if exists|a: int| a < e + 1 && entry_for(*d, entries@, i2, a) {
                            let a = choose|a: int| a < e + 1 && entry_for(*d, entries@, i2, a);
                            if a == e {
                                assert(d.fields@[i2].name@ == d.fields@[i as int].name@);
                            }
                        }
                    }
                }
                assert forall|i2: int| 0 <= i2 < n implies (#[trigger] constraint_view(f.constraints@[i2])) == (
                    if exists|a: int| a < e + 1 && entry_for(*d, entries@, i2, a) {
                        constraint_of_input(d.fields@[i2].ty, d.rounds_floats(), entries@[choose|a: int| a < e + 1 && entry_for(*d, entries@, i2, a)].1)->0
                    } else {
                        (Seq::<Value>::empty(), None::<TimeRange>)
                    }) by {
                    if i2 == i {
                        assert(entry_for(*d, entries@, i2, e as int));
                        let a = choose|a: int| a < e + 1 && entry_for(*d, entries@, i2, a);
                        if a != e {
                            assert(old_seen[i2]);
                        }
                    } else {
                        assert(f.constraints@[i2] == old_f.constraints@[i2]);
                        if exists|a: int| a < e + 1 && entry_for(*d, entries@, i2, a) {
                            let a = choose|a: int| a < e + 1 && entry_for(*d, entries@, i2, a);
                            if a == e {
                                assert(d.fields@[i2].name@ == d.fields@[i as int].name@);
                            }
                            assert(exists|a: int| a < e && entry_for(*d, entries@, i2, a));
                            assert((exists|a: int| a < e + 1 && entry_for(*d, entries@, i2, a))
                                == (exists|a: int| a < e && entry_for(*d, entries@, i2, a)));
                        } else {
                            assert(!exists|a: int| a < e && entry_for(*d, entries@, i2, a));
                        }
                    }
                }
                assert forall|a: int, b: int| 0 <= a < b < e + 1 implies #[trigger] entries@[a].0@ != #[trigger] entries@[b].0@ by {
                    if b == e && entries@[a].0@ == entries@[b].0@ {
                        assert(entry_for(*d, entries@, i as int, a));
                    }
                }
            }
            e += 1;
        }
        Ok(f)
    }
}

} // verus!
