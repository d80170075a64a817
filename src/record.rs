//! Field values, and their encoding as integer column elements.

use crate::schema::{Descriptor, FieldType};
use crate::time::{lemma_from_total, lemma_micros_bounds, lemma_total_injective, Timestamp};
use vstd::prelude::*;

verus! {

/// 2^63, the offset between the signed and unsigned readings of 64 bits.
pub const HALF_U64: u64 = 0x8000_0000_0000_0000;

/// The value of one record field.
///
/// A float field is held as its IEEE 754 bit pattern, or, when the description
/// rounds floats to `d` decimal places, as the integer `round(x * 10^d)`.
#[derive(Clone, Copy, Debug, PartialEq, Eq, Structural)]
pub enum Value {
    Int32(i32),
    Int64(i64),
    Bool(bool),
    Time(Timestamp),
    Scaled(i64),
    Float32Bits(u32),
    Float64Bits(u64),
}

/// One record: a value per field, in declared order.
pub type Record = Vec<Value>;

/// Whether `v` is a value of a field of type `ty`.
pub open spec fn value_fits(ty: FieldType, rounds: bool, v: Value) -> bool {
    match ty {
        FieldType::Int32 => v is Int32,
        FieldType::Int64 => v is Int64,
        FieldType::Bool => v is Bool,
        FieldType::Timestamp => v matches Value::Time(t) && t.wf(),
        FieldType::Float32 => if rounds { v is Scaled } else { v is Float32Bits },
        FieldType::Float64 => if rounds { v is Scaled } else { v is Float64Bits },
    }
}

/// Whether `r` is a record of the described shape.
pub open spec fn record_fits(d: Descriptor, r: Seq<Value>) -> bool {
    &&& r.len() == d.fields@.len()
    &&& forall|i: int| 0 <= i < r.len() ==> value_fits(d.fields@[i].ty, d.rounds_floats(), #[trigger] r[i])
}

/// Whether every record of `rs` is of the described shape.
pub open spec fn records_fit(d: Descriptor, rs: Seq<Seq<Value>>) -> bool {
    forall|j: int| 0 <= j < rs.len() ==> record_fits(d, #[trigger] rs[j])
}

/// The unsigned 64-bit reading of a signed 64-bit integer.
pub open spec fn unsigned_of(x: int) -> int {
    if x >= 0 { x } else { x + 0x1_0000_0000_0000_0000 }
}

/// The signed 64-bit reading of an unsigned 64-bit integer.
pub open spec fn signed_of(w: int) -> int {
    if w < 0x8000_0000_0000_0000 { w } else { w - 0x1_0000_0000_0000_0000 }
}

/// The column element that stores a value.
pub open spec fn wire_value(v: Value) -> int {
    match v {
        Value::Int32(x) => x as int,
        Value::Int64(x) => x as int,
        Value::Bool(b) => if b { 1 } else { 0 },
        Value::Time(t) => unsigned_of(t.micros()),
        Value::Scaled(x) => x as int,
        Value::Float32Bits(b) => b as int,
        Value::Float64Bits(b) => b as int,
    }
}

/// The value that a column element of a field of type `ty` stands for;
/// `None` for a time outside the supported span.
pub open spec fn value_of_wire(ty: FieldType, rounds: bool, w: int) -> Option<Value> {
    match ty {
        FieldType::Int32 => Some(Value::Int32(w as i32)),
        FieldType::Int64 => Some(Value::Int64(w as i64)),
        FieldType::Bool => Some(Value::Bool(w != 0)),
        FieldType::Timestamp => {
            let m = signed_of(w);
            if Timestamp::total_in_range(m * 1000) {
                Some(Value::Time(Timestamp::from_total(m * 1000)))
            } else {
                None
            }
        },
        FieldType::Float32 => if rounds { Some(Value::Scaled(w as i64)) } else { Some(Value::Float32Bits(w as u32)) },
        FieldType::Float64 => if rounds { Some(Value::Scaled(w as i64)) } else { Some(Value::Float64Bits(w as u64)) },
    }
}

/// What a value reads back as: times lose their sub-microsecond part.
pub open spec fn stored_form(v: Value) -> Value {
    match v {
        Value::Time(t) => Value::Time(t.truncated()),
        _ => v,
    }
}

/// A record as it reads back.
pub open spec fn stored_record(r: Seq<Value>) -> Seq<Value> {
    r.map_values(|v: Value| stored_form(v))
}

/// The value a field takes when its column holds no element for a record.
pub open spec fn default_value(ty: FieldType, rounds: bool) -> Value {
    match ty {
        FieldType::Int32 => Value::Int32(0),
        FieldType::Int64 => Value::Int64(0),
        FieldType::Bool => Value::Bool(false),
        FieldType::Timestamp => Value::Time(Timestamp { secs: 0, nanos: 0 }),
        FieldType::Float32 => if rounds { Value::Scaled(0) } else { Value::Float32Bits(0) },
        FieldType::Float64 => if rounds { Value::Scaled(0) } else { Value::Float64Bits(0) },
    }
}

/// Whether `v` is a value of a field of type `ty`.
pub fn fits_field(ty: FieldType, rounds: bool, v: &Value) -> (r: bool)
    ensures
        r == value_fits(ty, rounds, *v),
{
    match v {
        Value::Int32(_) => ty == FieldType::Int32,
        Value::Int64(_) => ty == FieldType::Int64,
        Value::Bool(_) => ty == FieldType::Bool,
        Value::Time(t) => ty == FieldType::Timestamp && crate::time::MIN_SECS <= t.secs && t.secs <= crate::time::MAX_SECS
            && t.nanos < 1_000_000_000,
        Value::Scaled(_) => rounds && (ty == FieldType::Float32 || ty == FieldType::Float64),
        Value::Float32Bits(_) => !rounds && ty == FieldType::Float32,
        Value::Float64Bits(_) => !rounds && ty == FieldType::Float64,
    }
}

/// Whether every record is of the described shape.
pub fn records_fit_check(d: &Descriptor, rows: &Vec<Vec<Value>>) -> (r: bool)
    ensures
        r == records_fit(*d, rows@.map_values(|x: Vec<Value>| x@)),
{
    let ghost rs = rows@.map_values(|x: Vec<Value>| x@);
    let rounds = d.float_round.is_some();
    let mut j: usize = 0;
    while j < rows.len()
        invariant
            rs == rows@.map_values(|x: Vec<Value>| x@),
            rounds == d.rounds_floats(),
            j <= rows@.len(),
            forall|a: int| 0 <= a < j ==> record_fits(*d, #[trigger] rs[a]),
        decreases rows@.len() - j,
    {
        let r = &rows[j];
        assert(rs[j as int] == r@);
        if r.len() != d.fields.len() {
            return false;
        }
        let mut i: usize = 0;
        while i < r.len()
            invariant
                rounds == d.rounds_floats(),
                rs == rows@.map_values(|x: Vec<Value>| x@),
                j < rows@.len(),
                rs[j as int] == r@,
                r@.len() == d.fields@.len(),
                i <= r@.len(),
                forall|a: int| 0 <= a < i ==> value_fits(d.fields@[a].ty, d.rounds_floats(), #[trigger] r@[a]),
            decreases r@.len() - i,
        {
            if !fits_field(d.fields[i].ty, rounds, &r[i]) {
                proof { assert(!record_fits(*d, rs[j as int])); }
                return false;
            }
            i += 1;
        }
        j += 1;
    }
    true
}

/// The value a field of type `ty` takes when its column holds no element for a record.
pub fn default_for(ty: FieldType, rounds: bool) -> (r: Value)
    ensures
        r == default_value(ty, rounds),
        value_fits(ty, rounds, r),
{
    match ty {
        FieldType::Int32 => Value::Int32(0),
        FieldType::Int64 => Value::Int64(0),
        FieldType::Bool => Value::Bool(false),
        FieldType::Timestamp => Value::Time(Timestamp::epoch()),
        FieldType::Float32 => if rounds { Value::Scaled(0) } else { Value::Float32Bits(0) },
        FieldType::Float64 => if rounds { Value::Scaled(0) } else { Value::Float64Bits(0) },
    }
}

/// The unsigned 64-bit reading of a signed 64-bit integer.
pub fn to_unsigned(x: i64) -> (r: u64)
    ensures
        r as int == unsigned_of(x as int),
{
    if x >= 0 {
        x as u64
    } else {
        ((x + i64::MAX) + 1) as u64 + HALF_U64
    }
}

/// The signed 64-bit reading of an unsigned 64-bit integer.
pub fn to_signed(w: u64) -> (r: i64)
    ensures
        r as int == signed_of(w as int),
{
    if w < HALF_U64 {
        w as i64
    } else {
        (w - HALF_U64) as i64 - i64::MAX - 1
    }
}

/// The time stored as column element `w`, if it lies in the supported span.
pub fn time_of_wire(w: u64) -> (r: Option<Timestamp>)
    ensures
        r == (match value_of_wire(FieldType::Timestamp, false, w as int) {
            Some(Value::Time(t)) => Some(t),
            _ => None,
        }),
{
    let m = to_signed(w);
    let r = Timestamp::from_timestamp_micros(m);
    proof {
        if Timestamp::total_in_range(m * 1000) {
            lemma_from_total(m * 1000);
            let t = r->0;
            lemma_total_injective(t, Timestamp::from_total(m * 1000));
        }
    }
    r
}

/// The column element that stores a time.
pub fn wire_of_time(t: &Timestamp) -> (r: u64)
    requires
        t.wf(),
    ensures
        r as int == wire_value(Value::Time(*t)),
{
    to_unsigned(t.timestamp_micros())
}

/// A value reads back as its stored form.
pub proof fn lemma_value_round_trip(ty: FieldType, rounds: bool, v: Value)
    requires
        value_fits(ty, rounds, v),
    ensures
        value_of_wire(ty, rounds, wire_value(v)) == Some(stored_form(v)),
{
    match v {
        Value::Time(t) => {
            lemma_micros_bounds(t);
            let m = t.micros();
            assert(signed_of(unsigned_of(m)) == m);
            let tt = t.truncated();
            assert(tt.total() == m * 1000) by (nonlinear_arith)
                requires tt.total() == tt.secs * 1_000_000_000 + tt.nanos, tt.secs == t.secs,
                    tt.nanos == t.nanos / 1000 * 1000, m == t.secs * 1_000_000 + t.nanos / 1000;
            assert(tt.wf());
            lemma_from_total(m * 1000);
            lemma_total_injective(tt, Timestamp::from_total(m * 1000));
        },
        Value::Int32(x) => {},
        Value::Int64(x) => {},
        Value::Scaled(x) => {},
        Value::Float32Bits(b) => {},
        Value::Float64Bits(b) => {},
        Value::Bool(b) => {},
    }
}

} // verus!
