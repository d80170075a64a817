//! Integer columns and their compression with pco.

use crate::record::{time_of_wire, value_fits, value_of_wire, wire_of_time, wire_value, Value};
use crate::schema::{FieldType, Wire};
use vstd::prelude::*;

verus! {

/// The error type of pco, carried opaquely.
#[verifier::external_type_specification]
#[verifier::external_body]
pub struct ExPcoError(pco::errors::PcoError);

/// Relies on `pco::standalone::simple_decompress`: the numbers pco reads from
/// the bytes as the given element type, or `None` where it reports an error.
pub uninterp spec fn pco_decoded(w: Wire, b: Seq<u8>) -> Option<Seq<int>>;

/// Why a column could not be encoded or decoded.
#[derive(Clone, Copy, Debug, PartialEq, Eq, Structural)]
pub enum CodecError {
    /// The compressor reported an error.
    Encode,
    /// The bytes are not a valid compressed column of the expected type.
    Decode,
    /// A stored time lies outside the supported span.
    TimeOutOfRange,
}

/// A column of encoded field values.
#[derive(Clone, Debug)]
pub enum Column {
    I32(Vec<i32>),
    I64(Vec<i64>),
    U16(Vec<u16>),
    U32(Vec<u32>),
    U64(Vec<u64>),
}

pub open spec fn ints_i32(v: Seq<i32>) -> Seq<int> { v.map_values(|x: i32| x as int) }
pub open spec fn ints_i64(v: Seq<i64>) -> Seq<int> { v.map_values(|x: i64| x as int) }
pub open spec fn ints_u16(v: Seq<u16>) -> Seq<int> { v.map_values(|x: u16| x as int) }
pub open spec fn ints_u32(v: Seq<u32>) -> Seq<int> { v.map_values(|x: u32| x as int) }
pub open spec fn ints_u64(v: Seq<u64>) -> Seq<int> { v.map_values(|x: u64| x as int) }

/// Relies on `pco::standalone::simple_compress` with pco's default chunk
/// configuration: the default paging splits the numbers into non-empty pages
/// of at most `DEFAULT_MAX_PAGE_N`, so no chunk is refused and writing into a
/// `Vec` cannot fail; pco is lossless and every file starts with a 4-byte header.
#[verifier::external_body]
fn compress_i32(v: &Vec<i32>) -> (r: Result<Vec<u8>, pco::errors::PcoError>)
    ensures
        r is Ok,
        r matches Ok(b) ==> b@.len() > 0
            && pco_decoded(Wire::I32, b@) == Some(ints_i32(v@)),
{
    pco::standalone::simple_compress(v.as_slice(), &pco::ChunkConfig::default())
}

/// Relies on `pco::standalone::simple_compress` with pco's default chunk
/// configuration: the default paging splits the numbers into non-empty pages
/// of at most `DEFAULT_MAX_PAGE_N`, so no chunk is refused and writing into a
/// `Vec` cannot fail; pco is lossless and every file starts with a 4-byte header.
#[verifier::external_body]
fn compress_i64(v: &Vec<i64>) -> (r: Result<Vec<u8>, pco::errors::PcoError>)
    ensures
        r is Ok,
        r matches Ok(b) ==> b@.len() > 0
            && pco_decoded(Wire::I64, b@) == Some(ints_i64(v@)),
{
    pco::standalone::simple_compress(v.as_slice(), &pco::ChunkConfig::default())
}

/// Relies on `pco::standalone::simple_compress` with pco's default chunk
/// configuration: the default paging splits the numbers into non-empty pages
/// of at most `DEFAULT_MAX_PAGE_N`, so no chunk is refused and writing into a
/// `Vec` cannot fail; pco is lossless and every file starts with a 4-byte header.
#[verifier::external_body]
fn compress_u16(v: &Vec<u16>) -> (r: Result<Vec<u8>, pco::errors::PcoError>)
    ensures
        r is Ok,
        r matches Ok(b) ==> b@.len() > 0
            && pco_decoded(Wire::U16, b@) == Some(ints_u16(v@)),
{
    pco::standalone::simple_compress(v.as_slice(), &pco::ChunkConfig::default())
}

/// Relies on `pco::standalone::simple_compress` with pco's default chunk
/// configuration: the default paging splits the numbers into non-empty pages
/// of at most `DEFAULT_MAX_PAGE_N`, so no chunk is refused and writing into a
/// `Vec` cannot fail; pco is lossless and every file starts with a 4-byte header.
#[verifier::external_body]
fn compress_u32(v: &Vec<u32>) -> (r: Result<Vec<u8>, pco::errors::PcoError>)
    ensures
        r is Ok,
        r matches Ok(b) ==> b@.len() > 0
            && pco_decoded(Wire::U32, b@) == Some(ints_u32(v@)),
{
    pco::standalone::simple_compress(v.as_slice(), &pco::ChunkConfig::default())
}

/// Relies on `pco::standalone::simple_compress` with pco's default chunk
/// configuration: the default paging splits the numbers into non-empty pages
/// of at most `DEFAULT_MAX_PAGE_N`, so no chunk is refused and writing into a
/// `Vec` cannot fail; pco is lossless and every file starts with a 4-byte header.
#[verifier::external_body]
fn compress_u64(v: &Vec<u64>) -> (r: Result<Vec<u8>, pco::errors::PcoError>)
    ensures
        r is Ok,
        r matches Ok(b) ==> b@.len() > 0
            && pco_decoded(Wire::U64, b@) == Some(ints_u64(v@)),
{
    pco::standalone::simple_compress(v.as_slice(), &pco::ChunkConfig::default())
}

/// Relies on `pco::standalone::simple_decompress` read as `i32`.
#[verifier::external_body]
fn decompress_i32(b: &Vec<u8>) -> (r: Result<Vec<i32>, pco::errors::PcoError>)
    ensures
        r is Ok <==> pco_decoded(Wire::I32, b@) is Some,
        r matches Ok(v) ==> pco_decoded(Wire::I32, b@) == Some(ints_i32(v@)),
{
    pco::standalone::simple_decompress(b.as_slice())
}

/// Relies on `pco::standalone::simple_decompress` read as `i64`.
#[verifier::external_body]
fn decompress_i64(b: &Vec<u8>) -> (r: Result<Vec<i64>, pco::errors::PcoError>)
    ensures
        r is Ok <==> pco_decoded(Wire::I64, b@) is Some,
        r matches Ok(v) ==> pco_decoded(Wire::I64, b@) == Some(ints_i64(v@)),
{
    pco::standalone::simple_decompress(b.as_slice())
}

/// Relies on `pco::standalone::simple_decompress` read as `u16`.
#[verifier::external_body]
fn decompress_u16(b: &Vec<u8>) -> (r: Result<Vec<u16>, pco::errors::PcoError>)
    ensures
        r is Ok <==> pco_decoded(Wire::U16, b@) is Some,
        r matches Ok(v) ==> pco_decoded(Wire::U16, b@) == Some(ints_u16(v@)),
{
    pco::standalone::simple_decompress(b.as_slice())
}

/// Relies on `pco::standalone::simple_decompress` read as `u32`.
#[verifier::external_body]
fn decompress_u32(b: &Vec<u8>) -> (r: Result<Vec<u32>, pco::errors::PcoError>)
    ensures
        r is Ok <==> pco_decoded(Wire::U32, b@) is Some,
        r matches Ok(v) ==> pco_decoded(Wire::U32, b@) == Some(ints_u32(v@)),
{
    pco::standalone::simple_decompress(b.as_slice())
}

/// Relies on `pco::standalone::simple_decompress` read as `u64`.
#[verifier::external_body]
fn decompress_u64(b: &Vec<u8>) -> (r: Result<Vec<u64>, pco::errors::PcoError>)
    ensures
        r is Ok <==> pco_decoded(Wire::U64, b@) is Some,
        r matches Ok(v) ==> pco_decoded(Wire::U64, b@) == Some(ints_u64(v@)),
{
    pco::standalone::simple_decompress(b.as_slice())
}

/// The element type of the column of a field of type `ty`.
///
/// A float field that is not rounded is stored as its IEEE 754 bit pattern,
/// compressed with pco's unsigned integer mode (`u32` or `u64`) rather than
/// its float mode; its bytes therefore differ from a column of pco floats,
/// and such a column does not decode to the same values here.
pub open spec fn wire_of_type(ty: FieldType, rounds: bool) -> Wire {
    match ty {
        FieldType::Int32 => Wire::I32,
        FieldType::Int64 => Wire::I64,
        FieldType::Float32 => if rounds { Wire::I64 } else { Wire::U32 },
        FieldType::Float64 => if rounds { Wire::I64 } else { Wire::U64 },
        FieldType::Bool => Wire::U16,
        FieldType::Timestamp => Wire::U64,
    }
}

/// The element type of the column of a field of type `ty`.
pub fn wire_for(ty: FieldType, rounds: bool) -> (r: Wire)
    ensures
        r == wire_of_type(ty, rounds),
{
    match ty {
        FieldType::Int32 => Wire::I32,
        FieldType::Int64 => Wire::I64,
        FieldType::Float32 => if rounds { Wire::I64 } else { Wire::U32 },
        FieldType::Float64 => if rounds { Wire::I64 } else { Wire::U64 },
        FieldType::Bool => Wire::U16,
        FieldType::Timestamp => Wire::U64,
    }
}

impl Column {
    /// The element type.
    pub open spec fn wire(self) -> Wire {
        match self {
            Column::I32(_) => Wire::I32,
            Column::I64(_) => Wire::I64,
            Column::U16(_) => Wire::U16,
            Column::U32(_) => Wire::U32,
            Column::U64(_) => Wire::U64,
        }
    }

    /// The elements, as integers.
    pub open spec fn values(self) -> Seq<int> {
        match self {
            Column::I32(v) => ints_i32(v@),
            Column::I64(v) => ints_i64(v@),
            Column::U16(v) => ints_u16(v@),
            Column::U32(v) => ints_u32(v@),
            Column::U64(v) => ints_u64(v@),
        }
    }

    /// An empty column of the given element type.
    pub fn empty(w: Wire) -> (r: Column)
        ensures
            r.wire() == w,
            r.values() == Seq::<int>::empty(),
    {
        let r = match w {
            Wire::I32 => Column::I32(Vec::new()),
            Wire::I64 => Column::I64(Vec::new()),
            Wire::U16 => Column::U16(Vec::new()),
            Wire::U32 => Column::U32(Vec::new()),
            Wire::U64 => Column::U64(Vec::new()),
        };
        proof {
            assert(r.values() =~= Seq::<int>::empty());
        }
        r
    }

    /// The number of elements.
    pub fn len(&self) -> (r: usize)
        ensures
            r == self.values().len(),
    {
        match self {
            Column::I32(v) => v.len(),
            Column::I64(v) => v.len(),
            Column::U16(v) => v.len(),
            Column::U32(v) => v.len(),
            Column::U64(v) => v.len(),
        }
    }

    /// Appends the column element that stores `v`.
    pub fn push_value(&mut self, ty: FieldType, rounds: bool, v: Value)
        requires
            old(self).wire() == wire_of_type(ty, rounds),
            value_fits(ty, rounds, v),
        ensures
            final(self).wire() == old(self).wire(),
            final(self).values() == old(self).values().push(wire_value(v)),
    {
        match (self, v) {
            (Column::I32(c), Value::Int32(x)) => {
                let ghost before = c@;
                c.push(x);
                proof { assert(ints_i32(c@) =~= ints_i32(before).push(x as int)); }
            },
            (Column::I64(c), Value::Int64(x)) => {
                let ghost before = c@;
                c.push(x);
                proof { assert(ints_i64(c@) =~= ints_i64(before).push(x as int)); }
            },
            (Column::I64(c), Value::Scaled(x)) => {
                let ghost before = c@;
                c.push(x);
                proof { assert(ints_i64(c@) =~= ints_i64(before).push(x as int)); }
            },
            (Column::U16(c), Value::Bool(b)) => {
                let x: u16 = if b { 1 } else { 0 };
                let ghost before = c@;
                c.push(x);
                proof { assert(ints_u16(c@) =~= ints_u16(before).push(x as int)); }
            },
            (Column::U32(c), Value::Float32Bits(x)) => {
                let ghost before = c@;
                c.push(x);
                proof { assert(ints_u32(c@) =~= ints_u32(before).push(x as int)); }
            },
            (Column::U64(c), Value::Float64Bits(x)) => {
                let ghost before = c@;
                c.push(x);
                proof { assert(ints_u64(c@) =~= ints_u64(before).push(x as int)); }
            },
            (Column::U64(c), Value::Time(t)) => {
                let x = wire_of_time(&t);
                let ghost before = c@;
                c.push(x);
                proof { assert(ints_u64(c@) =~= ints_u64(before).push(x as int)); }
            },
            _ => {},
        }
    }

    /// The value that element `j` stands for in a field of type `ty`.
    pub fn value_at(&self, ty: FieldType, rounds: bool, j: usize) -> (r: Option<Value>)
        requires
            self.wire() == wire_of_type(ty, rounds),
            j < self.values().len(),
        ensures
            r == value_of_wire(ty, rounds, self.values()[j as int]),
    {
        match self {
            Column::I32(c) => Some(Value::Int32(c[j])),
            Column::I64(c) => if rounds && (ty == FieldType::Float32 || ty == FieldType::Float64) {
                Some(Value::Scaled(c[j]))
            } else {
                Some(Value::Int64(c[j]))
            },
            Column::U16(c) => Some(Value::Bool(c[j] != 0)),
            Column::U32(c) => Some(Value::Float32Bits(c[j])),
            Column::U64(c) => if ty == FieldType::Timestamp {
                match time_of_wire(c[j]) {
                    Some(t) => Some(Value::Time(t)),
                    None => None,
                }
            } else {
                Some(Value::Float64Bits(c[j]))
            },
        }
    }
}

/// Compresses a column.
pub fn compress_column(col: &Column) -> (r: Result<Vec<u8>, CodecError>)
    ensures
        r is Ok,
        r matches Ok(b) ==> b@.len() > 0
            && pco_decoded(col.wire(), b@) == Some(col.values()),
        r matches Err(e) ==> e == CodecError::Encode,
{
    let r = match col {
        Column::I32(v) => compress_i32(v),
        Column::I64(v) => compress_i64(v),
        Column::U16(v) => compress_u16(v),
        Column::U32(v) => compress_u32(v),
        Column::U64(v) => compress_u64(v),
    };
    match r {
        Ok(b) => Ok(b),
        Err(_) => Err(CodecError::Encode),
    }
}

/// The column decoded from the bytes; no bytes stand for an empty column.
pub open spec fn decoded_column(w: Wire, b: Seq<u8>) -> Option<Seq<int>> {
    if b.len() == 0 { Some(Seq::empty()) } else { pco_decoded(w, b) }
}

/// Decompresses a column of the given element type; no bytes give an empty column.
pub fn decompress_column(w: Wire, b: &Vec<u8>) -> (r: Result<Column, CodecError>)
    ensures
        r is Ok <==> decoded_column(w, b@) is Some,
        r matches Ok(c) ==> c.wire() == w && Some(c.values()) == decoded_column(w, b@),
        r matches Err(e) ==> e == CodecError::Decode,
{
    if b.len() == 0 {
        return Ok(Column::empty(w));
    }
    match w {
        Wire::I32 => match decompress_i32(b) {
            Ok(v) => Ok(Column::I32(v)),
            Err(_) => Err(CodecError::Decode),
        },
        Wire::I64 => match decompress_i64(b) {
            Ok(v) => Ok(Column::I64(v)),
            Err(_) => Err(CodecError::Decode),
        },
        Wire::U16 => match decompress_u16(b) {
            Ok(v) => Ok(Column::U16(v)),
            Err(_) => Err(CodecError::Decode),
        },
        Wire::U32 => match decompress_u32(b) {
            Ok(v) => Ok(Column::U32(v)),
            Err(_) => Err(CodecError::Decode),
        },
        Wire::U64 => match decompress_u64(b) {
            Ok(v) => Ok(Column::U64(v)),
            Err(_) => Err(CodecError::Decode),
        },
    }
}

} // verus!
