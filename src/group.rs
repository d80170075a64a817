//! Groups: many records of one group key, stored as one row of compressed columns.

use crate::codec::{
    compress_column, decoded_column, decompress_column, wire_for, pco_decoded, wire_of_type, CodecError, Column,
};
use crate::filter::Filter;
use crate::record::{
    default_for, default_value, lemma_value_round_trip, stored_form, stored_record, value_fits, value_of_wire,
    wire_value, Value,
};
use crate::schema::{Descriptor, FieldType};
use crate::time::Timestamp;
use vstd::prelude::*;

verus! {

/// One stored row: the group key, the time span, and one compressed column per field.
#[derive(Clone, Debug)]
pub struct Group {
    /// The filter that rows are checked against after decompression; `None`
    /// keeps every row.
    pub filter: Option<Filter>,
    /// The value of each group key field, in `group_by` order.
    pub keys: Vec<Value>,
    /// The earliest time of the group, when a timestamp is declared.
    pub start_at: Option<Timestamp>,
    /// The latest time of the group, when a timestamp is declared.
    pub end_at: Option<Timestamp>,
    /// The compressed column of each field, in declared order; empty for the
    /// group key fields and for columns that were not read.
    pub columns: Vec<Vec<u8>>,
}

/// The position in `group_by` of field `i`.
pub open spec fn key_pos(d: Descriptor, i: int) -> int {
    choose|k: int| 0 <= k < d.group_by@.len() && d.group_by@[k] == i as usize
}

/// Whether field `i` is a group key.
pub open spec fn is_key(d: Descriptor, i: int) -> bool {
    d.group_by@.contains(i as usize)
}

impl Group {
    /// The group fits the description.
    pub open spec fn fits(self, d: Descriptor) -> bool {
        &&& self.keys@.len() == d.group_by@.len()
        &&& self.columns@.len() == d.fields@.len()
        &&& forall|k: int| 0 <= k < self.keys@.len() ==>
            value_fits(d.fields@[d.group_by@[k] as int].ty, d.rounds_floats(), #[trigger] self.keys@[k])
        &&& self.filter matches Some(f) ==> f.fits(d)
    }

    /// The decoded elements of the column of field `i`; a group key field has none.
    pub open spec fn column(self, d: Descriptor, i: int) -> Option<Seq<int>> {
        if is_key(d, i) {
            Some(Seq::empty())
        } else {
            decoded_column(wire_of_type(d.fields@[i].ty, d.rounds_floats()), self.columns@[i]@)
        }
    }

    /// Every column decodes.
    pub open spec fn columns_decode(self, d: Descriptor) -> bool {
        forall|i: int| 0 <= i < d.fields@.len() ==> (#[trigger] self.column(d, i)) is Some
    }

    /// The longest column length among the first `n` fields.
    pub open spec fn max_len(self, d: Descriptor, n: nat) -> nat
        decreases n,
    {
        if n == 0 {
            0
        } else {
            let prev = self.max_len(d, (n - 1) as nat);
            let here = self.column(d, n - 1)->0.len();
            if here > prev { here } else { prev }
        }
    }

    /// The number of records stored: the longest column length.
    pub open spec fn row_count(self, d: Descriptor) -> nat {
        self.max_len(d, d.fields@.len())
    }

    /// The value of field `i` of record `j`: the group key, the stored
    /// element, or the field's default where the column is shorter.
    pub open spec fn cell(self, d: Descriptor, i: int, j: int) -> Option<Value> {
        let ty = d.fields@[i].ty;
        let col = self.column(d, i)->0;
        if is_key(d, i) {
            Some(self.keys@[key_pos(d, i)])
        } else if j < col.len() {
            value_of_wire(ty, d.rounds_floats(), col[j])
        } else {
            Some(default_value(ty, d.rounds_floats()))
        }
    }

    /// Record `j`.
    pub open spec fn row(self, d: Descriptor, j: int) -> Seq<Value> {
        Seq::new(d.fields@.len(), |i: int| self.cell(d, i, j)->0)
    }

    /// Every value of record `j` decodes.
    pub open spec fn row_ok(self, d: Descriptor, j: int) -> bool {
        forall|i: int| 0 <= i < d.fields@.len() ==> (#[trigger] self.cell(d, i, j)) is Some
    }

    /// Every stored record, before any filter.
    pub open spec fn all_rows(self, d: Descriptor) -> Seq<Seq<Value>> {
        Seq::new(self.row_count(d), |j: int| self.row(d, j))
    }

    /// Whether the group decompresses without error.
    pub open spec fn decodes(self, d: Descriptor) -> bool {
        &&& self.columns_decode(d)
        &&& forall|j: int| 0 <= j < self.row_count(d) ==> #[trigger] self.row_ok(d, j)
    }

    /// The records that decompression returns, if it succeeds.
    pub open spec fn decompressed(self, d: Descriptor) -> Option<Seq<Seq<Value>>> {
        if self.decodes(d) {
            match self.filter {
                Some(f) => Some(self.all_rows(d).filter(|r: Seq<Value>| f.matches(r))),
                None => Some(self.all_rows(d)),
            }
        } else {
            None
        }
    }
}

/// The key fields found at position `k` of `group_by`.
proof fn lemma_key_pos(d: Descriptor, k: int)
    requires
        d.wf(),
        0 <= k < d.group_by@.len(),
    ensures
        is_key(d, d.group_by@[k] as int),
        key_pos(d, d.group_by@[k] as int) == k,
{
    let i = d.group_by@[k] as int;
    assert(d.group_by@[k] < d.fields@.len());
    assert(d.group_by@.contains(i as usize));
    let kk = key_pos(d, i);
    if kk != k {
        if kk < k {
            assert(d.group_by@[kk] != d.group_by@[k]);
        } else {
            assert(d.group_by@[k] != d.group_by@[kk]);
        }
    }
}

/// The position in `group_by` of field `i`, if it is a group key.
pub fn find_key(d: &Descriptor, i: usize) -> (r: Option<usize>)
    requires
        d.wf(),
    ensures
        r is Some <==> is_key(*d, i as int),
        r matches Some(k) ==> k == key_pos(*d, i as int) && k < d.group_by@.len(),
{
    let mut k: usize = 0;
    while k < d.group_by.len()
        invariant
            d.wf(),
            k <= d.group_by@.len(),
            forall|a: int| 0 <= a < k ==> d.group_by@[a] != i,
        decreases d.group_by@.len() - k,
    {
        if d.group_by[k] == i {
            proof { lemma_key_pos(*d, k as int); }
            return Some(k);
        }
        k += 1;
    }
    proof {
        if is_key(*d, i as int) {
            let a = choose|a: int| 0 <= a < d.group_by@.len() && d.group_by@[a] == i;
        }
    }
    None
}

impl Group {
    /// Whether the group fits the description.
    pub fn fits_check(&self, d: &Descriptor) -> (r: bool)
        requires
            d.wf(),
        ensures
            r == self.fits(*d),
    {
        if self.keys.len() != d.group_by.len() || self.columns.len() != d.fields.len() {
            return false;
        }
        let rounds = d.float_round.is_some();
        let mut k: usize = 0;
        while k < self.keys.len()
            invariant
                d.wf(),
                rounds == d.rounds_floats(),
                self.keys@.len() == d.group_by@.len(),
                k <= self.keys@.len(),
                forall|a: int| 0 <= a < k ==>
                    value_fits(d.fields@[d.group_by@[a] as int].ty, d.rounds_floats(), #[trigger] self.keys@[a]),
            decreases self.keys@.len() - k,
        {
            assert(d.group_by@[k as int] < d.fields@.len());
            if !crate::record::fits_field(d.fields[d.group_by[k]].ty, rounds, &self.keys[k]) {
                return false;
            }
            k += 1;
        }
        match &self.filter {
            Some(f) => f.fits_check(d),
            None => true,
        }
    }

    /// Decompresses the group into records, keeping only those that the
    /// attached filter allows.
    pub fn decompress(&self, d: &Descriptor) -> (r: Result<Vec<Vec<Value>>, CodecError>)
        requires
            d.wf(),
            self.fits(*d),
        ensures
            r is Ok <==> self.decompressed(*d) is Some,
            r matches Ok(rows) ==> rows@.map_values(|x: Vec<Value>| x@) == self.decompressed(*d)->0,
    {
        let n = d.fields.len();
        let rounds = d.float_round.is_some();
        // decode every column
        let mut cols: Vec<Column> = Vec::new();
        let mut len: usize = 0;
        let mut i: usize = 0;
        while i < n
            invariant
                d.wf(),
                self.fits(*d),
                n == d.fields@.len(),
                rounds == d.rounds_floats(),
                i <= n,
                cols@.len() == i,
                forall|a: int| 0 <= a < i ==> (#[trigger] self.column(*d, a)) is Some,
                forall|a: int| 0 <= a < i ==> #[trigger] cols@[a].values() == self.column(*d, a)->0,
                forall|a: int| 0 <= a < i ==> #[trigger] cols@[a].wire() == wire_of_type(d.fields@[a].ty, rounds),
                len == self.max_len(*d, i as nat),
            decreases n - i,
        {
            let w = wire_for(d.fields[i].ty, rounds);
            let col = if find_key(d, i).is_some() {
                Column::empty(w)
            } else {
                match decompress_column(w, &self.columns[i]) {
                    Ok(c) => c,
                    Err(e) => {
                        proof {
                            assert(self.column(*d, i as int) is None);
                            assert(!self.columns_decode(*d));
                        }
                        return Err(e);
                    },
                }
            };
            let cl = col.len();
            if cl > len {
                len = cl;
            }
            cols.push(col);
            i += 1;
        }
        assert(self.columns_decode(*d));
        // rebuild the records
        let mut out: Vec<Vec<Value>> = Vec::new();
        let ghost all = self.all_rows(*d);
        let mut j: usize = 0;
        while j < len
            invariant
                d.wf(),
                self.fits(*d),
                n == d.fields@.len(),
                rounds == d.rounds_floats(),
                cols@.len() == n,
                self.columns_decode(*d),
                forall|a: int| 0 <= a < n ==> #[trigger] cols@[a].values() == self.column(*d, a)->0,
                forall|a: int| 0 <= a < n ==> #[trigger] cols@[a].wire() == wire_of_type(d.fields@[a].ty, rounds),
                len == self.row_count(*d),
                all == self.all_rows(*d),
                j <= len,
                forall|b: int| 0 <= b < j ==> #[trigger] self.row_ok(*d, b),
                out@.map_values(|x: Vec<Value>| x@) == match self.filter {
                    Some(f) => all.take(j as int).filter(|r: Seq<Value>| f.matches(r)),
                    None => all.take(j as int),
                },
            decreases len - j,
        {
            let mut row: Vec<Value> = Vec::new();
            let mut i: usize = 0;
            while i < n
                invariant
                    d.wf(),
                    self.fits(*d),
                    n == d.fields@.len(),
                    rounds == d.rounds_floats(),
                    cols@.len() == n,
                    forall|a: int| 0 <= a < n ==> #[trigger] cols@[a].values() == self.column(*d, a)->0,
                    forall|a: int| 0 <= a < n ==> #[trigger] cols@[a].wire() == wire_of_type(d.fields@[a].ty, rounds),
                    i <= n,
                    j < len,
                    len == self.row_count(*d),
                    self.columns_decode(*d),
                    row@.len() == i,
                    forall|a: int| 0 <= a < i ==> (#[trigger] self.cell(*d, a, j as int)) is Some,
                    forall|a: int| 0 <= a < i ==> #[trigger] row@[a] == self.cell(*d, a, j as int)->0,
                    forall|a: int| 0 <= a < i ==> value_fits(d.fields@[a].ty, rounds, #[trigger] row@[a]),
                decreases n - i,
            {
                let ty = d.fields[i].ty;
                let v = match find_key(d, i) {
                    Some(k) => self.keys[k],
                    None => {
                        if j < cols[i].len() {
                            match cols[i].value_at(ty, rounds, j) {
                                Some(v) => v,
                                None => {
                                    proof {
                                        assert(self.cell(*d, i as int, j as int) is None);
                                        assert(!self.row_ok(*d, j as int));
                                        assert(j < self.row_count(*d));
                                    }
                                    return Err(CodecError::TimeOutOfRange);
                                },
                            }
                        } else {
                            default_for(ty, rounds)
                        }
                    },
                };
                proof {
                    if is_key(*d, i as int) {
                        let k = key_pos(*d, i as int);
                        assert(d.group_by@[k] == i);
                    } else if j < cols@[i as int].values().len() {
                        lemma_decoded_fits(ty, rounds, cols@[i as int].values()[j as int]);
                    }
                }
                row.push(v);
                i += 1;
            }
            proof {
                assert(self.row_ok(*d, j as int));
                assert(row@ == self.row(*d, j as int));
                assert(all[j as int] == row@);
                assert(all.take(j + 1) == all.take(j as int).push(row@));
            }
            let keep = match &self.filter {
                Some(f) => f.filter(d, &row),
                None => true,
            };
            let ghost before = out@;
            if keep {
                out.push(row);
            }
            proof {
                assert(before.map_values(|x: Vec<Value>| x@).len() == before.len());
                if self.filter is Some {
                    let f = self.filter->0;
                    all.take(j as int).lemma_filter_push(all[j as int], |r: Seq<Value>| f.matches(r));
                }
                assert(out@.map_values(|x: Vec<Value>| x@) =~= (if keep {
                    before.map_values(|x: Vec<Value>| x@).push(all[j as int])
                } else {
                    before.map_values(|x: Vec<Value>| x@)
                }));
            }
            j += 1;
        }
        proof {
            assert(all.take(len as int) == all);
        }
        Ok(out)
    }
}

/// A decoded element is a value of its field.
proof fn lemma_decoded_fits(ty: FieldType, rounds: bool, w: int)
    ensures
        value_of_wire(ty, rounds, w) matches Some(v) ==> value_fits(ty, rounds, v),
{
    if ty == FieldType::Timestamp {
        let m = crate::record::signed_of(w);
        if Timestamp::total_in_range(m * 1000) {
            crate::time::lemma_from_total(m * 1000);
        }
    }
}

/// The column elements of field `i` over a list of records.
pub open spec fn column_values(rows: Seq<Seq<Value>>, i: int) -> Seq<int> {
    rows.map_values(|r: Seq<Value>| wire_value(r[i]))
}

/// Whether all records share the group key values.
pub open spec fn same_key(d: Descriptor, rows: Seq<Seq<Value>>) -> bool {
    forall|j: int, k: int| 0 <= j < rows.len() && 0 <= k < d.group_by@.len() ==>
        #[trigger] rows[j][d.group_by@[k] as int] == #[trigger] rows[0][d.group_by@[k] as int]
}

/// Whether some field is not a group key, so that records have a column to be counted by.
pub open spec fn has_column(d: Descriptor) -> bool {
    exists|i: int| 0 <= i < d.fields@.len() && !is_key(d, i)
}

/// The time of record `j` in field `t`.
pub open spec fn time_at(rows: Seq<Seq<Value>>, j: int, t: int) -> Timestamp {
    match rows[j][t] {
        Value::Time(x) => x,
        _ => Timestamp { secs: 0, nanos: 0 },
    }
}

/// Whether `s` is the earliest (or, with `latest`, the latest) time of field `t`.
pub open spec fn is_extreme_time(rows: Seq<Seq<Value>>, t: int, s: Timestamp, latest: bool) -> bool {
    &&& exists|j: int| 0 <= j < rows.len() && time_at(rows, j, t) == s
    &&& forall|j: int| 0 <= j < rows.len() ==> if latest {
        (#[trigger] time_at(rows, j, t)).total() <= s.total()
    } else {
        s.total() <= (#[trigger] time_at(rows, j, t)).total()
    }
}

impl Group {
    /// Whether the group is what compressing `rows` writes.
    pub open spec fn compressed_from(self, d: Descriptor, rows: Seq<Seq<Value>>) -> bool {
        &&& self.filter is None
        &&& self.keys@.len() == d.group_by@.len()
        &&& forall|k: int| 0 <= k < d.group_by@.len() ==> #[trigger] self.keys@[k] == rows[0][d.group_by@[k] as int]
        &&& self.columns@.len() == d.fields@.len()
        &&& forall|i: int| 0 <= i < d.fields@.len() && is_key(d, i) ==> (#[trigger] self.columns@[i])@.len() == 0
        &&& forall|i: int| 0 <= i < d.fields@.len() && !is_key(d, i) ==> {
            let w = wire_of_type(d.fields@[i].ty, d.rounds_floats());
            &&& (#[trigger] self.columns@[i])@.len() > 0
            &&& pco_decoded(w, self.columns@[i]@) == Some(column_values(rows, i))
        }
        &&& match d.timestamp {
            Some(t) => {
                &&& self.start_at is Some
                &&& is_extreme_time(rows, t as int, self.start_at->0, false)
                &&& self.end_at is Some
                &&& is_extreme_time(rows, t as int, self.end_at->0, true)
            },
            None => self.start_at is None && self.end_at is None,
        }
    }
}

/// Compresses a non-empty list of records that share their group key into one group.
pub fn compress_rows(d: &Descriptor, rows: &Vec<Vec<Value>>) -> (r: Result<Group, CodecError>)
    requires
        d.wf(),
        rows@.len() > 0,
        crate::record::records_fit(*d, rows@.map_values(|x: Vec<Value>| x@)),
        same_key(*d, rows@.map_values(|x: Vec<Value>| x@)),
    ensures
        r is Ok,
        r matches Ok(g) ==> g.compressed_from(*d, rows@.map_values(|x: Vec<Value>| x@)) && g.fits(*d),
        r matches Err(e) ==> e == CodecError::Encode,
{
    let ghost rs = rows@.map_values(|x: Vec<Value>| x@);
    let n = d.fields.len();
    let rounds = d.float_round.is_some();
    let mut keys: Vec<Value> = Vec::new();
    let mut k: usize = 0;
    while k < d.group_by.len()
        invariant
            d.wf(),
            rows@.len() > 0,
            rs == rows@.map_values(|x: Vec<Value>| x@),
            crate::record::records_fit(*d, rs),
            k <= d.group_by@.len(),
            keys@.len() == k,
            forall|a: int| 0 <= a < k ==> #[trigger] keys@[a] == rs[0][d.group_by@[a] as int],
        decreases d.group_by@.len() - k,
    {
        let g = d.group_by[k];
        assert(d.group_by@[k as int] < d.fields@.len());
        assert(crate::record::record_fits(*d, rs[0]));
        keys.push(rows[0][g]);
        k += 1;
    }
    let mut columns: Vec<Vec<u8>> = Vec::new();
    let mut i: usize = 0;
    while i < n
        invariant
            d.wf(),
            n == d.fields@.len(),
            rounds == d.rounds_floats(),
            rows@.len() > 0,
            rs == rows@.map_values(|x: Vec<Value>| x@),
            crate::record::records_fit(*d, rs),
            i <= n,
            columns@.len() == i,
            forall|a: int| 0 <= a < i && is_key(*d, a) ==> (#[trigger] columns@[a])@.len() == 0,
            forall|a: int| 0 <= a < i && !is_key(*d, a) ==> {
                let w = wire_of_type(d.fields@[a].ty, d.rounds_floats());
                &&& (#[trigger] columns@[a])@.len() > 0
                &&& pco_decoded(w, columns@[a]@) == Some(column_values(rs, a))
            },
        decreases n - i,
    {
        if find_key(d, i).is_some() {
            columns.push(Vec::new());
        } else {
            let ty = d.fields[i].ty;
            let w = wire_for(ty, rounds);
            let mut col = Column::empty(w);
            let mut j: usize = 0;
            while j < rows.len()
                invariant
                    d.wf(),
                    n == d.fields@.len(),
                    i < n,
                    ty == d.fields@[i as int].ty,
                    rounds == d.rounds_floats(),
                    rs == rows@.map_values(|x: Vec<Value>| x@),
                    crate::record::records_fit(*d, rs),
                    j <= rows@.len(),
                    col.wire() == wire_of_type(ty, rounds),
                    col.values() == column_values(rs.take(j as int), i as int),
                decreases rows@.len() - j,
            {
                assert(crate::record::record_fits(*d, rs[j as int]));
                let v = rows[j][i];
                col.push_value(ty, rounds, v);
                proof {
                    assert(rs.take(j + 1) == rs.take(j as int).push(rs[j as int]));
                    assert(column_values(rs.take(j + 1), i as int) =~= column_values(rs.take(j as int), i as int).push(wire_value(v)));
                }
                j += 1;
            }
            assert(rs.take(rows@.len() as int) == rs);
            let b = compress_column(&col)?;
            columns.push(b);
        }
        i += 1;
    }
    let mut start_at: Option<Timestamp> = None;
    let mut end_at: Option<Timestamp> = None;
    if let Some(t) = d.timestamp {
        let (s, e) = time_bounds(d, rows, t);
        start_at = Some(s);
        end_at = Some(e);
    }
    proof {
        assert forall|a: int| 0 <= a < keys@.len() implies
            value_fits(d.fields@[d.group_by@[a] as int].ty, d.rounds_floats(), #[trigger] keys@[a]) by {
            assert(crate::record::record_fits(*d, rs[0]));
            assert(d.group_by@[a] < d.fields@.len());
        }
    }
    Ok(Group { filter: None, keys, start_at, end_at, columns })
}

/// The earliest and the latest time of field `t`.
fn time_bounds(d: &Descriptor, rows: &Vec<Vec<Value>>, t: usize) -> (r: (Timestamp, Timestamp))
    requires
        d.wf(),
        d.timestamp == Some(t),
        rows@.len() > 0,
        crate::record::records_fit(*d, rows@.map_values(|x: Vec<Value>| x@)),
    ensures
        is_extreme_time(rows@.map_values(|x: Vec<Value>| x@), t as int, r.0, false),
        is_extreme_time(rows@.map_values(|x: Vec<Value>| x@), t as int, r.1, true),
{
    let ghost rs = rows@.map_values(|x: Vec<Value>| x@);
    assert(crate::record::record_fits(*d, rs[0]));
    let first = match rows[0][t] {
        Value::Time(x) => x,
        _ => Timestamp::epoch(),
    };
    assert(rs[0] == rows@[0]@);
    assert(first == time_at(rs, 0, t as int));
    let mut lo = first;
    let mut hi = first;
    let mut j: usize = 1;
    while j < rows.len()
        invariant
            d.wf(),
            d.timestamp == Some(t),
            rs == rows@.map_values(|x: Vec<Value>| x@),
            crate::record::records_fit(*d, rs),
            1 <= j <= rows@.len(),
            lo.wf(),
            hi.wf(),
            exists|a: int| 0 <= a < j && time_at(rs, a, t as int) == lo,
            exists|a: int| 0 <= a < j && time_at(rs, a, t as int) == hi,
            forall|a: int| 0 <= a < j ==> lo.total() <= (#[trigger] time_at(rs, a, t as int)).total(),
            forall|a: int| 0 <= a < j ==> (#[trigger] time_at(rs, a, t as int)).total() <= hi.total(),
        decreases rows@.len() - j,
    {
        assert(crate::record::record_fits(*d, rs[j as int]));
        let x = match rows[j][t] {
            Value::Time(x) => x,
            _ => Timestamp::epoch(),
        };
        assert(rs[j as int] == rows@[j as int]@);
        assert(x == time_at(rs, j as int, t as int));
        if !lo.le(&x) {
            lo = x;
        }
        if !x.le(&hi) {
            hi = x;
        }
        j += 1;
    }
    (lo, hi)
}

/// The columns of a group written for `rows` decode to the rows' column elements.
proof fn lemma_written_columns(d: Descriptor, rows: Seq<Seq<Value>>, g: Group, i: int)
    requires
        d.wf(),
        g.compressed_from(d, rows),
        0 <= i < d.fields@.len(),
    ensures
        g.column(d, i) == if is_key(d, i) { Some(Seq::<int>::empty()) } else { Some(column_values(rows, i)) },
        g.column(d, i)->0.len() == if is_key(d, i) { 0 } else { rows.len() as int },
{
    if !is_key(d, i) {
        assert(g.columns@[i]@.len() > 0);
    }
}

/// The longest column of a group written for `rows` is as long as `rows`,
/// unless no field has a column.
proof fn lemma_written_max_len(d: Descriptor, rows: Seq<Seq<Value>>, g: Group, m: nat)
    requires
        d.wf(),
        g.compressed_from(d, rows),
        m <= d.fields@.len(),
    ensures
        g.max_len(d, m) == if exists|i: int| 0 <= i < m && !is_key(d, i) { rows.len() } else { 0 },
    decreases m,
{
    if m > 0 {
        lemma_written_max_len(d, rows, g, (m - 1) as nat);
        lemma_written_columns(d, rows, g, m - 1);
        if exists|i: int| 0 <= i < m && !is_key(d, i) {
            let i = choose|i: int| 0 <= i < m && !is_key(d, i);
            if i < m - 1 {
                assert(exists|i: int| 0 <= i < m - 1 && !is_key(d, i));
            }
        } else {
            assert(!(exists|i: int| 0 <= i < m - 1 && !is_key(d, i)));
        }
    }
}

/// Decompressing the group written for a list of records that share their
/// group key gives back those records, with times truncated to microseconds.
pub proof fn lemma_group_round_trip(d: Descriptor, rows: Seq<Seq<Value>>, g: Group)
    requires
        d.wf(),
        rows.len() > 0,
        crate::record::records_fit(d, rows),
        same_key(d, rows),
        has_column(d),
        g.compressed_from(d, rows),
    ensures
        g.decompressed(d) == Some(rows.map_values(|r: Seq<Value>| stored_record(r))),
{
    let n = d.fields@.len();
    lemma_written_max_len(d, rows, g, n);
    assert(g.row_count(d) == rows.len());
    assert forall|i: int| 0 <= i < n implies (#[trigger] g.column(d, i)) is Some by {
        lemma_written_columns(d, rows, g, i);
    }
    assert forall|j: int| 0 <= j < rows.len() implies #[trigger] g.row(d, j) == stored_record(rows[j]) && g.row_ok(d, j) by {
        assert(crate::record::record_fits(d, rows[j]));
        assert forall|i: int| 0 <= i < n implies (#[trigger] g.cell(d, i, j)) == Some(stored_form(rows[j][i])) by {
            lemma_written_columns(d, rows, g, i);
            if is_key(d, i) {
                let k = key_pos(d, i);
                assert(0 <= k < d.group_by@.len() && d.group_by@[k] == i as usize);
                assert(rows[j][d.group_by@[k] as int] == rows[0][d.group_by@[k] as int]);
                assert(g.keys@[k] == rows[0][d.group_by@[k] as int]);
                assert(d.group_by@[k] < d.fields@.len());
                assert(crate::schema::is_key_type(d.fields@[d.group_by@[k] as int].ty));
                assert(value_fits(d.fields@[i].ty, d.rounds_floats(), rows[j][i]));
                assert(stored_form(rows[j][i]) == rows[j][i]);
                assert(g.cell(d, i, j) == Some(g.keys@[k]));
            } else {
                assert(column_values(rows, i)[j] == wire_value(rows[j][i]));
                lemma_value_round_trip(d.fields@[i].ty, d.rounds_floats(), rows[j][i]);
            }
        }
        assert(g.row(d, j) =~= stored_record(rows[j]));
    }
    assert(g.all_rows(d) =~= rows.map_values(|r: Seq<Value>| stored_record(r)));
}

/// Decompression with a filter attached returns exactly the records that
/// decompression without one returns and that the filter allows.
pub proof fn lemma_filtered_decompress(d: Descriptor, g: Group, f: Filter)
    ensures
        (Group { filter: Some(f), ..g }).decompressed(d) == match (Group { filter: None, ..g }).decompressed(d) {
            Some(all) => Some(all.filter(|r: Seq<Value>| f.matches(r))),
            None => None,
        },
{
    let gf = Group { filter: Some(f), ..g };
    let gn = Group { filter: None, ..g };
    assert forall|i: int| gf.column(d, i) == gn.column(d, i) by {}
    assert forall|m: nat| gf.max_len(d, m) == gn.max_len(d, m) by {
        lemma_same_columns_max_len(d, gf, gn, m);
    }
    assert forall|i: int, j: int| gf.cell(d, i, j) == gn.cell(d, i, j) by {}
    assert forall|j: int| gf.row(d, j) == gn.row(d, j) && gf.row_ok(d, j) == gn.row_ok(d, j) by {
        assert(gf.row(d, j) =~= gn.row(d, j));
    }
    assert(gf.columns_decode(d) == gn.columns_decode(d));
    assert(gf.decodes(d) == gn.decodes(d));
    assert(gf.all_rows(d) =~= gn.all_rows(d));
}

/// Groups with the same columns have the same column lengths.
proof fn lemma_same_columns_max_len(d: Descriptor, a: Group, b: Group, m: nat)
    requires
        forall|i: int| a.column(d, i) == b.column(d, i),
    ensures
        a.max_len(d, m) == b.max_len(d, m),
    decreases m,
{
    if m > 0 {
        lemma_same_columns_max_len(d, a, b, (m - 1) as nat);
        assert(a.column(d, m - 1) == b.column(d, m - 1));
    }
}

/// Without a filter attached, as after a delete, decompression returns every
/// stored record.
pub proof fn lemma_unfiltered_decompress(d: Descriptor, g: Group)
    requires
        g.filter is None,
        g.decodes(d),
    ensures
        g.decompressed(d) == Some(g.all_rows(d)),
{
}

/// A field whose column holds no bytes, such as one added to the table after
/// the group was written, reads back as its default value in every record.
pub proof fn lemma_missing_column_default(d: Descriptor, g: Group, i: int, j: int)
    requires
        0 <= i < d.fields@.len(),
        0 <= j,
        !is_key(d, i),
        g.columns@[i]@.len() == 0,
    ensures
        g.cell(d, i, j) == Some(default_value(d.fields@[i].ty, d.rounds_floats())),
{
}

/// A value of one column of a copy row.
#[derive(Clone, Debug)]
pub enum CopyValue {
    /// A group key scalar.
    Key(Value),
    /// `start_at` or `end_at`.
    Time(Timestamp),
    /// A compressed column.
    Bytes(Vec<u8>),
}

/// The view of a copy value.
pub open spec fn copy_view(c: CopyValue) -> (Option<Value>, Option<Timestamp>, Seq<u8>) {
    match c {
        CopyValue::Key(v) => (Some(v), None, Seq::empty()),
        CopyValue::Time(t) => (None, Some(t), Seq::empty()),
        CopyValue::Bytes(b) => (None, None, b@),
    }
}

/// The group key values of the first `m` fields, in declared order.
pub open spec fn key_cells(d: Descriptor, g: Group, m: int) -> Seq<(Option<Value>, Option<Timestamp>, Seq<u8>)>
    decreases m,
{
    if m <= 0 {
        Seq::empty()
    } else {
        let prev = key_cells(d, g, m - 1);
        if is_key(d, m - 1) { prev.push((Some(g.keys@[key_pos(d, m - 1)]), None, Seq::empty())) } else { prev }
    }
}

/// The payload columns of the first `m` fields, in declared order.
pub open spec fn payload_cells(d: Descriptor, g: Group, m: int) -> Seq<(Option<Value>, Option<Timestamp>, Seq<u8>)>
    decreases m,
{
    if m <= 0 {
        Seq::empty()
    } else {
        let prev = payload_cells(d, g, m - 1);
        if !is_key(d, m - 1) && d.timestamp != Some((m - 1) as usize) {
            prev.push((None, None, g.columns@[m - 1]@))
        } else {
            prev
        }
    }
}

/// The copy row of a group, in the order of the store columns: the group
/// keys, then `start_at`, `end_at` and the timestamp column, then the payload columns.
pub open spec fn copy_row_of(d: Descriptor, g: Group) -> Seq<(Option<Value>, Option<Timestamp>, Seq<u8>)> {
    let n = d.fields@.len() as int;
    let ts = match d.timestamp {
        Some(t) => seq![(None, g.start_at, Seq::empty()), (None, g.end_at, Seq::empty()), (None, None, g.columns@[t as int]@)],
        None => Seq::empty(),
    };
    key_cells(d, g, n) + ts + payload_cells(d, g, n)
}

impl Group {
    /// The values of the group's copy row, in the order of the store columns.
    pub fn copy_row(&self, d: &Descriptor) -> (r: Vec<CopyValue>)
        requires
            d.wf(),
            self.fits(*d),
            d.timestamp is Some ==> self.start_at is Some && self.end_at is Some,
        ensures
            r@.map_values(|c: CopyValue| copy_view(c)) == copy_row_of(*d, *self),
    {
        let n = d.fields.len();
        let mut keys: Vec<CopyValue> = Vec::new();
        let mut payload: Vec<CopyValue> = Vec::new();
        let mut i: usize = 0;
        while i < n
            invariant
                d.wf(),
                self.fits(*d),
                n == d.fields@.len(),
                i <= n,
                keys@.map_values(|c: CopyValue| copy_view(c)) == key_cells(*d, *self, i as int),
                payload@.map_values(|c: CopyValue| copy_view(c)) == payload_cells(*d, *self, i as int),
            decreases n - i,
        {
            match find_key(d, i) {
                Some(k) => {
                    let ghost before = keys@;
                    keys.push(CopyValue::Key(self.keys[k]));
                    proof {
                        assert(keys@.map_values(|c: CopyValue| copy_view(c))
                            =~= before.map_values(|c: CopyValue| copy_view(c)).push((Some(self.keys@[k as int]), None, Seq::empty())));
                    }
                },
                None => {
                    if d.timestamp != Some(i) {
                        let b = copy_bytes(&self.columns[i]);
                        let ghost before = payload@;
                        payload.push(CopyValue::Bytes(b));
                        proof {
                            assert(payload@.map_values(|c: CopyValue| copy_view(c))
                                =~= before.map_values(|c: CopyValue| copy_view(c)).push((None, None, self.columns@[i as int]@)));
                        }
                    }
                },
            }
            i += 1;
        }
        let mut row = keys;
        let ghost k_part = row@;
        if let Some(t) = d.timestamp {
            row.push(CopyValue::Time(self.start_at.unwrap()));
            row.push(CopyValue::Time(self.end_at.unwrap()));
            row.push(CopyValue::Bytes(copy_bytes(&self.columns[t])));
        }
        let ghost wv = row@.map_values(|c: CopyValue| copy_view(c));
        let ghost pv = payload@.map_values(|c: CopyValue| copy_view(c));
        proof {
            if let Some(t) = d.timestamp {
                assert(wv =~= key_cells(*d, *self, n as int) + seq![(None, self.start_at, Seq::empty()),
                    (None, self.end_at, Seq::empty()), (None, None, self.columns@[t as int]@)]);
            } else {
                assert(wv =~= key_cells(*d, *self, n as int));
            }
        }
        let mut j: usize = 0;
        while j < payload.len()
            invariant
                pv == payload@.map_values(|c: CopyValue| copy_view(c)),
                row@.map_values(|c: CopyValue| copy_view(c)) == wv + pv.take(j as int),
                j <= payload@.len(),
            decreases payload@.len() - j,
        {
            let c = match &payload[j] {
                CopyValue::Key(v) => CopyValue::Key(*v),
                CopyValue::Time(t) => CopyValue::Time(*t),
                CopyValue::Bytes(b) => CopyValue::Bytes(copy_bytes(b)),
            };
            assert(copy_view(c) == pv[j as int]);
            let ghost before = row@;
            row.push(c);
            proof {
                assert(row@.map_values(|c: CopyValue| copy_view(c)) =~= before.map_values(|c: CopyValue| copy_view(c)).push(copy_view(c)));
                assert(pv.take(j + 1) == pv.take(j as int).push(pv[j as int]));
            }
            j += 1;
        }
        proof {
            assert(pv.take(pv.len() as int) == pv);
            assert(row@.map_values(|c: CopyValue| copy_view(c)) =~= copy_row_of(*d, *self));
        }
        row
    }
}

/// A copy of a byte string.
fn copy_bytes(b: &Vec<u8>) -> (c: Vec<u8>)
    ensures
        c@ == b@,
{
    let mut c: Vec<u8> = Vec::new();
    let mut i: usize = 0;
    while i < b.len()
        invariant
            i <= b@.len(),
            c@ == b@.take(i as int),
        decreases b@.len() - i,
    {
        c.push(b[i]);
        assert(b@.take(i + 1) == b@.take(i as int).push(b@[i as int]));
        i += 1;
    }
    assert(b@.take(b@.len() as int) == b@);
    c
}

} // verus!
