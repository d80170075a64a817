//! The fixed SQL of a description: load, delete and the binary copy of a store.

use crate::group::is_key;
use crate::schema::{Descriptor, Role, SqlType};
use vstd::prelude::*;

verus! {

/// The decimal digit for `d < 10`.
pub open spec fn digit(d: nat) -> char {
    if d == 0 { '0' } else if d == 1 { '1' } else if d == 2 { '2' } else if d == 3 { '3' } else if d == 4 { '4' }
    else if d == 5 { '5' } else if d == 6 { '6' } else if d == 7 { '7' } else if d == 8 { '8' } else { '9' }
}

/// The decimal form of `n`.
pub open spec fn decimal(n: nat) -> Seq<char>
    decreases n,
{
    if n < 10 { seq![digit(n)] } else { decimal(n / 10) + seq![digit(n % 10)] }
}

/// The parts joined with `sep` between each two.
pub open spec fn join(parts: Seq<Seq<char>>, sep: Seq<char>) -> Seq<char>
    decreases parts.len(),
{
    if parts.len() == 0 {
        Seq::empty()
    } else if parts.len() == 1 {
        parts[0]
    } else {
        join(parts.drop_last(), sep) + sep + parts.last()
    }
}

/// The names of the group key fields among the first `m`, in declared order.
pub open spec fn key_names(d: Descriptor, m: int) -> Seq<Seq<char>>
    decreases m,
{
    if m <= 0 {
        Seq::empty()
    } else {
        let prev = key_names(d, m - 1);
        if is_key(d, m - 1) { prev.push(d.fields@[m - 1].name@) } else { prev }
    }
}

/// The names of the payload fields among the first `m`, in declared order.
pub open spec fn payload_names(d: Descriptor, m: int) -> Seq<Seq<char>>
    decreases m,
{
    if m <= 0 {
        Seq::empty()
    } else {
        let prev = payload_names(d, m - 1);
        if !is_key(d, m - 1) && d.timestamp != Some((m - 1) as usize) { prev.push(d.fields@[m - 1].name@) } else { prev }
    }
}

/// The conditions on the group keys among the first `m` fields: `k = ANY($n)`,
/// numbered from 1 in declared order.
pub open spec fn key_conditions(d: Descriptor, m: int) -> Seq<Seq<char>>
    decreases m,
{
    if m <= 0 {
        Seq::empty()
    } else {
        let prev = key_conditions(d, m - 1);
        if is_key(d, m - 1) {
            prev.push(d.fields@[m - 1].name@ + " = ANY($"@ + decimal((prev.len() + 1) as nat) + ")"@)
        } else {
            prev
        }
    }
}

/// Every condition of the `WHERE` clause: the group keys, then the time range
/// bounds that follow them in numbering.
pub open spec fn where_conditions(d: Descriptor) -> Seq<Seq<char>> {
    let keys = key_conditions(d, d.fields@.len() as int);
    match d.timestamp {
        Some(_) => keys
            .push("end_at >= $"@ + decimal((keys.len() + 1) as nat))
            .push("start_at <= $"@ + decimal((keys.len() + 2) as nat)),
        None => keys,
    }
}

/// The `WHERE` clause: the conditions joined with `AND`, or `true` when there are none.
pub open spec fn where_clause(d: Descriptor) -> Seq<char> {
    if where_conditions(d).len() == 0 { "true"@ } else { join(where_conditions(d), " AND "@) }
}

/// The columns written by a store, in order: the group keys, then
/// `start_at`, `end_at` and the timestamp column, then the payload columns.
pub open spec fn store_columns(d: Descriptor) -> Seq<Seq<char>> {
    let n = d.fields@.len() as int;
    let ts = match d.timestamp {
        Some(t) => seq!["start_at"@, "end_at"@, d.fields@[t as int].name@],
        None => Seq::empty(),
    };
    key_names(d, n) + ts + payload_names(d, n)
}

/// The column types of the group keys among the first `m` fields, in declared order.
pub open spec fn key_types(d: Descriptor, m: int) -> Seq<SqlType>
    decreases m,
{
    if m <= 0 {
        Seq::empty()
    } else {
        let prev = key_types(d, m - 1);
        if is_key(d, m - 1) { prev.push(crate::schema::scalar_sql_type(d.fields@[m - 1].ty)) } else { prev }
    }
}

/// The column types written by a store, in the order of `store_columns`.
pub open spec fn store_types(d: Descriptor) -> Seq<SqlType> {
    let n = d.fields@.len() as int;
    let ts = match d.timestamp {
        Some(t) => seq![SqlType::TimestampTz, SqlType::TimestampTz, SqlType::Bytea],
        None => Seq::empty(),
    };
    key_types(d, n) + ts + Seq::new(payload_names(d, n).len(), |k: int| SqlType::Bytea)
}

/// The query that loads groups.
pub open spec fn load_sql_of(d: Descriptor) -> Seq<char> {
    "SELECT * FROM "@ + d.table_name@ + " WHERE "@ + where_clause(d)
}

/// The query that deletes groups and returns them.
pub open spec fn delete_sql_of(d: Descriptor) -> Seq<char> {
    "DELETE FROM "@ + d.table_name@ + " WHERE "@ + where_clause(d) + " RETURNING *"@
}

/// The statement that starts a binary copy into the table.
pub open spec fn store_sql_of(d: Descriptor) -> Seq<char> {
    "COPY "@ + d.table_name@ + " ("@ + join(store_columns(d), ", "@) + ") FROM STDIN BINARY"@
}

/// The decimal form of `n`.
pub fn decimal_string(n: u128) -> (r: String)
    ensures
        r@ == decimal(n as nat),
    decreases n,
{
    let d = n % 10;
    let s = if d == 0 { "0" } else if d == 1 { "1" } else if d == 2 { "2" } else if d == 3 { "3" } else if d == 4 { "4" }
        else if d == 5 { "5" } else if d == 6 { "6" } else if d == 7 { "7" } else if d == 8 { "8" } else { "9" };
    proof {
        reveal_strlit("0"); reveal_strlit("1"); reveal_strlit("2"); reveal_strlit("3"); reveal_strlit("4");
        reveal_strlit("5"); reveal_strlit("6"); reveal_strlit("7"); reveal_strlit("8"); reveal_strlit("9");
        assert(s@ =~= seq![digit(d as nat)]);
    }
    if n < 10 {
        String::from_str(s)
    } else {
        let mut prefix = decimal_string(n / 10);
        prefix.append(s);
        prefix
    }
}

/// The parts joined with `sep` between each two.
pub fn join_strings(parts: &Vec<String>, sep: &str) -> (r: String)
    ensures
        r@ == join(parts@.map_values(|s: String| s@), sep@),
{
    let ghost ps = parts@.map_values(|s: String| s@);
    let mut out = String::new();
    let mut i: usize = 0;
    while i < parts.len()
        invariant
            ps == parts@.map_values(|s: String| s@),
            i <= parts@.len(),
            out@ == join(ps.take(i as int), sep@),
        decreases parts@.len() - i,
    {
        proof {
            assert(ps.take(i + 1).drop_last() == ps.take(i as int));
            assert(ps.take(i + 1).last() == parts@[i as int]@);
            if i == 0 {
                assert(ps.take(1) =~= seq![parts@[0]@]);
                assert(ps.take(0) =~= Seq::<Seq<char>>::empty());
            }
        }
        if i > 0 {
            out.append(sep);
        }
        out.append(parts[i].as_str());
        i += 1;
    }
    assert(ps.take(parts@.len() as int) == ps);
    out
}

/// The column type of a scalar field.
pub fn scalar_type(ty: crate::schema::FieldType) -> (r: SqlType)
    ensures
        r == crate::schema::scalar_sql_type(ty),
{
    match ty {
        crate::schema::FieldType::Int32 => SqlType::Int4,
        crate::schema::FieldType::Int64 => SqlType::Int8,
        crate::schema::FieldType::Float32 => SqlType::Float4,
        crate::schema::FieldType::Float64 => SqlType::Float8,
        crate::schema::FieldType::Bool => SqlType::Bytea,
        crate::schema::FieldType::Timestamp => SqlType::TimestampTz,
    }
}

impl Descriptor {
    /// The role of field `i`.
    pub fn role_of(&self, i: usize) -> (r: Role)
        requires
            self.wf(),
        ensures
            r == self.role(i as int),
    {
        if crate::group::find_key(self, i).is_some() {
            Role::GroupKey
        } else if self.timestamp == Some(i) {
            Role::Timestamp
        } else {
            Role::Payload
        }
    }

    /// The column type of field `i`: a scalar for a group key, bytes otherwise.
    pub fn column_type(&self, i: usize) -> (r: SqlType)
        requires
            self.wf(),
            i < self.fields@.len(),
        ensures
            r == self.sql_type_of(i as int),
    {
        if crate::group::find_key(self, i).is_some() {
            scalar_type(self.fields[i].ty)
        } else {
            SqlType::Bytea
        }
    }

    /// The conditions of the `WHERE` clause of load and delete.
    pub fn where_conditions(&self) -> (r: Vec<String>)
        requires
            self.wf(),
        ensures
            r@.map_values(|s: String| s@) == where_conditions(*self),
    {
        let n = self.fields.len();
        let mut conds: Vec<String> = Vec::new();
        let mut i: usize = 0;
        while i < n
            invariant
                self.wf(),
                n == self.fields@.len(),
                i <= n,
                conds@.map_values(|s: String| s@) == key_conditions(*self, i as int),
                conds@.len() <= i,
            decreases n - i,
        {
            if crate::group::find_key(self, i).is_some() {
                let mut c = self.fields[i].name.clone();
                c.append(" = ANY($");
                let num = decimal_string(conds.len() as u128 + 1);
                c.append(num.as_str());
                c.append(")");
                let ghost before = conds@;
                conds.push(c);
                proof {
                    assert(conds@.map_values(|s: String| s@) =~= before.map_values(|s: String| s@).push(c@));
                }
            }
            i += 1;
        }
        if self.timestamp.is_some() {
            let k = conds.len();
            let mut lo = String::from_str("end_at >= $");
            let a = decimal_string(k as u128 + 1);
            lo.append(a.as_str());
            let mut hi = String::from_str("start_at <= $");
            let b = decimal_string(k as u128 + 2);
            hi.append(b.as_str());
            let ghost before = conds@;
            conds.push(lo);
            conds.push(hi);
            proof {
                assert(conds@.map_values(|s: String| s@) =~= before.map_values(|s: String| s@).push(lo@).push(hi@));
            }
        }
        conds
    }

    /// The `WHERE` clause of load and delete.
    pub fn where_clause(&self) -> (r: String)
        requires
            self.wf(),
        ensures
            r@ == where_clause(*self),
    {
        let conds = self.where_conditions();
        if conds.len() == 0 {
            String::from_str("true")
        } else {
            join_strings(&conds, " AND ")
        }
    }

    /// The query that loads groups: `SELECT * FROM <table> WHERE <where>`.
    pub fn load_sql(&self) -> (r: String)
        requires
            self.wf(),
        ensures
            r@ == load_sql_of(*self),
    {
        let mut s = String::from_str("SELECT * FROM ");
        s.append(self.table_name.as_str());
        s.append(" WHERE ");
        let w = self.where_clause();
        s.append(w.as_str());
        s
    }

    /// The query that deletes groups and returns them:
    /// `DELETE FROM <table> WHERE <where> RETURNING *`.
    pub fn delete_sql(&self) -> (r: String)
        requires
            self.wf(),
        ensures
            r@ == delete_sql_of(*self),
    {
        let mut s = String::from_str("DELETE FROM ");
        s.append(self.table_name.as_str());
        s.append(" WHERE ");
        let w = self.where_clause();
        s.append(w.as_str());
        s.append(" RETURNING *");
        s
    }

    /// The columns written by a store, in order.
    pub fn store_columns(&self) -> (r: Vec<String>)
        requires
            self.wf(),
        ensures
            r@.map_values(|s: String| s@) == store_columns(*self),
    {
        let n = self.fields.len();
        let mut keys: Vec<String> = Vec::new();
        let mut payload: Vec<String> = Vec::new();
        let mut i: usize = 0;
        while i < n
            invariant
                self.wf(),
                n == self.fields@.len(),
                i <= n,
                keys@.map_values(|s: String| s@) == key_names(*self, i as int),
                payload@.map_values(|s: String| s@) == payload_names(*self, i as int),
            decreases n - i,
        {
            let name = self.fields[i].name.clone();
            if crate::group::find_key(self, i).is_some() {
                let ghost before = keys@;
                keys.push(name);
                proof { assert(keys@.map_values(|s: String| s@) =~= before.map_values(|s: String| s@).push(name@)); }
            } else if self.timestamp != Some(i) {
                let ghost before = payload@;
                payload.push(name);
                proof { assert(payload@.map_values(|s: String| s@) =~= before.map_values(|s: String| s@).push(name@)); }
            }
            i += 1;
        }
        let mut cols = keys;
        let ghost k = cols@;
        if let Some(t) = self.timestamp {
            cols.push(String::from_str("start_at"));
            cols.push(String::from_str("end_at"));
            cols.push(self.fields[t].name.clone());
        }
        let ghost with_ts = cols@;
        let mut j: usize = 0;
        while j < payload.len()
            invariant
                cols@ == with_ts + payload@.take(j as int),
                j <= payload@.len(),
            decreases payload@.len() - j,
        {
            cols.push(payload[j].clone());
            assert(payload@.take(j + 1) == payload@.take(j as int).push(payload@[j as int]));
            j += 1;
        }
        proof {
            assert(payload@.take(payload@.len() as int) == payload@);
            assert(cols@.map_values(|s: String| s@) =~= store_columns(*self));
        }
        cols
    }

    /// The column types written by a store, in the order of `store_columns`.
    pub fn store_types(&self) -> (r: Vec<SqlType>)
        requires
            self.wf(),
        ensures
            r@ == store_types(*self),
    {
        let n = self.fields.len();
        let mut keys: Vec<SqlType> = Vec::new();
        let mut payload: usize = 0;
        let mut i: usize = 0;
        while i < n
            invariant
                self.wf(),
                n == self.fields@.len(),
                i <= n,
                keys@ == key_types(*self, i as int),
                payload == payload_names(*self, i as int).len(),
                payload <= i,
            decreases n - i,
        {
            if crate::group::find_key(self, i).is_some() {
                keys.push(scalar_type(self.fields[i].ty));
            } else if self.timestamp != Some(i) {
                payload += 1;
            }
            i += 1;
        }
        let mut types = keys;
        if self.timestamp.is_some() {
            types.push(SqlType::TimestampTz);
            types.push(SqlType::TimestampTz);
            types.push(SqlType::Bytea);
        }
        let ghost with_ts = types@;
        let mut j: usize = 0;
        while j < payload
            invariant
                types@ == with_ts + Seq::new(j as nat, |k: int| SqlType::Bytea),
                j <= payload,
            decreases payload - j,
        {
            types.push(SqlType::Bytea);
            assert(Seq::new((j + 1) as nat, |k: int| SqlType::Bytea) =~= Seq::new(j as nat, |k: int| SqlType::Bytea).push(SqlType::Bytea));
            j += 1;
        }
        assert(types@ =~= store_types(*self));
        types
    }

    /// The statement that starts a store: `COPY <table> (<columns>) FROM STDIN BINARY`.
    pub fn store_sql(&self) -> (r: String)
        requires
            self.wf(),
        ensures
            r@ == store_sql_of(*self),
    {
        let mut s = String::from_str("COPY ");
        s.append(self.table_name.as_str());
        s.append(" (");
        let cols = self.store_columns();
        let c = join_strings(&cols, ", ");
        s.append(c.as_str());
        s.append(") FROM STDIN BINARY");
        s
    }
}

} // verus!
