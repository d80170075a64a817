//! The read path: checking a filter before a load or a delete, the bound
//! parameters, and the columns to fetch.

use crate::filter::{constrains_values, Constraint, Filter, FilterError};
use crate::group::is_key;
use crate::record::Value;
use crate::schema::{find_field, has_field, Descriptor};
use crate::sql::{join, join_strings, key_names, where_clause};
use crate::time::Timestamp;
use vstd::prelude::*;

verus! {

/// A parameter bound to the load or delete query.
#[derive(Clone, Debug)]
pub enum Param {
    /// The allowed values of a group key, bound as an array.
    Values(Vec<Value>),
    /// A bound of the time range.
    Time(Timestamp),
}

/// Whether field `i` is required by the filter and missing from it: an
/// empty group key list, or an absent time range.
pub open spec fn missing(d: Descriptor, f: Filter, i: int) -> bool {
    ||| is_key(d, i) && (f.constraints@[i] matches Constraint::Values(vs) && vs@.len() == 0)
    ||| d.timestamp == Some(i as usize) && f.range() is None
}

/// The allowed values of the group keys among the first `m` fields, in declared order.
pub open spec fn key_params(d: Descriptor, f: Filter, m: int) -> Seq<Seq<Value>>
    decreases m,
{
    if m <= 0 {
        Seq::empty()
    } else {
        let prev = key_params(d, f, m - 1);
        if is_key(d, m - 1) {
            prev.push(match f.constraints@[m - 1] {
                Constraint::Values(vs) => vs@,
                _ => Seq::empty(),
            })
        } else {
            prev
        }
    }
}

/// The view of a parameter.
pub open spec fn param_view(p: Param) -> (Seq<Value>, Option<Timestamp>) {
    match p {
        Param::Values(vs) => (vs@, None),
        Param::Time(t) => (Seq::empty(), Some(t)),
    }
}

impl Descriptor {
    /// Checks that the filter holds every required constraint, truncates its
    /// time range to microseconds, and returns the query parameters: the
    /// values of each group key in declared order, then the start and the end
    /// of the time range. The first field in declared order that is missing
    /// gives the error `<field> is required`.
    pub fn query_params(&self, filter: &mut Filter) -> (r: Result<Vec<Param>, FilterError>)
        requires
            self.wf(),
            old(filter).fits(*self),
        ensures
            r is Ok <==> forall|i: int| 0 <= i < self.fields@.len() ==> !#[trigger] missing(*self, *old(filter), i),
            r matches Err(FilterError::Required(n)) ==> exists|i: int| 0 <= i < self.fields@.len()
                && missing(*self, *old(filter), i) && n@ == self.fields@[i].name@
                && forall|a: int| 0 <= a < i ==> !#[trigger] missing(*self, *old(filter), a),
            r matches Err(e) ==> e is Required && *final(filter) == *old(filter),
            r matches Ok(ps) ==> {
                let keys = key_params(*self, *old(filter), self.fields@.len() as int);
                &&& ps@.map_values(|p: Param| param_view(p)) == match old(filter).range() {
                    Some(x) if self.timestamp is Some =>
                        keys.map_values(|vs: Seq<Value>| (vs, None::<Timestamp>))
                            .push((Seq::empty(), Some(x.start.truncated())))
                            .push((Seq::empty(), Some(x.end.truncated()))),
                    _ => keys.map_values(|vs: Seq<Value>| (vs, None::<Timestamp>)),
                }
                &&& final(filter).fits(*self)
                &&& self.timestamp is Some ==> final(filter).range() == Some(old(filter).range()->0.truncated())
                &&& forall|i: int| 0 <= i < self.fields@.len() && Some(i as usize) != self.timestamp
                    ==> #[trigger] final(filter).constraints@[i] == old(filter).constraints@[i]
            },
    {
        let ghost f0 = *filter;
        let n = self.fields.len();
        let mut params: Vec<Param> = Vec::new();
        let mut i: usize = 0;
        while i < n
            invariant
                self.wf(),
                filter.fits(*self),
                *filter == f0,
                n == self.fields@.len(),
                i <= n,
                forall|a: int| 0 <= a < i ==> !#[trigger] missing(*self, f0, a),
                params@.map_values(|p: Param| param_view(p))
                    == key_params(*self, f0, i as int).map_values(|vs: Seq<Value>| (vs, None::<Timestamp>)),
            decreases n - i,
        {
            let key = crate::group::find_key(self, i).is_some();
            if key {
                match &filter.constraints[i] {
                    Constraint::Values(vs) => {
                        if vs.len() == 0 {
                            proof { assert(missing(*self, f0, i as int)); }
                            return Err(FilterError::Required(self.fields[i].name.clone()));
                        }
                        let ghost before = params@;
                        params.push(Param::Values(vs.clone()));
                        proof {
                            assert(params@.map_values(|p: Param| param_view(p)) =~= before.map_values(|p: Param| param_view(p)).push((vs@, None::<Timestamp>)));
                            assert(key_params(*self, f0, i + 1) == key_params(*self, f0, i as int).push(vs@));
                            assert(key_params(*self, f0, i + 1).map_values(|vs: Seq<Value>| (vs, None::<Timestamp>))
                                =~= key_params(*self, f0, i as int).map_values(|vs: Seq<Value>| (vs, None::<Timestamp>)).push((vs@, None::<Timestamp>)));
                        }
                    },
                    Constraint::Range(_) => {
                        proof { assert(false); }
                    },
                }
            } else if self.timestamp == Some(i) {
                if filter.range_bounds().is_err() {
                    proof { assert(missing(*self, f0, i as int)); }
                    return Err(FilterError::Required(self.fields[i].name.clone()));
                }
                proof {
                    assert(key_params(*self, f0, i + 1) == key_params(*self, f0, i as int));
                }
            } else {
                proof {
                    assert(key_params(*self, f0, i + 1) == key_params(*self, f0, i as int));
                }
            }
            i += 1;
        }
        if self.timestamp.is_some() {
            match filter.range_truncate() {
                Ok(()) => {},
                Err(_) => {
                    proof { assert(missing(*self, f0, self.timestamp->0 as int)); }
                    return Err(FilterError::NoTimestamp);
                },
            }
            match filter.range_bounds() {
                Ok((s, e)) => {
                    params.push(Param::Time(s));
                    params.push(Param::Time(e));
                },
                Err(_) => {},
            }
        }
        Ok(params)
    }
}

/// Which payload columns a load fetches.
#[derive(Clone, Debug)]
pub struct Fields {
    /// The payload fields asked for; `None` asks for all of them.
    pub names: Option<Vec<String>>,
}

/// Whether the column of field `i` is fetched: required fields always, a
/// payload field when it is asked for or when the filter constrains it.
pub open spec fn fetched(d: Descriptor, sel: Fields, f: Filter, i: int) -> bool {
    ||| is_key(d, i)
    ||| d.timestamp == Some(i as usize)
    ||| sel.names is None
    ||| sel.names->0@.map_values(|s: String| s@).contains(d.fields@[i].name@)
    ||| constrains_values(f.constraints@[i])
}

impl Fields {
    /// Every payload field.
    pub fn all() -> (r: Fields)
        ensures
            r.names is None,
    {
        Fields { names: None }
    }

    /// The named payload fields; a name that the record lacks is refused.
    pub fn from_names(d: &Descriptor, names: Vec<String>) -> (r: Result<Fields, FilterError>)
        ensures
            r is Ok <==> forall|k: int| 0 <= k < names@.len() ==> has_field(d.fields@, #[trigger] names@[k]@),
            r matches Ok(s) ==> s.names == Some(names),
            r matches Err(e) ==> e matches FilterError::UnknownField(n) && !has_field(d.fields@, n@)
                && exists|k: int| 0 <= k < names@.len() && names@[k]@ == n@,
    {
        let mut k: usize = 0;
        while k < names.len()
            invariant
                k <= names@.len(),
                forall|a: int| 0 <= a < k ==> has_field(d.fields@, #[trigger] names@[a]@),
            decreases names@.len() - k,
        {
            match find_field(&d.fields, &names[k]) {
                Some(_) => {},
                None => return Err(FilterError::UnknownField(names[k].clone())),
            }
            k += 1;
        }
        Ok(Fields { names: Some(names) })
    }

    /// Whether the column of each field is fetched, in declared order.
    pub fn fetched(&self, d: &Descriptor, filter: &Filter) -> (r: Vec<bool>)
        requires
            d.wf(),
            filter.fits(*d),
        ensures
            r@.len() == d.fields@.len(),
            forall|i: int| 0 <= i < d.fields@.len() ==> #[trigger] r@[i] == fetched(*d, *self, *filter, i),
    {
        let n = d.fields.len();
        let mut out: Vec<bool> = Vec::new();
        let mut i: usize = 0;
        while i < n
            invariant
                d.wf(),
                filter.fits(*d),
                n == d.fields@.len(),
                i <= n,
                out@.len() == i,
                forall|a: int| 0 <= a < i ==> #[trigger] out@[a] == fetched(*d, *self, *filter, a),
            decreases n - i,
        {
            let mut yes = crate::group::find_key(d, i).is_some() || d.timestamp == Some(i);
            if !yes {
                match &self.names {
                    None => { yes = true; },
                    Some(names) => {
                        let ghost ns = names@.map_values(|s: String| s@);
                        let mut k: usize = 0;
                        while k < names.len()
                            invariant
                                i < n,
                                n == d.fields@.len(),
                                ns == names@.map_values(|s: String| s@),
                                k <= names@.len(),
                                !yes ==> forall|a: int| 0 <= a < k ==> ns[a] != d.fields@[i as int].name@,
                                yes ==> ns.contains(d.fields@[i as int].name@),
                            decreases names@.len() - k,
                        {
                            if names[k] == d.fields[i].name {
                                assert(ns[k as int] == d.fields@[i as int].name@);
                                yes = true;
                            }
                            k += 1;
                        }
                    },
                }
            }
            if !yes {
                match &filter.constraints[i] {
                    Constraint::Values(vs) => { yes = vs.len() > 0; },
                    Constraint::Range(_) => {},
                }
            }
            out.push(yes);
            i += 1;
        }
        out
    }
}

/// The names of the fetched payload fields among the first `m`, in declared order.
pub open spec fn fetched_payload_names(d: Descriptor, sel: Fields, f: Filter, m: int) -> Seq<Seq<char>>
    decreases m,
{
    if m <= 0 {
        Seq::empty()
    } else {
        let prev = fetched_payload_names(d, sel, f, m - 1);
        if !is_key(d, m - 1) && d.timestamp != Some((m - 1) as usize) && fetched(d, sel, f, m - 1) {
            prev.push(d.fields@[m - 1].name@)
        } else {
            prev
        }
    }
}

/// The columns a load fetches, in storage order: the group keys, then
/// `start_at`, `end_at` and the timestamp column, then the fetched payload columns.
pub open spec fn selected_columns(d: Descriptor, sel: Fields, f: Filter) -> Seq<Seq<char>> {
    let n = d.fields@.len() as int;
    let ts = match d.timestamp {
        Some(t) => seq!["start_at"@, "end_at"@, d.fields@[t as int].name@],
        None => Seq::empty(),
    };
    key_names(d, n) + ts + fetched_payload_names(d, sel, f, n)
}

impl Fields {
    /// The query that loads groups with the selected columns:
    /// `SELECT <columns> FROM <table> WHERE <where>`.
    pub fn load_sql(&self, d: &Descriptor, filter: &Filter) -> (r: String)
        requires
            d.wf(),
            filter.fits(*d),
        ensures
            r@ == "SELECT "@ + join(selected_columns(*d, *self, *filter), ", "@) + " FROM "@ + d.table_name@
                + " WHERE "@ + where_clause(*d),
    {
        let mut s = String::from_str("SELECT ");
        let cols = self.select(d, filter);
        s.append(cols.as_str());
        s.append(" FROM ");
        s.append(d.table_name.as_str());
        s.append(" WHERE ");
        let w = d.where_clause();
        s.append(w.as_str());
        s
    }

    /// The column list of a load, joined with `, `.
    pub fn select(&self, d: &Descriptor, filter: &Filter) -> (r: String)
        requires
            d.wf(),
            filter.fits(*d),
        ensures
            r@ == join(selected_columns(*d, *self, *filter), ", "@),
    {
        let wanted = self.fetched(d, filter);
        let n = d.fields.len();
        let mut keys: Vec<String> = Vec::new();
        let mut payload: Vec<String> = Vec::new();
        let mut i: usize = 0;
        while i < n
            invariant
                d.wf(),
                n == d.fields@.len(),
                wanted@.len() == n,
                forall|a: int| 0 <= a < n ==> #[trigger] wanted@[a] == fetched(*d, *self, *filter, a),
                i <= n,
                keys@.map_values(|s: String| s@) == key_names(*d, i as int),
                payload@.map_values(|s: String| s@) == fetched_payload_names(*d, *self, *filter, i as int),
            decreases n - i,
        {
            let name = d.fields[i].name.clone();
            if crate::group::find_key(d, i).is_some() {
                let ghost before = keys@;
                keys.push(name);
                proof { assert(keys@.map_values(|s: String| s@) =~= before.map_values(|s: String| s@).push(name@)); }
            } else if d.timestamp != Some(i) && wanted[i] {
                let ghost before = payload@;
                payload.push(name);
                proof { assert(payload@.map_values(|s: String| s@) =~= before.map_values(|s: String| s@).push(name@)); }
            }
            i += 1;
        }
        let mut cols = keys;
        if let Some(t) = d.timestamp {
            cols.push(String::from_str("start_at"));
            cols.push(String::from_str("end_at"));
            cols.push(d.fields[t].name.clone());
        }
        let ghost with_ts = cols@;
        let mut j: usize = 0;
        while j < payload.len()
            invariant
                cols@ == with_ts + payload@.take(j as int),
                j <= payload@.len(),
            decreases payload@.len() - j,
        {
            cols.push(payload[j].clone());
            assert(payload@.take(j + 1) == payload@.take(j as int).push(payload@[j as int]));
            j += 1;
        }
        proof {
            assert(payload@.take(payload@.len() as int) == payload@);
            assert(cols@.map_values(|s: String| s@) =~= selected_columns(*d, *self, *filter));
        }
        join_strings(&cols, ", ")
    }
}

} // verus!
