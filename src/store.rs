//! The write path: records are bucketed by group key and each bucket is
//! compressed into one group.

use crate::codec::CodecError;
use crate::group::{compress_rows, has_column, lemma_group_round_trip, same_key, Group};
use crate::record::{record_fits, records_fit, stored_record, Value};
use crate::schema::Descriptor;
use ahash::AHashMap;
use vstd::prelude::*;

verus! {

/// The group key values of a record, in `group_by` order.
pub open spec fn group_key(d: Descriptor, r: Seq<Value>) -> Seq<Value> {
    d.group_by@.map_values(|g: usize| r[g as int])
}

/// The bucket of record `j`: its group key and its extra grouping key.
pub open spec fn bucket_of(d: Descriptor, rows: Seq<Seq<Value>>, extra: Seq<i64>, j: int) -> (Seq<Value>, i64) {
    (group_key(d, rows[j]), extra[j])
}

/// The records among the first `m` that fall in bucket `key`, in their order.
pub open spec fn select(d: Descriptor, rows: Seq<Seq<Value>>, extra: Seq<i64>, key: (Seq<Value>, i64), m: int) -> Seq<Seq<Value>>
    decreases m,
{
    if m <= 0 {
        Seq::empty()
    } else {
        let prev = select(d, rows, extra, key, m - 1);
        if bucket_of(d, rows, extra, m - 1) == key { prev.push(rows[m - 1]) } else { prev }
    }
}

/// Whether `buckets` splits `rows` by bucket: `firsts[b]` is the first record
/// of bucket `b`, the buckets' keys are distinct, every record's bucket is
/// among them, and each bucket holds all records of its key in their order.
pub open spec fn splits(d: Descriptor, rows: Seq<Seq<Value>>, extra: Seq<i64>, firsts: Seq<usize>, buckets: Seq<Seq<Seq<Value>>>) -> bool {
    &&& firsts.len() == buckets.len()
    &&& forall|b: int| 0 <= b < firsts.len() ==> #[trigger] firsts[b] < rows.len()
    &&& forall|b: int| 0 <= b < firsts.len() ==>
        #[trigger] buckets[b] == select(d, rows, extra, bucket_of(d, rows, extra, firsts[b] as int), rows.len() as int)
    &&& forall|b: int, c: int| 0 <= b < c < firsts.len() ==>
        bucket_of(d, rows, extra, #[trigger] firsts[b] as int) != bucket_of(d, rows, extra, #[trigger] firsts[c] as int)
    &&& forall|j: int| 0 <= j < rows.len() ==> #[trigger] in_some_bucket(d, rows, extra, firsts, j)
}

/// Whether record `j` falls in the bucket of one of the records `firsts`.
pub open spec fn in_some_bucket(d: Descriptor, rows: Seq<Seq<Value>>, extra: Seq<i64>, firsts: Seq<usize>, j: int) -> bool {
    exists|b: int| 0 <= b < firsts.len() && bucket_of(d, rows, extra, firsts[b] as int) == bucket_of(d, rows, extra, j)
}

/// Whether `groups` is what storing `rows` with extra grouping keys `extra` writes:
/// one group per bucket, compressed from the bucket's records.
pub open spec fn stores(d: Descriptor, rows: Seq<Seq<Value>>, extra: Seq<i64>, groups: Seq<Group>) -> bool {
    exists|firsts: Seq<usize>, buckets: Seq<Seq<Seq<Value>>>| {
        &&& splits(d, rows, extra, firsts, buckets)
        &&& groups.len() == buckets.len()
        &&& forall|b: int| 0 <= b < groups.len() ==> (#[trigger] groups[b]).compressed_from(d, buckets[b])
    }
}

/// A bucket holds records of its key only, and holds the first one of them.
proof fn lemma_select(d: Descriptor, rows: Seq<Seq<Value>>, extra: Seq<i64>, key: (Seq<Value>, i64), m: int)
    requires
        0 <= m <= rows.len(),
        m <= extra.len(),
    ensures
        forall|x: int| 0 <= x < select(d, rows, extra, key, m).len() ==>
            exists|j: int| 0 <= j < m && bucket_of(d, rows, extra, j) == key
                && #[trigger] select(d, rows, extra, key, m)[x] == rows[j],
        (forall|j: int| 0 <= j < m ==> bucket_of(d, rows, extra, j) != key) ==> select(d, rows, extra, key, m).len() == 0,
        forall|j: int| 0 <= j < m && bucket_of(d, rows, extra, j) == key ==> select(d, rows, extra, key, m).len() > 0,
    decreases m,
{
    if m > 0 {
        lemma_select(d, rows, extra, key, m - 1);
        let prev = select(d, rows, extra, key, m - 1);
        if bucket_of(d, rows, extra, m - 1) == key {
            assert forall|x: int| 0 <= x < select(d, rows, extra, key, m).len() implies
                exists|j: int| 0 <= j < m && bucket_of(d, rows, extra, j) == key
                    && #[trigger] select(d, rows, extra, key, m)[x] == rows[j] by {
                if x < prev.len() {
                    let j = choose|j: int| 0 <= j < m - 1 && bucket_of(d, rows, extra, j) == key && prev[x] == rows[j];
                } else {
                    assert(select(d, rows, extra, key, m)[x] == rows[m - 1]);
                }
            }
        } else {
            assert forall|x: int| 0 <= x < select(d, rows, extra, key, m).len() implies
                exists|j: int| 0 <= j < m && bucket_of(d, rows, extra, j) == key
                    && #[trigger] select(d, rows, extra, key, m)[x] == rows[j] by {
                let j = choose|j: int| 0 <= j < m - 1 && bucket_of(d, rows, extra, j) == key && prev[x] == rows[j];
            }
        }
    }
}

/// The records of a bucket fit the description and share their group key.
proof fn lemma_bucket_shape(d: Descriptor, rows: Seq<Seq<Value>>, extra: Seq<i64>, key: (Seq<Value>, i64))
    requires
        d.wf(),
        rows.len() <= extra.len(),
        records_fit(d, rows),
    ensures
        records_fit(d, select(d, rows, extra, key, rows.len() as int)),
        same_key(d, select(d, rows, extra, key, rows.len() as int)),
{
    let m = rows.len() as int;
    let sel = select(d, rows, extra, key, m);
    lemma_select(d, rows, extra, key, m);
    assert forall|x: int| 0 <= x < sel.len() implies record_fits(d, #[trigger] sel[x]) && group_key(d, sel[x]) == key.0 by {
        let j = choose|j: int| 0 <= j < m && bucket_of(d, rows, extra, j) == key && sel[x] == rows[j];
        assert(record_fits(d, rows[j]));
    }
    assert forall|x: int, k: int| 0 <= x < sel.len() && 0 <= k < d.group_by@.len() implies
        #[trigger] sel[x][d.group_by@[k] as int] == #[trigger] sel[0][d.group_by@[k] as int] by {
        assert(group_key(d, sel[x]) == key.0);
        assert(group_key(d, sel[0]) == key.0);
        assert(group_key(d, sel[x])[k] == sel[x][d.group_by@[k] as int]);
        assert(group_key(d, sel[0])[k] == sel[0][d.group_by@[k] as int]);
    }
}

/// ahash's hash map, which indexes buckets by key; its contents are `bucket_index`.
#[verifier::external_type_specification]
#[verifier::external_body]
#[verifier::reject_recursive_types(K)]
#[verifier::reject_recursive_types(V)]
#[verifier::reject_recursive_types(S)]
pub struct ExAHashMap<K, V, S>(ahash::AHashMap<K, V, S>);

/// ahash's hasher state, the default hasher of its hash map.
#[verifier::external_type_specification]
#[verifier::external_body]
pub struct ExRandomState(ahash::RandomState);

/// The index of buckets by key, as `ahash::AHashMap` holds it.
pub uninterp spec fn bucket_index(m: AHashMap<Vec<i64>, usize>) -> Map<Seq<i64>, usize>;

/// Relies on `ahash::AHashMap::new`: a map with no entries.
#[verifier::external_body]
fn new_index() -> (r: AHashMap<Vec<i64>, usize>)
    ensures
        forall|k: Seq<i64>| !#[trigger] bucket_index(r).contains_key(k),
{
    AHashMap::new()
}

/// Relies on `ahash::AHashMap::get`: the value held under an equal key, if any.
#[verifier::external_body]
fn index_get(m: &AHashMap<Vec<i64>, usize>, k: &Vec<i64>) -> (r: Option<usize>)
    ensures
        r == (if bucket_index(*m).contains_key(k@) { Some(bucket_index(*m)[k@]) } else { None }),
{
    m.get(k).copied()
}

/// Relies on `ahash::AHashMap::insert`: the key now holds the value, and every other key keeps its own.
#[verifier::external_body]
fn index_insert(m: &mut AHashMap<Vec<i64>, usize>, k: Vec<i64>, v: usize)
    ensures
        bucket_index(*final(m)) == bucket_index(*old(m)).insert(k@, v),
{
    m.insert(k, v);
}

/// A group key value widened to 64 bits.
pub open spec fn widened(v: Value) -> i64 {
    match v {
        Value::Int32(x) => x as i64,
        Value::Int64(x) => x,
        _ => 0,
    }
}

/// The map key of the bucket of record `j`: its group key values widened to
/// 64 bits, then its extra grouping key.
pub open spec fn map_key(d: Descriptor, rows: Seq<Seq<Value>>, extra: Seq<i64>, j: int) -> Seq<i64> {
    group_key(d, rows[j]).map_values(|v: Value| widened(v)).push(extra[j])
}

/// The index maps the key of each bucket to its position, and holds nothing else.
pub open spec fn index_inv(d: Descriptor, rows: Seq<Seq<Value>>, extra: Seq<i64>, firsts: Seq<usize>, m: Map<Seq<i64>, usize>) -> bool {
    &&& forall|k: Seq<i64>| #[trigger] m.contains_key(k) ==> m[k] < firsts.len()
        && map_key(d, rows, extra, firsts[m[k] as int] as int) == k
    &&& forall|b: int| 0 <= b < firsts.len() ==> m.contains_key(map_key(d, rows, extra, #[trigger] firsts[b] as int))
}

/// Records of the described shape have the same map key exactly when they fall in the same bucket.
proof fn lemma_map_key(d: Descriptor, rows: Seq<Seq<Value>>, extra: Seq<i64>, a: int, b: int)
    requires
        d.wf(),
        0 <= a < rows.len(),
        0 <= b < rows.len(),
        rows.len() <= extra.len(),
        records_fit(d, rows),
    ensures
        (map_key(d, rows, extra, a) == map_key(d, rows, extra, b)) == (bucket_of(d, rows, extra, a) == bucket_of(d, rows, extra, b)),
{
    let ka = group_key(d, rows[a]);
    let kb = group_key(d, rows[b]);
    if map_key(d, rows, extra, a) == map_key(d, rows, extra, b) {
        let wa = ka.map_values(|v: Value| widened(v));
        let wb = kb.map_values(|v: Value| widened(v));
        assert(wa.push(extra[a]).drop_last() == wa);
        assert(wb.push(extra[b]).drop_last() == wb);
        assert(wa.push(extra[a]).last() == extra[a]);
        assert(wb.push(extra[b]).last() == extra[b]);
        assert(wa == wb);
        assert(record_fits(d, rows[a]));
        assert(record_fits(d, rows[b]));
        assert forall|k: int| 0 <= k < ka.len() implies ka[k] == kb[k] by {
            assert(d.group_by@[k] < d.fields@.len());
            assert(wa[k] == wb[k]);
            assert(crate::schema::is_key_type(d.fields@[d.group_by@[k] as int].ty));
        }
        assert(ka =~= kb);
    }
}

/// The map key of a record.
fn key_of(d: &Descriptor, r: &Vec<Value>, e: i64) -> (k: Vec<i64>)
    requires
        d.wf(),
        r@.len() == d.fields@.len(),
    ensures
        k@ == group_key(*d, r@).map_values(|v: Value| widened(v)).push(e),
{
    let mut out: Vec<i64> = Vec::new();
    let mut k: usize = 0;
    while k < d.group_by.len()
        invariant
            d.wf(),
            r@.len() == d.fields@.len(),
            k <= d.group_by@.len(),
            out@ == group_key(*d, r@).map_values(|v: Value| widened(v)).take(k as int),
        decreases d.group_by@.len() - k,
    {
        let g = d.group_by[k];
        assert(d.group_by@[k as int] < d.fields@.len());
        let w: i64 = match r[g] {
            Value::Int32(x) => x as i64,
            Value::Int64(x) => x,
            _ => 0,
        };
        out.push(w);
        proof {
            let full = group_key(*d, r@).map_values(|v: Value| widened(v));
            assert(full.take(k + 1) == full.take(k as int).push(full[k as int]));
        }
        k += 1;
    }
    proof {
        let full = group_key(*d, r@).map_values(|v: Value| widened(v));
        assert(full.take(d.group_by@.len() as int) == full);
    }
    out.push(e);
    out
}

/// A copy of a record.
fn copy_record(r: &Vec<Value>) -> (c: Vec<Value>)
    ensures
        c@ == r@,
{
    let mut c: Vec<Value> = Vec::new();
    let mut i: usize = 0;
    while i < r.len()
        invariant
            i <= r@.len(),
            c@ == r@.take(i as int),
        decreases r@.len() - i,
    {
        c.push(r[i]);
        assert(r@.take(i + 1) == r@.take(i as int).push(r@[i as int]));
        i += 1;
    }
    assert(r@.take(r@.len() as int) == r@);
    c
}

/// The bucket, among those whose first records are `firsts`, that record `j` falls in.
fn find_bucket(
    d: &Descriptor,
    rows: &Vec<Vec<Value>>,
    extra: &Vec<i64>,
    firsts: &Vec<usize>,
    index: &AHashMap<Vec<i64>, usize>,
    j: usize,
) -> (r: Option<usize>)
    requires
        d.wf(),
        extra@.len() == rows@.len(),
        records_fit(*d, rows@.map_values(|x: Vec<Value>| x@)),
        j < rows@.len(),
        forall|b: int| 0 <= b < firsts@.len() ==> #[trigger] firsts@[b] < j,
        index_inv(*d, rows@.map_values(|x: Vec<Value>| x@), extra@, firsts@, bucket_index(*index)),
    ensures
        r matches Some(b) ==> b < firsts@.len() && bucket_of(*d, rows@.map_values(|x: Vec<Value>| x@), extra@, firsts@[b as int] as int)
            == bucket_of(*d, rows@.map_values(|x: Vec<Value>| x@), extra@, j as int),
        r is None ==> forall|c: int| 0 <= c < firsts@.len() ==> bucket_of(*d, rows@.map_values(|x: Vec<Value>| x@), extra@, #[trigger] firsts@[c] as int)
            != bucket_of(*d, rows@.map_values(|x: Vec<Value>| x@), extra@, j as int),
{
    let ghost rs = rows@.map_values(|x: Vec<Value>| x@);
    assert(record_fits(*d, rs[j as int]));
    assert(rs[j as int] == rows@[j as int]@);
    let key = key_of(d, &rows[j], extra[j]);
    let ghost m = bucket_index(*index);
    assert(key@ == map_key(*d, rs, extra@, j as int));
    let r = index_get(index, &key);
    proof {
        match r {
            Some(b) => {
                assert(m.contains_key(map_key(*d, rs, extra@, j as int)));
                lemma_map_key(*d, rs, extra@, firsts@[b as int] as int, j as int);
            },
            None => {
                assert forall|c: int| 0 <= c < firsts@.len() implies bucket_of(*d, rs, extra@, #[trigger] firsts@[c] as int)
                    != bucket_of(*d, rs, extra@, j as int) by {
                    assert(m.contains_key(map_key(*d, rs, extra@, firsts@[c] as int)));
                }
            },
        }
    }
    r
}

/// Splits records into buckets of equal group key and extra grouping key,
/// keeping their order; buckets come in the order of their first record.
#[verifier::rlimit(50)]
fn bucket_records(d: &Descriptor, rows: &Vec<Vec<Value>>, extra: &Vec<i64>) -> (r: (Vec<Vec<Vec<Value>>>, Ghost<Seq<usize>>))
    requires
        d.wf(),
        extra@.len() == rows@.len(),
        records_fit(*d, rows@.map_values(|x: Vec<Value>| x@)),
    ensures
        splits(*d, rows@.map_values(|x: Vec<Value>| x@), extra@, r.1@, r.0@.map_values(|b: Vec<Vec<Value>>| b@.map_values(|x: Vec<Value>| x@))),
{
    let ghost rs = rows@.map_values(|x: Vec<Value>| x@);
    let ghost ex = extra@;
    let mut buckets: Vec<Vec<Vec<Value>>> = Vec::new();
    let mut firsts: Vec<usize> = Vec::new();
    let mut index = new_index();
    let mut j: usize = 0;
    while j < rows.len()
        invariant
            d.wf(),
            rs == rows@.map_values(|x: Vec<Value>| x@),
            ex == extra@,
            extra@.len() == rows@.len(),
            records_fit(*d, rs),
            j <= rows@.len(),
            firsts@.len() == buckets@.len(),
            forall|b: int| 0 <= b < firsts@.len() ==> #[trigger] firsts@[b] < j,
            forall|b: int| 0 <= b < firsts@.len() ==>
                (#[trigger] buckets@[b])@.map_values(|x: Vec<Value>| x@) == select(*d, rs, ex, bucket_of(*d, rs, ex, firsts@[b] as int), j as int),
            forall|b: int, c: int| 0 <= b < c < firsts@.len() ==>
                bucket_of(*d, rs, ex, #[trigger] firsts@[b] as int) != bucket_of(*d, rs, ex, #[trigger] firsts@[c] as int),
            forall|a: int| 0 <= a < j ==> exists|b: int| 0 <= b < firsts@.len()
                && bucket_of(*d, rs, ex, #[trigger] firsts@[b] as int) == #[trigger] bucket_of(*d, rs, ex, a),
            index_inv(*d, rs, ex, firsts@, bucket_index(index)),
        decreases rows@.len() - j,
    {
        assert(record_fits(*d, rs[j as int]));
        assert(rs[j as int] == rows@[j as int]@);
        let found = find_bucket(d, rows, extra, &firsts, &index, j);
        let ghost old_buckets = buckets@;
        let ghost old_firsts = firsts@;
        let row = copy_record(&rows[j]);
        match found {
            Some(b) => {
                let mut bucket = buckets.remove(b);
                bucket.push(row);
                buckets.insert(b, bucket);
                proof {
                    assert forall|c: int| 0 <= c < firsts@.len() implies
                        (#[trigger] buckets@[c])@.map_values(|x: Vec<Value>| x@) == select(*d, rs, ex, bucket_of(*d, rs, ex, firsts@[c] as int), j + 1) by {
                        if c == b {
                            assert(buckets@[c]@.map_values(|x: Vec<Value>| x@) =~= old_buckets[c]@.map_values(|x: Vec<Value>| x@).push(rs[j as int]));
                        } else {
                            assert(buckets@[c] == old_buckets[c]);
                            if c < b {
                                assert(bucket_of(*d, rs, ex, firsts@[c] as int) != bucket_of(*d, rs, ex, firsts@[b as int] as int));
                            } else {
                                assert(bucket_of(*d, rs, ex, firsts@[b as int] as int) != bucket_of(*d, rs, ex, firsts@[c] as int));
                            }
                        }
                    }
                    assert forall|a: int| 0 <= a < j + 1 implies exists|c: int| 0 <= c < firsts@.len()
                        && bucket_of(*d, rs, ex, #[trigger] firsts@[c] as int) == #[trigger] bucket_of(*d, rs, ex, a) by {
                        if a == j {
                            assert(bucket_of(*d, rs, ex, firsts@[b as int] as int) == bucket_of(*d, rs, ex, a));
                        }
                    }
                }
            },
            None => {
                let key = key_of(d, &rows[j], extra[j]);
                let ghost old_map = bucket_index(index);
                index_insert(&mut index, key, buckets.len());
                let mut bucket: Vec<Vec<Value>> = Vec::new();
                bucket.push(row);
                buckets.push(bucket);
                firsts.push(j);
                proof {
                    let m = bucket_index(index);
                    let kj = map_key(*d, rs, ex, j as int);
                    assert(key@ == kj);
                    assert forall|k: Seq<i64>| #[trigger] m.contains_key(k) implies m[k] < firsts@.len()
                        && map_key(*d, rs, ex, firsts@[m[k] as int] as int) == k by {
                        if k != kj {
                            assert(old_map.contains_key(k));
                            assert(firsts@[old_map[k] as int] == old_firsts[old_map[k] as int]);
                        }
                    }
                    assert forall|b: int| 0 <= b < firsts@.len() implies m.contains_key(map_key(*d, rs, ex, #[trigger] firsts@[b] as int)) by {
                        if b < old_firsts.len() {
                            assert(firsts@[b] == old_firsts[b]);
                            assert(old_map.contains_key(map_key(*d, rs, ex, old_firsts[b] as int)));
                        }
                    }
                }
                proof {
                    let key = bucket_of(*d, rs, ex, j as int);
                    assert forall|a: int| 0 <= a < j implies bucket_of(*d, rs, ex, a) != key by {
                        let c = choose|c: int| 0 <= c < old_firsts.len()
                            && bucket_of(*d, rs, ex, #[trigger] old_firsts[c] as int) == #[trigger] bucket_of(*d, rs, ex, a);
                        assert(bucket_of(*d, rs, ex, old_firsts[c] as int) != key);
                    }
                    lemma_select(*d, rs, ex, key, j as int);
                    let last = firsts@.len() - 1;
                    assert forall|c: int| 0 <= c < firsts@.len() implies
                        (#[trigger] buckets@[c])@.map_values(|x: Vec<Value>| x@) == select(*d, rs, ex, bucket_of(*d, rs, ex, firsts@[c] as int), j + 1) by {
                        if c == last {
                            assert(buckets@[c]@.map_values(|x: Vec<Value>| x@) =~= seq![rs[j as int]]);
                            assert(select(*d, rs, ex, key, j as int) =~= Seq::<Seq<Value>>::empty());
                        } else {
                            assert(buckets@[c] == old_buckets[c]);
                        }
                    }
                    assert forall|a: int| 0 <= a < j + 1 implies exists|c: int| 0 <= c < firsts@.len()
                        && bucket_of(*d, rs, ex, #[trigger] firsts@[c] as int) == #[trigger] bucket_of(*d, rs, ex, a) by {
                        if a == j {
                            assert(bucket_of(*d, rs, ex, firsts@[last] as int) == bucket_of(*d, rs, ex, a));
                        } else {
                            let c = choose|c: int| 0 <= c < old_firsts.len()
                                && bucket_of(*d, rs, ex, #[trigger] old_firsts[c] as int) == #[trigger] bucket_of(*d, rs, ex, a);
                            assert(firsts@[c] == old_firsts[c]);
                            assert(bucket_of(*d, rs, ex, firsts@[c] as int) == bucket_of(*d, rs, ex, a));
                        }
                    }
                }
            },
        }
        j += 1;
    }
    proof {
        let bs = buckets@.map_values(|b: Vec<Vec<Value>>| b@.map_values(|x: Vec<Value>| x@));
        assert(rs.len() == j);
        assert forall|b: int| 0 <= b < firsts@.len() implies
            #[trigger] bs[b] == select(*d, rs, ex, bucket_of(*d, rs, ex, firsts@[b] as int), rs.len() as int) by {
            assert(bs[b] == buckets@[b]@.map_values(|x: Vec<Value>| x@));
        }
        assert(firsts@.len() == bs.len());
        assert(forall|b: int| 0 <= b < firsts@.len() ==> #[trigger] firsts@[b] < rs.len());
        assert(forall|b: int, c: int| 0 <= b < c < firsts@.len() ==>
            bucket_of(*d, rs, ex, #[trigger] firsts@[b] as int) != bucket_of(*d, rs, ex, #[trigger] firsts@[c] as int));
        assert forall|a: int| 0 <= a < rs.len() implies #[trigger] in_some_bucket(*d, rs, ex, firsts@, a) by {
            assert(0 <= a < j);
            let b = choose|b: int| 0 <= b < firsts@.len()
                && bucket_of(*d, rs, ex, #[trigger] firsts@[b] as int) == #[trigger] bucket_of(*d, rs, ex, a);
            assert(bucket_of(*d, rs, ex, firsts@[b] as int) == bucket_of(*d, rs, ex, a));
        }
        assert(splits(*d, rs, ex, firsts@, bs));
    }
    (buckets, Ghost(firsts@))
}

impl Group {
    /// The groups that storing `rows` writes: one per distinct group key.
    /// An empty list writes nothing.
    pub fn store(d: &Descriptor, rows: &Vec<Vec<Value>>) -> (r: Result<Vec<Group>, CodecError>)
        requires
            d.wf(),
            records_fit(*d, rows@.map_values(|x: Vec<Value>| x@)),
        ensures
            r is Ok,
            rows@.len() == 0 ==> (r matches Ok(gs) && gs@.len() == 0),
            r matches Ok(gs) ==> stores(*d, rows@.map_values(|x: Vec<Value>| x@), Seq::new(rows@.len(), |j: int| 0i64), gs@),
            r matches Err(e) ==> e == CodecError::Encode,
    {
        let mut extra: Vec<i64> = Vec::new();
        let mut j: usize = 0;
        while j < rows.len()
            invariant
                j <= rows@.len(),
                extra@ == Seq::new(j as nat, |j: int| 0i64),
            decreases rows@.len() - j,
        {
            extra.push(0);
            assert(extra@ =~= Seq::new((j + 1) as nat, |j: int| 0i64));
            j += 1;
        }
        Group::store_grouped(d, rows, &extra)
    }

    /// The groups that storing `rows` writes when records are also told apart
    /// by `extra[j]`, a grouping key of record `j` (such as its day), to put
    /// more records in one group.
    pub fn store_grouped(d: &Descriptor, rows: &Vec<Vec<Value>>, extra: &Vec<i64>) -> (r: Result<Vec<Group>, CodecError>)
        requires
            d.wf(),
            extra@.len() == rows@.len(),
            records_fit(*d, rows@.map_values(|x: Vec<Value>| x@)),
        ensures
            r is Ok,
            rows@.len() == 0 ==> (r matches Ok(gs) && gs@.len() == 0),
            r matches Ok(gs) ==> stores(*d, rows@.map_values(|x: Vec<Value>| x@), extra@, gs@),
            r matches Err(e) ==> e == CodecError::Encode,
    {
        let ghost rs = rows@.map_values(|x: Vec<Value>| x@);
        let (buckets, Ghost(firsts)) = bucket_records(d, rows, extra);
        let ghost bs = buckets@.map_values(|b: Vec<Vec<Value>>| b@.map_values(|x: Vec<Value>| x@));
        let mut groups: Vec<Group> = Vec::new();
        let mut b: usize = 0;
        while b < buckets.len()
            invariant
                d.wf(),
                rs == rows@.map_values(|x: Vec<Value>| x@),
                extra@.len() == rows@.len(),
                records_fit(*d, rs),
                bs == buckets@.map_values(|b: Vec<Vec<Value>>| b@.map_values(|x: Vec<Value>| x@)),
                splits(*d, rs, extra@, firsts, bs),
                b <= buckets@.len(),
                groups@.len() == b,
                forall|c: int| 0 <= c < b ==> (#[trigger] groups@[c]).compressed_from(*d, bs[c]),
            decreases buckets@.len() - b,
        {
            proof {
                let key = bucket_of(*d, rs, extra@, firsts[b as int] as int);
                lemma_bucket_shape(*d, rs, extra@, key);
                lemma_select(*d, rs, extra@, key, rs.len() as int);
                assert(bs[b as int] == buckets@[b as int]@.map_values(|x: Vec<Value>| x@));
            }
            let g = compress_rows(d, &buckets[b])?;
            groups.push(g);
            b += 1;
        }
        proof {
            if rows@.len() == 0 {
                assert(firsts.len() == 0) by {
                    if firsts.len() > 0 {
                        assert(firsts[0] < rs.len());
                    }
                }
            }
        }
        Ok(groups)
    }
}

/// Whether group `g` decompresses to the records of the bucket of record
/// `j`, in their order, with times truncated to microseconds.
pub open spec fn loads_bucket(d: Descriptor, rows: Seq<Seq<Value>>, extra: Seq<i64>, g: Group, j: int) -> bool {
    g.decompressed(d) == Some(
        select(d, rows, extra, bucket_of(d, rows, extra, j), rows.len() as int).map_values(|r: Seq<Value>| stored_record(r)))
}

/// Whether group `g` decompresses to the records of some bucket.
pub open spec fn holds_a_bucket(d: Descriptor, rows: Seq<Seq<Value>>, extra: Seq<i64>, g: Group) -> bool {
    exists|j: int| 0 <= j < rows.len() && loads_bucket(d, rows, extra, g, j)
}

/// Whether one of the groups decompresses to the records of the bucket of record `j`.
pub open spec fn bucket_loaded(d: Descriptor, rows: Seq<Seq<Value>>, extra: Seq<i64>, groups: Seq<Group>, j: int) -> bool {
    exists|b: int| 0 <= b < groups.len() && loads_bucket(d, rows, extra, groups[b], j)
}

/// Loading back every group that storing `rows` wrote gives, for each
/// bucket, exactly the records of that bucket in their order, with times
/// truncated to microseconds; every record lands in one of the groups.
pub proof fn lemma_store_round_trip(d: Descriptor, rows: Seq<Seq<Value>>, extra: Seq<i64>, groups: Seq<Group>)
    requires
        d.wf(),
        extra.len() == rows.len(),
        records_fit(d, rows),
        has_column(d),
        stores(d, rows, extra, groups),
    ensures
        forall|b: int| 0 <= b < groups.len() ==> #[trigger] holds_a_bucket(d, rows, extra, groups[b]),
        forall|j: int| 0 <= j < rows.len() ==> #[trigger] bucket_loaded(d, rows, extra, groups, j),
{
    let (firsts, buckets) = choose|firsts: Seq<usize>, buckets: Seq<Seq<Seq<Value>>>| {
        &&& splits(d, rows, extra, firsts, buckets)
        &&& groups.len() == buckets.len()
        &&& forall|b: int| 0 <= b < groups.len() ==> (#[trigger] groups[b]).compressed_from(d, buckets[b])
    };
    assert forall|b: int| 0 <= b < groups.len() implies #[trigger] loads_bucket(d, rows, extra, groups[b], firsts[b] as int) by {
        let key = bucket_of(d, rows, extra, firsts[b] as int);
        assert(firsts[b] < rows.len());
        lemma_bucket_shape(d, rows, extra, key);
        lemma_select(d, rows, extra, key, rows.len() as int);
        assert(buckets[b] == select(d, rows, extra, key, rows.len() as int));
        lemma_group_round_trip(d, buckets[b], groups[b]);
    }
    assert forall|b: int| 0 <= b < groups.len() implies #[trigger] holds_a_bucket(d, rows, extra, groups[b]) by {
        let j = firsts[b] as int;
        assert(0 <= j < rows.len());
        assert(loads_bucket(d, rows, extra, groups[b], j));
    }
    assert forall|j: int| 0 <= j < rows.len() implies #[trigger] bucket_loaded(d, rows, extra, groups, j) by {
        assert(in_some_bucket(d, rows, extra, firsts, j));
        let b = choose|b: int| 0 <= b < firsts.len() && bucket_of(d, rows, extra, firsts[b] as int) == bucket_of(d, rows, extra, j);
        assert(loads_bucket(d, rows, extra, groups[b], firsts[b] as int));
        assert(loads_bucket(d, rows, extra, groups[b], j));
    }
}

/// When every record falls in the same bucket, the bucket holds all of them in order.
proof fn lemma_select_all(d: Descriptor, rows: Seq<Seq<Value>>, extra: Seq<i64>, m: int)
    requires
        0 <= m <= rows.len(),
        rows.len() > 0,
        forall|j: int| 0 <= j < rows.len() ==> #[trigger] bucket_of(d, rows, extra, j) == bucket_of(d, rows, extra, 0),
    ensures
        select(d, rows, extra, bucket_of(d, rows, extra, 0), m) == rows.take(m),
    decreases m,
{
    if m > 0 {
        lemma_select_all(d, rows, extra, m - 1);
        assert(rows.take(m) == rows.take(m - 1).push(rows[m - 1]));
    } else {
        assert(rows.take(0) =~= Seq::<Seq<Value>>::empty());
    }
}

/// Storing records that all share one bucket (one group key and one extra
/// grouping key) writes exactly one group; it spans the earliest to the
/// latest time and decompresses to all the records in their order, with
/// times truncated to microseconds.
pub proof fn lemma_store_one_bucket(d: Descriptor, rows: Seq<Seq<Value>>, extra: Seq<i64>, groups: Seq<Group>)
    requires
        d.wf(),
        rows.len() > 0,
        extra.len() == rows.len(),
        records_fit(d, rows),
        has_column(d),
        forall|j: int| 0 <= j < rows.len() ==> #[trigger] bucket_of(d, rows, extra, j) == bucket_of(d, rows, extra, 0),
        stores(d, rows, extra, groups),
    ensures
        groups.len() == 1,
        groups[0].compressed_from(d, rows),
        groups[0].decompressed(d) == Some(rows.map_values(|r: Seq<Value>| stored_record(r))),
{
    let (firsts, buckets) = choose|firsts: Seq<usize>, buckets: Seq<Seq<Seq<Value>>>| {
        &&& splits(d, rows, extra, firsts, buckets)
        &&& groups.len() == buckets.len()
        &&& forall|b: int| 0 <= b < groups.len() ==> (#[trigger] groups[b]).compressed_from(d, buckets[b])
    };
    assert(in_some_bucket(d, rows, extra, firsts, 0));
    assert(firsts.len() >= 1);
    if firsts.len() > 1 {
        assert(firsts[0] < rows.len() && firsts[1] < rows.len());
        assert(bucket_of(d, rows, extra, firsts[0] as int) == bucket_of(d, rows, extra, firsts[1] as int));
    }
    assert(firsts[0] < rows.len());
    let key = bucket_of(d, rows, extra, 0);
    assert(bucket_of(d, rows, extra, firsts[0] as int) == key);
    lemma_select_all(d, rows, extra, rows.len() as int);
    assert(rows.take(rows.len() as int) == rows);
    assert(buckets[0] == rows);
    assert(same_key(d, rows)) by {
        lemma_bucket_shape(d, rows, extra, key);
    }
    lemma_group_round_trip(d, rows, groups[0]);
}

} // verus!
