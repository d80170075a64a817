use pco_store::codec::{compress_column, decompress_column, CodecError, Column};
use pco_store::filter::{Constraint, Filter};
use pco_store::group::{CopyValue, Group};
use pco_store::record::Value;
use pco_store::schema::{Arguments, Descriptor, Field, FieldType, Wire};
use pco_store::time::{TimeRange, Timestamp};

fn field(name: &str, ty: FieldType) -> Field {
    Field { name: name.to_string(), ty }
}

fn descriptor(fields: Vec<Field>, timestamp: Option<&str>, group_by: &[&str], float_round: Option<u32>) -> Descriptor {
    let args = Arguments {
        timestamp: timestamp.map(|s| s.to_string()),
        group_by: group_by.iter().map(|s| s.to_string()).collect(),
        float_round,
        table_name: None,
    };
    Descriptor::new("QueryStat".to_string(), fields, args).unwrap()
}

fn no_timestamp_descriptor() -> Descriptor {
    descriptor(
        vec![field("database_id", FieldType::Int64), field("calls", FieldType::Int64), field("total_time", FieldType::Float64)],
        None,
        &["database_id"],
        None,
    )
}

fn f64_bits(x: f64) -> Value {
    Value::Float64Bits(x.to_bits())
}

fn calls_of(rows: &[Vec<Value>], i: usize) -> i64 {
    rows.iter()
        .map(|r| match r[i] {
            Value::Int64(c) => c,
            _ => panic!("not an i64"),
        })
        .sum()
}

fn load_all(d: &Descriptor, groups: &[Group], filter: Option<&Filter>) -> Vec<Vec<Value>> {
    let mut out = Vec::new();
    for g in groups {
        let mut g = g.clone();
        g.filter = filter.cloned();
        out.extend(g.decompress(d).unwrap());
    }
    out
}

#[test]
fn no_timestamp() {
    let d = no_timestamp_descriptor();
    let mut table = Vec::new();
    table.extend(Group::store(&d, &vec![vec![Value::Int64(1), Value::Int64(1), f64_bits(1.0)]]).unwrap());
    table.extend(Group::store(&d, &vec![vec![Value::Int64(1), Value::Int64(2), f64_bits(2.0)]]).unwrap());
    assert_eq!(table.len(), 2);

    let filter = Filter::new(&d, vec![vec![Value::Int64(1)]], None);
    let rows = load_all(&d, &table, Some(&filter));
    assert_eq!(calls_of(&rows, 1), 3);

    // delete returns every row, then storing them again writes one group
    let deleted = load_all(&d, &table, None);
    assert_eq!(deleted.len(), 2);
    let regrouped = Group::store(&d, &deleted).unwrap();
    assert_eq!(regrouped.len(), 1);
    let rows = regrouped[0].decompress(&d).unwrap();
    assert_eq!(rows[0][1], Value::Int64(1));
    assert_eq!(rows[1][1], Value::Int64(2));
    assert_eq!(rows[1][2], f64_bits(2.0));
}

#[test]
fn store_empty_writes_nothing() {
    let d = no_timestamp_descriptor();
    assert_eq!(Group::store(&d, &vec![]).unwrap().len(), 0);
    assert_eq!(Group::store_grouped(&d, &vec![], &vec![]).unwrap().len(), 0);
}

#[test]
fn store_buckets_by_group_key() {
    let d = no_timestamp_descriptor();
    let rows = vec![
        vec![Value::Int64(1), Value::Int64(10), f64_bits(0.5)],
        vec![Value::Int64(2), Value::Int64(20), f64_bits(1.5)],
        vec![Value::Int64(1), Value::Int64(11), f64_bits(2.5)],
    ];
    let groups = Group::store(&d, &rows).unwrap();
    assert_eq!(groups.len(), 2);
    assert_eq!(groups[0].keys, vec![Value::Int64(1)]);
    assert_eq!(groups[1].keys, vec![Value::Int64(2)]);
    assert!(groups[0].columns[0].is_empty());
    assert_eq!(groups[0].decompress(&d).unwrap(), vec![rows[0].clone(), rows[2].clone()]);
    assert_eq!(groups[1].decompress(&d).unwrap(), vec![rows[1].clone()]);
}

fn timestamp_descriptor() -> Descriptor {
    descriptor(
        vec![
            field("database_id", FieldType::Int64),
            field("collected_at", FieldType::Timestamp),
            field("fingerprint", FieldType::Int64),
            field("calls", FieldType::Int64),
            field("total_time", FieldType::Float64),
        ],
        Some("collected_at"),
        &["database_id"],
        None,
    )
}

fn minute(start: Timestamp, m: i64) -> Timestamp {
    Timestamp { secs: start.secs + 60 * m, nanos: start.nanos }
}

fn overlaps(g: &Group, r: &TimeRange) -> bool {
    let (s, e) = (g.start_at.unwrap(), g.end_at.unwrap());
    (e.secs, e.nanos) >= (r.start.secs, r.start.nanos) && (s.secs, s.nanos) <= (r.end.secs, r.end.nanos)
}

#[test]
fn timestamp() {
    let d = timestamp_descriptor();
    let start = Timestamp { secs: 1_767_222_000, nanos: 0 };
    let mut table = Vec::new();
    let mut m = 0;
    for _ in 0..3 {
        let mut rows = Vec::new();
        for _ in 1..=10 {
            m += 1;
            rows.push(vec![Value::Int64(1), Value::Time(minute(start, m)), Value::Int64(1), Value::Int64(1), f64_bits(1.0)]);
        }
        table.extend(Group::store(&d, &rows).unwrap());
    }
    assert_eq!(table.len(), 3);
    assert_eq!(table[0].start_at, Some(minute(start, 1)));
    assert_eq!(table[0].end_at, Some(minute(start, 10)));

    let range = TimeRange { start: minute(start, 3), end: minute(start, 26) };
    let filter = Filter::new(&d, vec![vec![Value::Int64(1)]], Some(range));
    let loaded: Vec<Group> = table.iter().filter(|g| overlaps(g, &range)).cloned().collect();
    assert_eq!(loaded.len(), 3);
    let rows = load_all(&d, &loaded, Some(&filter));
    assert_eq!(calls_of(&rows, 3), 24);
    assert_eq!(rows.first().unwrap()[1], Value::Time(minute(start, 3)));
    assert_eq!(rows.last().unwrap()[1], Value::Time(minute(start, 26)));

    // delete everything and store it again, one group per day
    let deleted = load_all(&d, &table, None);
    assert_eq!(deleted.len(), 30);
    let days: Vec<i64> = deleted
        .iter()
        .map(|r| match r[1] {
            Value::Time(t) => t.secs.div_euclid(86_400),
            _ => panic!("not a time"),
        })
        .collect();
    let regrouped = Group::store_grouped(&d, &deleted, &days).unwrap();
    assert_eq!(regrouped.len(), 1);
    assert_eq!(regrouped[0].start_at, Some(minute(start, 1)));
    assert_eq!(regrouped[0].end_at, Some(minute(start, 30)));
    assert_eq!(regrouped[0].decompress(&d).unwrap(), deleted);
}

#[test]
fn sub_microsecond_times_are_dropped() {
    let d = timestamp_descriptor();
    let t = Timestamp { secs: -5, nanos: 123_456_789 };
    let groups = Group::store(&d, &vec![vec![Value::Int64(1), Value::Time(t), Value::Int64(1), Value::Int64(1), f64_bits(1.0)]]).unwrap();
    let rows = groups[0].decompress(&d).unwrap();
    assert_eq!(rows[0][1], Value::Time(Timestamp { secs: -5, nanos: 123_456_000 }));
}

#[test]
fn added_column_reads_as_default() {
    let old = timestamp_descriptor();
    let t = Timestamp { secs: 1_000, nanos: 0 };
    let groups = Group::store(&old, &vec![vec![Value::Int64(1), Value::Time(t), Value::Int64(7), Value::Int64(1), f64_bits(1.0)]]).unwrap();
    let new = descriptor(
        vec![
            field("database_id", FieldType::Int64),
            field("collected_at", FieldType::Timestamp),
            field("fingerprint", FieldType::Int64),
            field("calls", FieldType::Int64),
            field("total_time", FieldType::Float64),
            field("new_col", FieldType::Int32),
            field("flag", FieldType::Bool),
        ],
        Some("collected_at"),
        &["database_id"],
        None,
    );
    let mut g = groups[0].clone();
    g.columns.push(Vec::new());
    g.columns.push(Vec::new());
    let rows = g.decompress(&new).unwrap();
    assert_eq!(rows.len(), 1);
    assert_eq!(rows[0][2], Value::Int64(7));
    assert_eq!(rows[0][5], Value::Int32(0));
    assert_eq!(rows[0][6], Value::Bool(false));
}

#[test]
fn float_round() {
    // the caller scales floats: round(x * 10^d), half away from zero
    for (d_places, expected) in [(2u32, 2.46f64), (3, 2.47)] {
        let d = descriptor(
            vec![field("database_id", FieldType::Int64), field("calls", FieldType::Int64), field("total_time", FieldType::Float64)],
            None,
            &["database_id"],
            Some(d_places),
        );
        let scale = 10f64.powi(d_places as i32);
        let scaled = (1.2345f64 * scale).round() as i64;
        let mut table = Vec::new();
        table.extend(Group::store(&d, &vec![vec![Value::Int64(1), Value::Int64(1), Value::Scaled(scaled)]]).unwrap());
        table.extend(Group::store(&d, &vec![vec![Value::Int64(1), Value::Int64(2), Value::Scaled(scaled)]]).unwrap());
        let mut total = 0.0;
        for row in load_all(&d, &table, None) {
            match row[2] {
                Value::Scaled(x) => total += x as f64 / scale,
                _ => panic!("not scaled"),
            }
        }
        assert_eq!(total, expected);
    }
}

#[test]
fn boolean() {
    let d = descriptor(
        vec![field("database_id", FieldType::Int64), field("calls", FieldType::Int64), field("toplevel", FieldType::Bool)],
        None,
        &["database_id"],
        None,
    );
    let stats = vec![
        vec![Value::Int64(1), Value::Int64(1), Value::Bool(true)],
        vec![Value::Int64(1), Value::Int64(2), Value::Bool(false)],
    ];
    let groups = Group::store(&d, &stats).unwrap();
    assert_eq!(groups.len(), 1);
    let filter = Filter::new(&d, vec![vec![Value::Int64(1)]], None);
    assert_eq!(load_all(&d, &groups, Some(&filter)), stats);
}

#[test]
fn no_group_by() {
    let d = descriptor(
        vec![field("database_id", FieldType::Int64), field("calls", FieldType::Int64), field("total_time", FieldType::Float32)],
        None,
        &[],
        None,
    );
    let a = vec![Value::Int64(1), Value::Int64(1), Value::Float32Bits(1.0f32.to_bits())];
    let b = vec![Value::Int64(1), Value::Int64(2), Value::Float32Bits(2.0f32.to_bits())];
    let groups = Group::store(&d, &vec![a.clone(), b.clone()]).unwrap();
    assert_eq!(groups.len(), 1);
    assert!(groups[0].keys.is_empty());
    assert_eq!(groups[0].decompress(&d).unwrap(), vec![a, b]);
    assert_eq!(d.load_sql(), "SELECT * FROM query_stats WHERE true");
}

#[test]
fn post_filter_on_payload_and_delete_ignores_it() {
    let d = timestamp_descriptor();
    let t = Timestamp { secs: 1_767_222_000, nanos: 0 };
    let t2 = Timestamp { secs: t.secs + 1, nanos: 0 };
    let s = |fp: i64, at: Timestamp| vec![Value::Int64(5), Value::Time(at), Value::Int64(fp), Value::Int64(1), f64_bits(1.0)];
    let stats = vec![s(1, t), s(2, t), s(3, t2)];
    let groups = Group::store(&d, &stats).unwrap();

    let single = Filter::new(&d, vec![vec![Value::Int64(5)]], Some(TimeRange { start: t, end: t }));
    assert_eq!(load_all(&d, &groups, Some(&single)), vec![s(1, t), s(2, t)]);
    let whole = Filter::new(&d, vec![vec![Value::Int64(5)]], Some(TimeRange { start: t, end: t2 }));
    assert_eq!(load_all(&d, &groups, Some(&whole)), stats);
    let mut optional = whole.clone();
    optional.constraints[2] = Constraint::Values(vec![Value::Int64(2)]);
    assert_eq!(load_all(&d, &groups, Some(&optional)), vec![s(2, t)]);
    assert_eq!(load_all(&d, &groups, None), stats);
}

#[test]
fn codec_round_trip() {
    let col = Column::I64(vec![5, -3, 1 << 40]);
    let bytes = compress_column(&col).unwrap();
    assert!(!bytes.is_empty());
    assert_eq!(&bytes[..4], &[112, 99, 111, 33]);
    match decompress_column(Wire::I64, &bytes).unwrap() {
        Column::I64(v) => assert_eq!(v, vec![5, -3, 1 << 40]),
        _ => panic!("wrong column type"),
    }
    for col in [Column::I32(vec![1, -2]), Column::U16(vec![0, 1, 1]), Column::U32(vec![7]), Column::U64(vec![u64::MAX, 0])] {
        let bytes = compress_column(&col).unwrap();
        assert!(bytes.len() > 4);
    }
    match decompress_column(Wire::U64, &Vec::new()).unwrap() {
        Column::U64(v) => assert!(v.is_empty()),
        _ => panic!("wrong column type"),
    }
    assert_eq!(decompress_column(Wire::I64, &vec![1, 2, 3]).unwrap_err(), CodecError::Decode);
}

#[test]
fn copy_row_follows_store_columns() {
    let d = timestamp_descriptor();
    let t = Timestamp { secs: 1_000, nanos: 0 };
    let t2 = Timestamp { secs: 2_000, nanos: 0 };
    let rows = vec![
        vec![Value::Int64(9), Value::Time(t2), Value::Int64(1), Value::Int64(1), f64_bits(1.0)],
        vec![Value::Int64(9), Value::Time(t), Value::Int64(2), Value::Int64(2), f64_bits(2.0)],
    ];
    let g = Group::store(&d, &rows).unwrap().remove(0);
    let row = g.copy_row(&d);
    assert_eq!(row.len(), 7);
    assert!(matches!(row[0], CopyValue::Key(Value::Int64(9))));
    assert!(matches!(row[1], CopyValue::Time(x) if x == t));
    assert!(matches!(row[2], CopyValue::Time(x) if x == t2));
    for (k, i) in [(3usize, 1usize), (4, 2), (5, 3), (6, 4)] {
        match &row[k] {
            CopyValue::Bytes(b) => assert_eq!(*b, g.columns[i]),
            _ => panic!("not a column"),
        }
    }
}
