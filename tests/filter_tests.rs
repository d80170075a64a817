use pco_store::filter::{Constraint, Filter, FilterError};
use pco_store::input::{DeserializeError, Input};
use pco_store::record::Value;
use pco_store::schema::{Arguments, Descriptor, Field, FieldType};
use pco_store::time::{TimeRange, Timestamp};

fn descriptor() -> Descriptor {
    let fields = vec![
        Field { name: "database_id".to_string(), ty: FieldType::Int64 },
        Field { name: "granularity".to_string(), ty: FieldType::Int32 },
        Field { name: "collected_at".to_string(), ty: FieldType::Timestamp },
        Field { name: "fingerprint".to_string(), ty: FieldType::Int64 },
    ];
    let args = Arguments {
        timestamp: Some("collected_at".to_string()),
        group_by: vec!["database_id".to_string(), "granularity".to_string()],
        float_round: None,
        table_name: None,
    };
    Descriptor::new("QueryStat".to_string(), fields, args).unwrap()
}

// 2026-01-01T01:01:02.345678Z and 2026-01-01T05:03:04.567890Z
fn start() -> Timestamp {
    Timestamp { secs: 1_767_229_262, nanos: 345_678_000 }
}
fn end() -> Timestamp {
    Timestamp { secs: 1_767_243_784, nanos: 567_890_000 }
}

fn range_of(f: &Filter) -> Option<TimeRange> {
    match &f.constraints[2] {
        Constraint::Range(r) => *r,
        _ => panic!("not a range"),
    }
}

fn values_of(f: &Filter, i: usize) -> Vec<Value> {
    match &f.constraints[i] {
        Constraint::Values(v) => v.clone(),
        _ => panic!("not a value list"),
    }
}

#[test]
fn new_sets_required_constraints() {
    let d = descriptor();
    let f = Filter::new(&d, vec![vec![Value::Int64(5)], vec![Value::Int32(60)]], Some(TimeRange { start: start(), end: end() }));
    assert_eq!(values_of(&f, 0), vec![Value::Int64(5)]);
    assert_eq!(values_of(&f, 1), vec![Value::Int32(60)]);
    assert_eq!(range_of(&f), Some(TimeRange { start: start(), end: end() }));
    assert_eq!(values_of(&f, 3), vec![]);
}

#[test]
fn range_truncate_drops_nanoseconds() {
    let d = descriptor();
    let s = Timestamp { secs: start().secs, nanos: start().nanos + 123 };
    let e = Timestamp { secs: end().secs, nanos: end().nanos + 456 };
    let mut f = Filter::new(&d, vec![vec![Value::Int64(5)], vec![Value::Int32(60)]], Some(TimeRange { start: s, end: e }));
    assert_eq!(range_of(&f), Some(TimeRange { start: s, end: e }));
    f.range_truncate().unwrap();
    assert_eq!(range_of(&f), Some(TimeRange { start: start(), end: end() }));
    // truncating again changes nothing
    f.range_truncate().unwrap();
    assert_eq!(range_of(&f), Some(TimeRange { start: start(), end: end() }));
}

#[test]
fn range_helpers() {
    let d = descriptor();
    let t = Timestamp { secs: 1_700_000_000, nanos: 123_456_000 };
    let t2 = Timestamp { secs: t.secs + 1, nanos: t.nanos };
    let mut f = Filter::new(&d, vec![vec![], vec![]], Some(TimeRange { start: t, end: t2 }));
    assert_eq!(f.range_duration().unwrap(), 1_000_000_000);
    assert_eq!(f.range_bounds().unwrap(), (t, t2));
    let day: i128 = 86_400 * 1_000_000_000;
    f.range_shift(day).unwrap();
    assert_eq!(
        f.range_bounds().unwrap(),
        (Timestamp { secs: t.secs + 86_400, nanos: t.nanos }, Timestamp { secs: t2.secs + 86_400, nanos: t2.nanos })
    );
    f.range_shift(-2 * day).unwrap();
    assert_eq!(
        f.range_bounds().unwrap(),
        (Timestamp { secs: t.secs - 86_400, nanos: t.nanos }, Timestamp { secs: t2.secs - 86_400, nanos: t2.nanos })
    );
    // shifting back restores the range
    f.range_shift(day).unwrap();
    assert_eq!(f.range_bounds().unwrap(), (t, t2));
    // a shift across a second boundary carries into the seconds
    f.range_shift(-200_000_000).unwrap();
    assert_eq!(f.range_bounds().unwrap().0, Timestamp { secs: t.secs - 1, nanos: 923_456_000 });
    // leaving the supported span is refused and changes nothing
    let before = f.range_bounds().unwrap();
    assert_eq!(f.range_shift(i128::MAX), Err(FilterError::OutOfRange));
    assert_eq!(f.range_bounds().unwrap(), before);
    let none = Filter::unconstrained(&d);
    assert_eq!(none.range_bounds(), Err(FilterError::NoTimestamp));
    assert_eq!(none.range_duration(), Err(FilterError::NoTimestamp));
}

#[test]
fn filter_predicate() {
    let d = descriptor();
    let mut f = Filter::new(&d, vec![vec![Value::Int64(5)], vec![Value::Int32(60)]], Some(TimeRange { start: start(), end: end() }));
    let row = |db: i64, t: Timestamp, fp: i64| vec![Value::Int64(db), Value::Int32(60), Value::Time(t), Value::Int64(fp)];
    assert!(f.filter(&d, &row(5, start(), 1)));
    assert!(f.filter(&d, &row(5, end(), 1)));
    assert!(!f.filter(&d, &row(6, start(), 1)));
    assert!(!f.filter(&d, &row(5, Timestamp { secs: end().secs, nanos: end().nanos + 1 }, 1)));
    f.constraints[3] = Constraint::Values(vec![Value::Int64(2)]);
    assert!(!f.filter(&d, &row(5, start(), 1)));
    assert!(f.filter(&d, &row(5, start(), 2)));
}

fn text(s: &str) -> Input {
    Input::Text(s.to_string())
}

#[test]
fn deserialize_filters() {
    let d = descriptor();
    let e = |k: &str, v: Input| (k.to_string(), v);
    let f = Filter::from_entries(&d, &vec![
        e("database_id", Input::List(vec![Input::Int(1)])),
        e("collected_at", Input::List(vec![text("2026-01-01T01:01:02.345678Z"), text("2026-01-01T05:03:04.567890Z")])),
    ])
    .unwrap();
    assert_eq!(values_of(&f, 0), vec![Value::Int64(1)]);
    assert_eq!(range_of(&f), Some(TimeRange { start: start(), end: end() }));

    let f = Filter::from_entries(&d, &vec![e("database_id", Input::Int(1)), e("collected_at", text("2026-01-01T01:01:02.345678Z"))]).unwrap();
    assert_eq!(values_of(&f, 0), vec![Value::Int64(1)]);
    assert_eq!(range_of(&f), Some(TimeRange { start: start(), end: start() }));

    let f = Filter::from_entries(&d, &vec![e("collected_at", Input::List(vec![text("2026-01-01T01:01:02.345678Z")]))]).unwrap();
    assert_eq!(range_of(&f), Some(TimeRange { start: start(), end: start() }));
    let f = Filter::from_entries(&d, &vec![e("collected_at", Input::List(vec![]))]).unwrap();
    assert_eq!(range_of(&f), None);
    let f = Filter::from_entries(&d, &vec![e("collected_at", Input::Null)]).unwrap();
    assert_eq!(range_of(&f), None);
    let f = Filter::from_entries(&d, &vec![e("collected_at", text(""))]).unwrap();
    assert_eq!(range_of(&f), None);
    let f = Filter::from_entries(&d, &vec![e("fingerprint", Input::Null)]).unwrap();
    assert_eq!(values_of(&f, 3), vec![]);

    assert_eq!(
        Filter::from_entries(&d, &vec![e("other", Input::Int(1))]).unwrap_err(),
        DeserializeError::UnknownField("other".to_string())
    );
    assert_eq!(
        Filter::from_entries(&d, &vec![e("granularity", Input::Int(1 << 40))]).unwrap_err(),
        DeserializeError::InvalidValue("granularity".to_string())
    );
    assert_eq!(
        Filter::from_entries(&d, &vec![e("collected_at", text("yesterday"))]).unwrap_err(),
        DeserializeError::InvalidTime("collected_at".to_string())
    );
    assert_eq!(
        Filter::from_entries(&d, &vec![e("collected_at", Input::Int(3))]).unwrap_err(),
        DeserializeError::InvalidTime("collected_at".to_string())
    );
    assert_eq!(
        Filter::from_entries(&d, &vec![e("fingerprint", Input::Int(1)), e("fingerprint", Input::Int(2))]).unwrap_err(),
        DeserializeError::DuplicateField("fingerprint".to_string())
    );
}

#[test]
fn timestamps_from_micros() {
    let t = Timestamp::from_timestamp_micros(-1).unwrap();
    assert_eq!(t, Timestamp { secs: -1, nanos: 999_999_000 });
    assert_eq!(t.timestamp_micros(), -1);
    assert_eq!(Timestamp::from_timestamp_micros(i64::MAX), None);
    let t = Timestamp { secs: 5, nanos: 1_999 };
    assert_eq!(t.truncate_nanos(), Timestamp { secs: 5, nanos: 1_000 });
    assert_eq!(t.timestamp_micros(), 5_000_001);
}

#[test]
fn deserialize_rejects_other_shapes() {
    let d = descriptor();
    let e = |k: &str, v: Input| (k.to_string(), v);
    assert_eq!(
        Filter::from_entries(&d, &vec![e("fingerprint", Input::Other)]).unwrap_err(),
        DeserializeError::InvalidValue("fingerprint".to_string())
    );
    assert_eq!(
        Filter::from_entries(&d, &vec![e("fingerprint", Input::List(vec![Input::Int(1), Input::Null]))]).unwrap_err(),
        DeserializeError::InvalidValue("fingerprint".to_string())
    );
    let three = Input::List(vec![text("2026-01-01T01:01:02Z"), text("2026-01-01T01:01:03Z"), text("2026-01-01T01:01:04Z")]);
    assert_eq!(
        Filter::from_entries(&d, &vec![e("collected_at", three)]).unwrap_err(),
        DeserializeError::InvalidTime("collected_at".to_string())
    );
    let second_null = Input::List(vec![text("2026-01-01T01:01:02.345678Z"), Input::Null]);
    assert_eq!(
        Filter::from_entries(&d, &vec![e("collected_at", second_null)]).unwrap_err(),
        DeserializeError::InvalidTime("collected_at".to_string())
    );
    assert_eq!(
        Filter::from_entries(&d, &vec![e("collected_at", Input::List(vec![Input::Null]))]).unwrap_err(),
        DeserializeError::InvalidTime("collected_at".to_string())
    );
    let first_null = Input::List(vec![Input::Null, text("2026-01-01T01:01:02.345678Z")]);
    assert_eq!(
        Filter::from_entries(&d, &vec![e("collected_at", first_null)]).unwrap_err(),
        DeserializeError::InvalidTime("collected_at".to_string())
    );
    assert_eq!(
        Filter::from_entries(&d, &vec![e("collected_at", Input::List(vec![Input::Int(1)]))]).unwrap_err(),
        DeserializeError::InvalidTime("collected_at".to_string())
    );
    assert_eq!(
        Filter::from_entries(&d, &vec![e("collected_at", Input::Bool(true))]).unwrap_err(),
        DeserializeError::InvalidTime("collected_at".to_string())
    );
    let f = Filter::from_entries(&d, &vec![e("granularity", Input::List(vec![Input::Int(60), Input::Int(3600)]))]).unwrap();
    assert_eq!(values_of(&f, 1), vec![Value::Int32(60), Value::Int32(3600)]);
}

#[test]
fn deserialize_error_messages() {
    let d = descriptor();
    let err = Filter::from_entries(&d, &vec![("collected_at".to_string(), text("yesterday"))]).unwrap_err();
    assert!(err.message().starts_with("invalid time format: "));
    assert_eq!(err.message(), "invalid time format: collected_at");
    assert_eq!(DeserializeError::UnknownField("x".to_string()).message(), "unknown field x");
    assert_eq!(DeserializeError::DuplicateField("x".to_string()).message(), "duplicate field x");
    assert_eq!(DeserializeError::InvalidValue("x".to_string()).message(), "invalid value for x");
}
