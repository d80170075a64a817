use pco_store::query::{Fields, Param};
use pco_store::schema::{
    copy_type, derive_table_name, same_text, Arguments, ConfigError, Descriptor, Field, FieldType, OptionValue, Role, SqlType,
};
use pco_store::filter::{Constraint, Filter, FilterError};
use pco_store::record::{records_fit_check, Value};
use pco_store::time::{TimeRange, Timestamp};

fn field(name: &str, ty: FieldType) -> Field {
    Field { name: name.to_string(), ty }
}

fn args(timestamp: Option<&str>, group_by: &[&str], float_round: Option<u32>, table_name: Option<&str>) -> Arguments {
    Arguments {
        timestamp: timestamp.map(|s| s.to_string()),
        group_by: group_by.iter().map(|s| s.to_string()).collect(),
        float_round,
        table_name: table_name.map(|s| s.to_string()),
    }
}

fn query_stats() -> Descriptor {
    let fields = vec![
        field("database_id", FieldType::Int64),
        field("collected_at", FieldType::Timestamp),
        field("fingerprint", FieldType::Int64),
        field("calls", FieldType::Int64),
        field("total_time", FieldType::Float64),
    ];
    Descriptor::new("QueryStat".to_string(), fields, args(Some("collected_at"), &["database_id"], None, None)).unwrap()
}

#[test]
fn copy_type_names() {
    assert_eq!(copy_type("f32"), "FLOAT4");
    assert_eq!(copy_type("f64"), "FLOAT8");
    assert_eq!(copy_type("i32"), "INT4");
    assert_eq!(copy_type("i64"), "INT8");
    assert_eq!(copy_type("SystemTime"), "TIMESTAMPTZ");
}

#[test]
fn same_text_compares_characters() {
    assert!(same_text("abc", "abc"));
    assert!(!same_text("abc", "abd"));
    assert!(!same_text("abc", "ab"));
    assert!(same_text("", ""));
}

#[test]
fn table_name_is_derived_in_snake_case() {
    assert_eq!(derive_table_name("QueryStat"), "query_stats");
    assert_eq!(derive_table_name("ABC"), "a_b_cs");
    assert_eq!(derive_table_name("stat"), "stats");
    assert_eq!(derive_table_name(""), "s");
    assert_eq!(query_stats().table_name, "query_stats");
}

#[test]
fn table_name_option_is_kept() {
    let fields = vec![field("database_id", FieldType::Int64), field("calls", FieldType::Int64)];
    let d = Descriptor::new("QueryStat".to_string(), fields, args(None, &[], None, Some("other"))).unwrap();
    assert_eq!(d.table_name, "other");
    assert_eq!(d.load_sql(), "SELECT * FROM other WHERE true");
}

#[test]
fn descriptor_resolves_roles() {
    let d = query_stats();
    assert_eq!(d.timestamp, Some(1));
    assert_eq!(d.group_by, vec![0]);
    assert_eq!(d.float_round, None);
}

#[test]
fn descriptor_errors() {
    let fields = || vec![field("database_id", FieldType::Int64), field("at", FieldType::Timestamp), field("x", FieldType::Float64)];
    let err = |a: Arguments| Descriptor::new("S".to_string(), fields(), a).unwrap_err();
    assert_eq!(err(args(None, &["nope"], None, None)), ConfigError::UnknownField("nope".to_string()));
    assert_eq!(err(args(None, &["x"], None, None)), ConfigError::UnsupportedGroupKey("x".to_string()));
    assert_eq!(err(args(None, &["database_id", "database_id"], None, None)), ConfigError::DuplicateGroupKey("database_id".to_string()));
    assert_eq!(err(args(Some("x"), &[], None, None)), ConfigError::NotATimestamp("x".to_string()));
    assert_eq!(err(args(Some("missing"), &[], None, None)), ConfigError::UnknownField("missing".to_string()));
    assert_eq!(err(args(None, &[], Some(0), None)), ConfigError::ZeroFloatRound);
    let dup = vec![field("a", FieldType::Int64), field("a", FieldType::Int32)];
    assert_eq!(Descriptor::new("S".to_string(), dup, args(None, &[], None, None)).unwrap_err(), ConfigError::DuplicateField("a".to_string()));
    let keyed = vec![field("at", FieldType::Timestamp)];
    assert!(Descriptor::new("S".to_string(), keyed, args(Some("at"), &["at"], None, None)).is_err());
}

#[test]
fn arguments_parse() {
    let entries = vec![
        ("timestamp".to_string(), OptionValue::Ident("collected_at".to_string())),
        ("group_by".to_string(), OptionValue::List(vec!["database_id".to_string(), "granularity".to_string()])),
        ("float_round".to_string(), OptionValue::Int(2)),
    ];
    let a = Arguments::parse(&entries).unwrap();
    assert_eq!(a.timestamp, Some("collected_at".to_string()));
    assert_eq!(a.group_by, vec!["database_id".to_string(), "granularity".to_string()]);
    assert_eq!(a.float_round, Some(2));
    assert_eq!(a.table_name, None);

    let later = vec![
        ("table_name".to_string(), OptionValue::Ident("a".to_string())),
        ("table_name".to_string(), OptionValue::Ident("b".to_string())),
    ];
    assert_eq!(Arguments::parse(&later).unwrap().table_name, Some("b".to_string()));

    let unknown = vec![("nope".to_string(), OptionValue::Int(1))];
    assert_eq!(Arguments::parse(&unknown).unwrap_err(), ConfigError::UnknownOption("nope".to_string()));
    let zero = vec![("float_round".to_string(), OptionValue::Int(0))];
    assert_eq!(Arguments::parse(&zero).unwrap_err(), ConfigError::InvalidOption("float_round".to_string()));
    let repeated = vec![(
        "group_by".to_string(),
        OptionValue::List(vec!["a".to_string(), "b".to_string(), "a".to_string()]),
    )];
    assert_eq!(Arguments::parse(&repeated).unwrap_err(), ConfigError::DuplicateGroupKey("a".to_string()));
    let shape = vec![("group_by".to_string(), OptionValue::Ident("x".to_string()))];
    assert_eq!(Arguments::parse(&shape).unwrap_err(), ConfigError::InvalidOption("group_by".to_string()));
}

#[test]
fn sql_templates() {
    let d = query_stats();
    assert_eq!(d.load_sql(), "SELECT * FROM query_stats WHERE database_id = ANY($1) AND end_at >= $2 AND start_at <= $3");
    assert_eq!(
        d.delete_sql(),
        "DELETE FROM query_stats WHERE database_id = ANY($1) AND end_at >= $2 AND start_at <= $3 RETURNING *"
    );
    assert_eq!(
        d.store_sql(),
        "COPY query_stats (database_id, start_at, end_at, collected_at, fingerprint, calls, total_time) FROM STDIN BINARY"
    );
    assert_eq!(
        d.store_types(),
        vec![SqlType::Int8, SqlType::TimestampTz, SqlType::TimestampTz, SqlType::Bytea, SqlType::Bytea, SqlType::Bytea, SqlType::Bytea]
    );
}

#[test]
fn sql_with_two_keys_numbers_parameters() {
    let fields = vec![
        field("database_id", FieldType::Int64),
        field("granularity", FieldType::Int32),
        field("collected_at", FieldType::Timestamp),
        field("fingerprint", FieldType::Int64),
    ];
    let d = Descriptor::new(
        "QueryStat".to_string(),
        fields,
        args(Some("collected_at"), &["database_id", "granularity"], None, None),
    )
    .unwrap();
    assert_eq!(
        d.where_clause(),
        "database_id = ANY($1) AND granularity = ANY($2) AND end_at >= $3 AND start_at <= $4"
    );
    assert_eq!(d.store_types()[1], SqlType::Int4);
}

#[test]
fn query_params_require_keys_and_range() {
    let d = query_stats();
    let mut f = Filter::unconstrained(&d);
    let err = d.query_params(&mut f).unwrap_err();
    assert_eq!(err, FilterError::Required("database_id".to_string()));
    assert_eq!(err.message(), "database_id is required");

    let mut f = Filter::unconstrained(&d);
    f.constraints[0] = Constraint::Values(vec![Value::Int64(1)]);
    assert_eq!(d.query_params(&mut f).unwrap_err(), FilterError::Required("collected_at".to_string()));

    let start = Timestamp { secs: 100, nanos: 1_234_567 };
    let end = Timestamp { secs: 200, nanos: 999 };
    let mut f = Filter::new(&d, vec![vec![Value::Int64(1)]], Some(TimeRange { start, end }));
    let params = d.query_params(&mut f).unwrap();
    assert_eq!(params.len(), 3);
    assert!(matches!(&params[0], Param::Values(v) if *v == vec![Value::Int64(1)]));
    assert!(matches!(params[1], Param::Time(t) if t == Timestamp { secs: 100, nanos: 1_234_000 }));
    assert!(matches!(params[2], Param::Time(t) if t == Timestamp { secs: 200, nanos: 0 }));
}

#[test]
fn fields_selection() {
    let d = query_stats();
    let filter = Filter::new(&d, vec![vec![Value::Int64(1)]], Some(TimeRange { start: Timestamp { secs: 0, nanos: 0 }, end: Timestamp { secs: 1, nanos: 0 } }));
    assert_eq!(Fields::all().fetched(&d, &filter), vec![true, true, true, true, true]);
    let none = Fields::from_names(&d, vec![]).unwrap();
    assert_eq!(none.fetched(&d, &filter), vec![true, true, false, false, false]);
    let calls = Fields::from_names(&d, vec!["calls".to_string()]).unwrap();
    assert_eq!(calls.fetched(&d, &filter), vec![true, true, false, true, false]);
    let mut constrained = filter.clone();
    constrained.constraints[2] = Constraint::Values(vec![Value::Int64(7)]);
    assert_eq!(calls.fetched(&d, &constrained), vec![true, true, true, true, false]);
    assert_eq!(
        Fields::from_names(&d, vec!["other".to_string()]).unwrap_err(),
        FilterError::UnknownField("other".to_string())
    );
}

#[test]
fn roles_and_column_types() {
    let d = query_stats();
    assert_eq!(d.role_of(0), Role::GroupKey);
    assert_eq!(d.role_of(1), Role::Timestamp);
    assert_eq!(d.role_of(2), Role::Payload);
    assert_eq!(d.column_type(0), SqlType::Int8);
    assert_eq!(d.column_type(1), SqlType::Bytea);
    assert_eq!(d.column_type(4), SqlType::Bytea);
}

#[test]
fn select_lists_fetched_columns() {
    let d = query_stats();
    let filter = Filter::new(&d, vec![vec![Value::Int64(1)]], Some(TimeRange { start: Timestamp { secs: 0, nanos: 0 }, end: Timestamp { secs: 1, nanos: 0 } }));
    assert_eq!(Fields::all().select(&d, &filter), "database_id, start_at, end_at, collected_at, fingerprint, calls, total_time");
    assert_eq!(Fields::from_names(&d, vec![]).unwrap().select(&d, &filter), "database_id, start_at, end_at, collected_at");
    let mut constrained = filter.clone();
    constrained.constraints[2] = Constraint::Values(vec![Value::Int64(7)]);
    let calls = Fields::from_names(&d, vec!["calls".to_string()]).unwrap();
    assert_eq!(calls.select(&d, &constrained), "database_id, start_at, end_at, collected_at, fingerprint, calls");
}

#[test]
fn shape_checks() {
    let d = query_stats();
    let t = Timestamp { secs: 0, nanos: 0 };
    let good = vec![Value::Int64(1), Value::Time(t), Value::Int64(2), Value::Int64(3), Value::Float64Bits(0)];
    assert!(records_fit_check(&d, &vec![good.clone()]));
    let mut scaled = good.clone();
    scaled[4] = Value::Scaled(1);
    assert!(!records_fit_check(&d, &vec![good.clone(), scaled]));
    assert!(!records_fit_check(&d, &vec![good[..3].to_vec()]));
    let filter = Filter::unconstrained(&d);
    assert!(filter.fits_check(&d));
    let mut bad = filter.clone();
    bad.constraints[1] = Constraint::Values(vec![]);
    assert!(!bad.fits_check(&d));
}

#[test]
fn load_sql_with_selected_columns() {
    let d = query_stats();
    let filter = Filter::new(&d, vec![vec![Value::Int64(1)]], Some(TimeRange { start: Timestamp { secs: 0, nanos: 0 }, end: Timestamp { secs: 1, nanos: 0 } }));
    let calls = Fields::from_names(&d, vec!["calls".to_string()]).unwrap();
    assert_eq!(
        calls.load_sql(&d, &filter),
        "SELECT database_id, start_at, end_at, collected_at, calls FROM query_stats WHERE database_id = ANY($1) AND end_at >= $2 AND start_at <= $3"
    );
}
