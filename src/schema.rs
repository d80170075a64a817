//! Record descriptions: fields, options, and the role of each field.

use vstd::prelude::*;

verus! {

/// The semantic type of a record field.
#[derive(Clone, Copy, Debug, PartialEq, Eq, Structural)]
pub enum FieldType {
    Int32,
    Int64,
    Float32,
    Float64,
    Bool,
    Timestamp,
}

/// What a field is used for when records are grouped.
#[derive(Clone, Copy, Debug, PartialEq, Eq, Structural)]
pub enum Role {
    /// Part of the group key: one scalar column per group.
    GroupKey,
    /// The declared timestamp: a compressed column plus `start_at` / `end_at`.
    Timestamp,
    /// Any other field: one compressed column.
    Payload,
}

/// The element type of an encoded column.
#[derive(Clone, Copy, Debug, PartialEq, Eq, Structural)]
pub enum Wire {
    I32,
    I64,
    U16,
    U32,
    U64,
}

/// The column type of a field in the database table.
#[derive(Clone, Copy, Debug, PartialEq, Eq, Structural)]
pub enum SqlType {
    Int4,
    Int8,
    Float4,
    Float8,
    TimestampTz,
    Bytea,
}

/// A named, typed field of a record.
#[derive(Clone, Debug)]
pub struct Field {
    pub name: String,
    pub ty: FieldType,
}

/// The options given with a record description.
#[derive(Clone, Debug)]
pub struct Arguments {
    /// The field holding the time of each record, if any.
    pub timestamp: Option<String>,
    /// The fields that make up the group key.
    pub group_by: Vec<String>,
    /// Decimal places kept for float fields, which are then stored as scaled integers.
    pub float_round: Option<u32>,
    /// The table name, when it is not derived from the record name.
    pub table_name: Option<String>,
}

/// Why a record description was refused.
#[derive(Clone, Debug, PartialEq, Eq)]
pub enum ConfigError {
    /// Two fields share a name.
    DuplicateField(String),
    /// An option names a field that the record does not have.
    UnknownField(String),
    /// A field is named twice in `group_by`.
    DuplicateGroupKey(String),
    /// A group key field is neither a 32-bit nor a 64-bit integer.
    UnsupportedGroupKey(String),
    /// The `timestamp` field is not timestamp-typed.
    NotATimestamp(String),
    /// The `timestamp` field is also a group key.
    RoleConflict(String),
    /// `float_round` is zero.
    ZeroFloatRound,
    /// An option key that is not understood.
    UnknownOption(String),
    /// An option value of the wrong shape.
    InvalidOption(String),
}

/// A validated record description, with each option resolved to field indices.
#[derive(Clone, Debug)]
pub struct Descriptor {
    pub name: String,
    pub fields: Vec<Field>,
    pub timestamp: Option<usize>,
    pub group_by: Vec<usize>,
    pub float_round: Option<u32>,
    pub table_name: String,
}

/// The names of a field list.
pub open spec fn names_of(fields: Seq<Field>) -> Seq<Seq<char>> {
    fields.map_values(|f: Field| f.name@)
}

/// Whether no two fields share a name.
pub open spec fn distinct_names(fields: Seq<Field>) -> bool {
    forall|i: int, j: int|
        0 <= i < j < fields.len() ==> #[trigger] fields[i].name@ != #[trigger] fields[j].name@
}

/// Whether some field is called `name`.
pub open spec fn has_field(fields: Seq<Field>, name: Seq<char>) -> bool {
    exists|i: int| 0 <= i < fields.len() && #[trigger] fields[i].name@ == name
}

/// Whether some field called `name` has type `ty`.
pub open spec fn has_field_of_type(fields: Seq<Field>, name: Seq<char>, ty: FieldType) -> bool {
    exists|i: int| 0 <= i < fields.len() && #[trigger] fields[i].name@ == name && fields[i].ty == ty
}

/// Whether the type may serve as a group key.
pub open spec fn is_key_type(ty: FieldType) -> bool {
    ty == FieldType::Int32 || ty == FieldType::Int64
}

/// Whether the field called `name` may serve as a group key.
pub open spec fn key_field_ok(fields: Seq<Field>, name: Seq<char>) -> bool {
    forall|i: int| 0 <= i < fields.len() && #[trigger] fields[i].name@ == name ==> is_key_type(fields[i].ty)
}

/// Whether the options fit the field list.
pub open spec fn valid_arguments(fields: Seq<Field>, args: Arguments) -> bool {
    let keys = args.group_by@.map_values(|s: String| s@);
    &&& distinct_names(fields)
    &&& forall|k: int| 0 <= k < keys.len() ==> has_field(fields, #[trigger] keys[k])
    &&& forall|k: int, l: int| 0 <= k < l < keys.len() ==> #[trigger] keys[k] != #[trigger] keys[l]
    &&& forall|k: int| 0 <= k < keys.len() ==> key_field_ok(fields, #[trigger] keys[k])
    &&& args.timestamp matches Some(t) ==> has_field_of_type(fields, t@, FieldType::Timestamp)
    &&& args.timestamp matches Some(t) ==> !keys.contains(t@)
    &&& args.float_round matches Some(d) ==> d > 0
}

/// Relies on `char::is_uppercase`: whether the character is uppercase.
pub uninterp spec fn upper_of(c: char) -> bool;

/// Relies on `char::to_lowercase`: the lowercase form of the character.
pub uninterp spec fn lower_of(c: char) -> Seq<char>;

/// The snake case form of a name: `_` before each uppercase character but the
/// first, and every character lowercased.
pub open spec fn snake_of(s: Seq<char>) -> Seq<char>
    decreases s.len(),
{
    if s.len() == 0 {
        Seq::empty()
    } else {
        let prefix = snake_of(s.drop_last());
        let sep = if upper_of(s.last()) && prefix.len() > 0 { seq!['_'] } else { Seq::empty() };
        prefix + sep + lower_of(s.last())
    }
}

/// The table name derived from a record name: its snake case form with `s` appended.
pub open spec fn table_name_of(name: Seq<char>) -> Seq<char> {
    snake_of(name) + seq!['s']
}

/// The PostgreSQL binary copy type of a Rust scalar type name, if it has one.
pub open spec fn copy_type_of(rust_type: Seq<char>) -> Option<Seq<char>> {
    if rust_type == "f32"@ {
        Some("FLOAT4"@)
    } else if rust_type == "f64"@ {
        Some("FLOAT8"@)
    } else if rust_type == "i32"@ {
        Some("INT4"@)
    } else if rust_type == "i64"@ {
        Some("INT8"@)
    } else if rust_type == "SystemTime"@ {
        Some("TIMESTAMPTZ"@)
    } else {
        None
    }
}

/// Relies on `char::is_uppercase`.
#[verifier::external_body]
fn is_uppercase(c: char) -> (r: bool)
    ensures
        r == upper_of(c),
{
    c.is_uppercase()
}

/// Relies on `char::to_lowercase`, collected into a string.
#[verifier::external_body]
fn lowercase(c: char) -> (r: String)
    ensures
        r@ == lower_of(c),
{
    c.to_lowercase().to_string()
}

/// Whether two strings hold the same characters.
pub fn same_text(a: &str, b: &str) -> (r: bool)
    ensures
        r == (a@ == b@),
{
    let n = a.unicode_len();
    if n != b.unicode_len() {
        return false;
    }
    let mut i: usize = 0;
    while i < n
        invariant
            n == a@.len() == b@.len(),
            i <= n,
            a@.subrange(0, i as int) == b@.subrange(0, i as int),
        decreases n - i,
    {
        if a.get_char(i) != b.get_char(i) {
            return false;
        }
        assert(a@.subrange(0, i + 1) == a@.subrange(0, i as int).push(a@[i as int]));
        assert(b@.subrange(0, i + 1) == b@.subrange(0, i as int).push(b@[i as int]));
        i += 1;
    }
    assert(a@ == a@.subrange(0, n as int));
    assert(b@ == b@.subrange(0, n as int));
    true
}

/// The PostgreSQL binary copy type of a Rust scalar type name.
pub fn copy_type(rust_type: &str) -> (r: &'static str)
    requires
        copy_type_of(rust_type@) is Some,
    ensures
        r@ == copy_type_of(rust_type@)->0,
{
    if same_text(rust_type, "f32") {
        "FLOAT4"
    } else if same_text(rust_type, "f64") {
        "FLOAT8"
    } else if same_text(rust_type, "i32") {
        "INT4"
    } else if same_text(rust_type, "i64") {
        "INT8"
    } else {
        "TIMESTAMPTZ"
    }
}

/// The table name derived from a record name, such as `query_stats` for `QueryStat`.
pub fn derive_table_name(name: &str) -> (r: String)
    ensures
        r@ == table_name_of(name@),
{
    let n = name.unicode_len();
    let mut out = String::new();
    let mut i: usize = 0;
    while i < n
        invariant
            n == name@.len(),
            i <= n,
            out@ == snake_of(name@.subrange(0, i as int)),
        decreases n - i,
    {
        let c = name.get_char(i);
        assert(name@.subrange(0, i + 1).drop_last() == name@.subrange(0, i as int));
        if is_uppercase(c) && out.unicode_len() > 0 {
            out.append("_");
        }
        let lower = lowercase(c);
        out.append(lower.as_str());
        proof { reveal_strlit("_"); }
        i += 1;
    }
    assert(name@.subrange(0, n as int) == name@);
    out.append("s");
    proof { reveal_strlit("s"); }
    out
}

/// The index of a field whose name an earlier field already has, if any.
pub fn first_duplicate_field(fields: &Vec<Field>) -> (r: Option<usize>)
    ensures
        r is None <==> distinct_names(fields@),
        r matches Some(i) ==> i < fields@.len(),
{
    let n = fields.len();
    let mut i: usize = 0;
    while i < n
        invariant
            n == fields@.len(),
            i <= n,
            forall|a: int, b: int| 0 <= a < b < i ==> #[trigger] fields@[a].name@ != #[trigger] fields@[b].name@,
        decreases n - i,
    {
        let mut j: usize = 0;
        while j < i
            invariant
                n == fields@.len(),
                j <= i < n,
                forall|a: int| 0 <= a < j ==> fields@[a].name@ != fields@[i as int].name@,
            decreases i - j,
        {
            if fields[j].name == fields[i].name {
                return Some(i);
            }
            j += 1;
        }
        i += 1;
    }
    None
}

/// The index of the field called `name`, if there is one.
pub fn find_field(fields: &Vec<Field>, name: &String) -> (r: Option<usize>)
    ensures
        r matches Some(i) ==> i < fields@.len() && fields@[i as int].name@ == name@,
        r is None ==> !has_field(fields@, name@),
        r matches Some(i) ==> forall|j: int| 0 <= j < i ==> fields@[j].name@ != name@,
{
    let mut i: usize = 0;
    while i < fields.len()
        invariant
            i <= fields@.len(),
            forall|j: int| 0 <= j < i ==> fields@[j].name@ != name@,
        decreases fields@.len() - i,
    {
        if fields[i].name == *name {
            return Some(i);
        }
        i += 1;
    }
    None
}

impl Descriptor {
    /// Field names are distinct, the timestamp is timestamp-typed, the group
    /// keys are distinct integer fields, and no field holds two roles.
    pub open spec fn wf(self) -> bool {
        let n = self.fields@.len();
        &&& n <= usize::MAX
        &&& distinct_names(self.fields@)
        &&& self.timestamp matches Some(t) ==> t < n && self.fields@[t as int].ty == FieldType::Timestamp
        &&& self.timestamp matches Some(t) ==> !self.group_by@.contains(t)
        &&& forall|k: int| 0 <= k < self.group_by@.len() ==> #[trigger] self.group_by@[k] < n
        &&& forall|k: int| 0 <= k < self.group_by@.len() ==> is_key_type(self.fields@[#[trigger] self.group_by@[k] as int].ty)
        &&& forall|k: int, l: int| 0 <= k < l < self.group_by@.len() ==> #[trigger] self.group_by@[k] != #[trigger] self.group_by@[l]
        &&& self.float_round matches Some(d) ==> d > 0
    }

    /// Whether the description is well formed.
    pub fn wf_check(&self) -> (r: bool)
        ensures
            r == self.wf(),
    {
        let n = self.fields.len();
        if first_duplicate_field(&self.fields).is_some() {
            return false;
        }
        if let Some(t) = self.timestamp {
            if t >= n || self.fields[t].ty != FieldType::Timestamp {
                return false;
            }
        }
        if let Some(d) = self.float_round {
            if d == 0 {
                return false;
            }
        }
        let mut k: usize = 0;
        while k < self.group_by.len()
            invariant
                n == self.fields@.len(),
                distinct_names(self.fields@),
                self.timestamp matches Some(t) ==> t < n && self.fields@[t as int].ty == FieldType::Timestamp,
                self.float_round matches Some(d) ==> d > 0,
                k <= self.group_by@.len(),
                forall|a: int| 0 <= a < k ==> #[trigger] self.group_by@[a] < n,
                forall|a: int| 0 <= a < k ==> is_key_type(self.fields@[#[trigger] self.group_by@[a] as int].ty),
                forall|a: int, b: int| 0 <= a < b < k ==> #[trigger] self.group_by@[a] != #[trigger] self.group_by@[b],
                forall|a: int| 0 <= a < k ==> Some(#[trigger] self.group_by@[a]) != self.timestamp,
            decreases self.group_by@.len() - k,
        {
            let g = self.group_by[k];
            if g >= n || !(self.fields[g].ty == FieldType::Int32 || self.fields[g].ty == FieldType::Int64) {
                return false;
            }
            if self.timestamp == Some(g) {
                proof { assert(self.group_by@.contains(g)); }
                return false;
            }
            let mut m: usize = 0;
            while m < k
                invariant
                    k < self.group_by@.len(),
                    g == self.group_by@[k as int],
                    m <= k,
                    forall|a: int| 0 <= a < m ==> self.group_by@[a] != g,
                decreases k - m,
            {
                if self.group_by[m] == g {
                    return false;
                }
                m += 1;
            }
            k += 1;
        }
        proof {
            if let Some(t) = self.timestamp {
                assert(!self.group_by@.contains(t)) by {
                    if self.group_by@.contains(t) {
                        let a = choose|a: int| 0 <= a < self.group_by@.len() && self.group_by@[a] == t;
                        assert(Some(self.group_by@[a]) != self.timestamp);
                    }
                }
            }
        }
        true
    }

    /// The role of field `i`.
    pub open spec fn role(self, i: int) -> Role {
        if self.group_by@.contains(i as usize) {
            Role::GroupKey
        } else if self.timestamp == Some(i as usize) {
            Role::Timestamp
        } else {
            Role::Payload
        }
    }

    /// Whether float fields are stored as scaled integers.
    pub open spec fn rounds_floats(self) -> bool {
        self.float_round is Some
    }

    /// The column type of field `i`: a scalar for a group key, bytes otherwise.
    pub open spec fn sql_type_of(self, i: int) -> SqlType {
        if self.role(i) == Role::GroupKey {
            scalar_sql_type(self.fields@[i].ty)
        } else {
            SqlType::Bytea
        }
    }

    /// Checks the options against the field list and resolves them.
    pub fn new(name: String, fields: Vec<Field>, args: Arguments) -> (r: Result<Descriptor, ConfigError>)
        ensures
            r is Ok <==> valid_arguments(fields@, args),
            r matches Ok(d) ==> {
                &&& d.wf()
                &&& d.name@ == name@
                &&& d.fields@ == fields@
                &&& d.group_by@.len() == args.group_by@.len()
                &&& forall|k: int| 0 <= k < d.group_by@.len() ==>
                    #[trigger] d.fields@[d.group_by@[k] as int].name@ == args.group_by@[k]@
                &&& d.timestamp is Some == args.timestamp is Some
                &&& d.timestamp matches Some(t) ==> d.fields@[t as int].name@ == args.timestamp->0@
                &&& d.float_round == args.float_round
                &&& d.table_name@ == match args.table_name {
                    Some(t) => t@,
                    None => table_name_of(name@),
                }
            },
            r matches Err(ConfigError::DuplicateField(f)) ==> !distinct_names(fields@),
            r matches Err(ConfigError::UnknownField(f)) ==> !has_field(fields@, f@),
            r matches Err(ConfigError::ZeroFloatRound) ==> args.float_round == Some(0u32),
            r matches Err(ConfigError::NotATimestamp(f)) ==> args.timestamp matches Some(t) && t@ == f@
                && !has_field_of_type(fields@, f@, FieldType::Timestamp),
            r matches Err(ConfigError::RoleConflict(f)) ==> args.timestamp matches Some(t) && t@ == f@
                && args.group_by@.map_values(|s: String| s@).contains(f@),
            r matches Err(ConfigError::UnsupportedGroupKey(f)) ==> !key_field_ok(fields@, f@),
            !(r matches Err(ConfigError::UnknownOption(_))),
            !(r matches Err(ConfigError::InvalidOption(_))),
    {
        let ghost keys = args.group_by@.map_values(|s: String| s@);
        let n = fields.len();
        if let Some(i) = first_duplicate_field(&fields) {
            return Err(ConfigError::DuplicateField(fields[i].name.clone()));
        }
        if let Some(d) = args.float_round {
            if d == 0 {
                return Err(ConfigError::ZeroFloatRound);
            }
        }
        // group keys
        let mut group_by: Vec<usize> = Vec::new();
        let mut k: usize = 0;
        while k < args.group_by.len()
            invariant
                n == fields@.len(),
                distinct_names(fields@),
                keys == args.group_by@.map_values(|s: String| s@),
                k <= keys.len(),
                group_by@.len() == k,
                forall|a: int| 0 <= a < k ==> #[trigger] group_by@[a] < n,
                forall|a: int| 0 <= a < k ==> #[trigger] fields@[group_by@[a] as int].name@ == keys[a],
                forall|a: int| 0 <= a < k ==> is_key_type(fields@[#[trigger] group_by@[a] as int].ty),
                forall|a: int, b: int| 0 <= a < b < k ==> #[trigger] keys[a] != #[trigger] keys[b],
            decreases keys.len() - k,
        {
            let key = &args.group_by[k];
            assert(key@ == keys[k as int]);
            let idx = match find_field(&fields, key) {
                Some(idx) => idx,
                None => return Err(ConfigError::UnknownField(key.clone())),
            };
            if !(fields[idx].ty == FieldType::Int32 || fields[idx].ty == FieldType::Int64) {
                assert(!key_field_ok(fields@, keys[k as int]));
                return Err(ConfigError::UnsupportedGroupKey(key.clone()));
            }
            let mut m: usize = 0;
            while m < k
                invariant
                    keys == args.group_by@.map_values(|s: String| s@),
                    m <= k < keys.len(),
                    forall|a: int| 0 <= a < m ==> keys[a] != keys[k as int],
                decreases k - m,
            {
                if args.group_by[m] == args.group_by[k] {
                    assert(keys[m as int] == keys[k as int]);
                    return Err(ConfigError::DuplicateGroupKey(key.clone()));
                }
                m += 1;
            }
            group_by.push(idx);
            k += 1;
        }
        proof {
            assert forall|a: int, b: int| 0 <= a < b < group_by@.len() implies #[trigger] group_by@[a] != #[trigger] group_by@[b] by {
                assert(fields@[group_by@[a] as int].name@ == keys[a]);
                assert(fields@[group_by@[b] as int].name@ == keys[b]);
            }
            assert forall|a: int| 0 <= a < keys.len() implies has_field(fields@, #[trigger] keys[a]) by {
                assert(fields@[group_by@[a] as int].name@ == keys[a]);
            }
            assert forall|a: int| 0 <= a < keys.len() implies key_field_ok(fields@, #[trigger] keys[a]) by {
                assert(fields@[group_by@[a] as int].name@ == keys[a]);
                assert forall|i: int| 0 <= i < fields@.len() && #[trigger] fields@[i].name@ == keys[a]
                    implies is_key_type(fields@[i].ty) by {
                    assert(i == group_by@[a] as int);
                }
            }
        }
        // timestamp
        let mut timestamp: Option<usize> = None;
        if let Some(t) = &args.timestamp {
            let idx = match find_field(&fields, t) {
                Some(idx) => idx,
                None => return Err(ConfigError::UnknownField(t.clone())),
            };
            if fields[idx].ty != FieldType::Timestamp {
                return Err(ConfigError::NotATimestamp(t.clone()));
            }
            let mut m: usize = 0;
            while m < group_by.len()
                invariant
                    group_by@.len() == keys.len(),
                    n == fields@.len(),
                    idx < n,
                    fields@[idx as int].name@ == t@,
                    forall|a: int| 0 <= a < keys.len() ==> #[trigger] fields@[group_by@[a] as int].name@ == keys[a],
                    forall|a: int| 0 <= a < keys.len() ==> #[trigger] group_by@[a] < n,
                    m <= group_by@.len(),
                    forall|a: int| 0 <= a < m ==> group_by@[a] != idx && keys[a] != t@,
                    distinct_names(fields@),
                    args.timestamp == Some(*t),
                    keys == args.group_by@.map_values(|s: String| s@),
                decreases group_by@.len() - m,
            {
                if group_by[m] == idx {
                    proof {
                        assert(fields@[group_by@[m as int] as int].name@ == keys[m as int]);
                        assert(keys[m as int] == t@);
                        assert(keys.contains(t@));
                    }
                    return Err(ConfigError::RoleConflict(t.clone()));
                }
                proof {
                    assert(fields@[group_by@[m as int] as int].name@ == keys[m as int]);
                }
                m += 1;
            }
            proof {
                assert(!keys.contains(t@)) by {
                    if keys.contains(t@) {
                        let a = choose|a: int| 0 <= a < keys.len() && keys[a] == t@;
                    }
                }
                assert forall|i: int| 0 <= i < fields@.len() && #[trigger] fields@[i].name@ == t@
                    implies fields@[i].ty == FieldType::Timestamp by {
                    assert(i == idx as int);
                }
            }
            timestamp = Some(idx);
        }
        proof {
            if let Some(t) = args.timestamp {
                if let Some(idx) = timestamp {
                    assert(fields@[idx as int].name@ == t@);
                    assert(has_field_of_type(fields@, t@, FieldType::Timestamp));
                }
            }
        }
        let table_name = match args.table_name {
            Some(t) => t,
            None => derive_table_name(name.as_str()),
        };
        Ok(Descriptor { name, fields, timestamp, group_by, float_round: args.float_round, table_name })
    }
}

/// The column type of a field stored as a scalar.
pub open spec fn scalar_sql_type(ty: FieldType) -> SqlType {
    match ty {
        FieldType::Int32 => SqlType::Int4,
        FieldType::Int64 => SqlType::Int8,
        FieldType::Float32 => SqlType::Float4,
        FieldType::Float64 => SqlType::Float8,
        FieldType::Bool => SqlType::Bytea,
        FieldType::Timestamp => SqlType::TimestampTz,
    }
}

/// The value given to an option.
#[derive(Clone, Debug)]
pub enum OptionValue {
    /// A bare name, such as `collected_at`.
    Ident(String),
    /// A bracketed list of names, such as `[database_id, fingerprint]`.
    List(Vec<String>),
    /// An integer literal.
    Int(u64),
}

/// The index of the last of the first `m` entries whose key is `key`.
pub open spec fn last_with(entries: Seq<(String, OptionValue)>, key: Seq<char>, m: int) -> Option<int>
    decreases m,
{
    if m <= 0 {
        None
    } else if entries[m - 1].0@ == key {
        Some(m - 1)
    } else {
        last_with(entries, key, m - 1)
    }
}

/// Whether no two of the strings hold the same characters.
pub open spec fn distinct_strings(l: Seq<String>) -> bool {
    forall|a: int, b: int| 0 <= a < b < l.len() ==> #[trigger] l[a]@ != #[trigger] l[b]@
}

/// The position of a string equal to an earlier one, if any.
fn first_repeat(l: &Vec<String>) -> (r: Option<usize>)
    ensures
        r is None <==> distinct_strings(l@),
        r matches Some(b) ==> b < l@.len() && exists|a: int| 0 <= a < b && l@[a]@ == l@[b as int]@,
{
    let mut b: usize = 0;
    while b < l.len()
        invariant
            b <= l@.len(),
            forall|x: int, y: int| 0 <= x < y < b ==> #[trigger] l@[x]@ != #[trigger] l@[y]@,
        decreases l@.len() - b,
    {
        let mut a: usize = 0;
        while a < b
            invariant
                a <= b < l@.len(),
                forall|x: int| 0 <= x < a ==> l@[x]@ != l@[b as int]@,
            decreases b - a,
        {
            if l[a] == l[b] {
                return Some(b);
            }
            a += 1;
        }
        b += 1;
    }
    None
}

/// Whether an option entry is understood: a known key with a value of the right shape.
pub open spec fn option_ok(e: (String, OptionValue)) -> bool {
    ||| e.0@ == "timestamp"@ && e.1 is Ident
    ||| e.0@ == "table_name"@ && e.1 is Ident
    ||| e.0@ == "group_by"@ && (e.1 matches OptionValue::List(l) && distinct_strings(l@))
    ||| e.0@ == "float_round"@ && (e.1 matches OptionValue::Int(d) && 0 < d <= u32::MAX)
}

/// The characters of an optional string.
pub open spec fn opt_view(o: Option<String>) -> Option<Seq<char>> {
    match o {
        Some(s) => Some(s@),
        None => None,
    }
}

/// The name given by entry `i`, if there is one.
pub open spec fn ident_at(entries: Seq<(String, OptionValue)>, i: Option<int>) -> Option<Seq<char>> {
    match i {
        Some(i) => match entries[i].1 {
            OptionValue::Ident(s) => Some(s@),
            _ => None,
        },
        None => None,
    }
}

impl Arguments {
    /// Reads the options from `key = value` entries in order; a later entry
    /// for a key replaces an earlier one.
    pub fn parse(entries: &Vec<(String, OptionValue)>) -> (r: Result<Arguments, ConfigError>)
        ensures
            r is Ok <==> forall|e: int| 0 <= e < entries@.len() ==> option_ok(#[trigger] entries@[e]),
            r matches Err(ConfigError::UnknownOption(k)) ==> exists|e: int| 0 <= e < entries@.len()
                && entries@[e].0@ == k@ && !option_ok(entries@[e]),
            r matches Err(ConfigError::InvalidOption(k)) ==> exists|e: int| 0 <= e < entries@.len()
                && entries@[e].0@ == k@ && !option_ok(entries@[e]),
            r matches Err(ConfigError::DuplicateGroupKey(k)) ==> exists|e: int| 0 <= e < entries@.len()
                && entries@[e].0@ == "group_by"@
                && (entries@[e].1 matches OptionValue::List(l)
                    && exists|a: int, b: int| 0 <= a < b < l@.len() && l@[a]@ == k@ && l@[b]@ == k@),
            r matches Err(e) ==> e is UnknownOption || e is InvalidOption || e is DuplicateGroupKey,
            r matches Ok(a) ==> {
                let n = entries@.len() as int;
                &&& opt_view(a.timestamp) == ident_at(entries@, last_with(entries@, "timestamp"@, n))
                &&& opt_view(a.table_name) == ident_at(entries@, last_with(entries@, "table_name"@, n))
                &&& a.group_by@ == match last_with(entries@, "group_by"@, n) {
                    Some(i) => match entries@[i].1 {
                        OptionValue::List(l) => l@,
                        _ => Seq::empty(),
                    },
                    None => Seq::empty(),
                }
                &&& a.float_round == match last_with(entries@, "float_round"@, n) {
                    Some(i) => match entries@[i].1 {
                        OptionValue::Int(d) => Some(d as u32),
                        _ => None,
                    },
                    None => None,
                }
            },
    {
        let mut timestamp: Option<String> = None;
        let mut group_by: Vec<String> = Vec::new();
        let mut float_round: Option<u32> = None;
        let mut table_name: Option<String> = None;
        let mut e: usize = 0;
        while e < entries.len()
            invariant
                e <= entries@.len(),
                forall|a: int| 0 <= a < e ==> option_ok(#[trigger] entries@[a]),
                opt_view(timestamp) == ident_at(entries@, last_with(entries@, "timestamp"@, e as int)),
                opt_view(table_name) == ident_at(entries@, last_with(entries@, "table_name"@, e as int)),
                group_by@ == match last_with(entries@, "group_by"@, e as int) {
                    Some(i) => match entries@[i].1 {
                        OptionValue::List(l) => l@,
                        _ => Seq::empty(),
                    },
                    None => Seq::empty(),
                },
                float_round == match last_with(entries@, "float_round"@, e as int) {
                    Some(i) => match entries@[i].1 {
                        OptionValue::Int(d) => Some(d as u32),
                        _ => None,
                    },
                    None => None,
                },
            decreases entries@.len() - e,
        {
            let key = entries[e].0.as_str();
            let value = &entries[e].1;
            proof {
                reveal_strlit("timestamp");
                reveal_strlit("table_name");
                reveal_strlit("group_by");
                reveal_strlit("float_round");
                assert("timestamp"@.len() == 9);
                assert("table_name"@.len() == 10);
                assert("group_by"@.len() == 8);
                assert("float_round"@.len() == 11);
            }
            if same_text(key, "timestamp") {
                match value {
                    OptionValue::Ident(s) => { timestamp = Some(s.clone()); },
                    _ => return Err(ConfigError::InvalidOption(entries[e].0.clone())),
                }
            } else if same_text(key, "table_name") {
                match value {
                    OptionValue::Ident(s) => { table_name = Some(s.clone()); },
                    _ => return Err(ConfigError::InvalidOption(entries[e].0.clone())),
                }
            } else if same_text(key, "group_by") {
                match value {
                    OptionValue::List(l) => {
                        if let Some(b) = first_repeat(l) {
                            proof {
                                let a = choose|a: int| 0 <= a < b && l@[a]@ == l@[b as int]@;
                                assert(0 <= a < b < l@.len() && l@[a]@ == l@[b as int]@);
                            }
                            return Err(ConfigError::DuplicateGroupKey(l[b].clone()));
                        }
                        group_by = l.clone();
                    },
                    _ => return Err(ConfigError::InvalidOption(entries[e].0.clone())),
                }
            } else if same_text(key, "float_round") {
                match value {
                    OptionValue::Int(d) => {
                        if *d == 0 || *d > u32::MAX as u64 {
                            return Err(ConfigError::InvalidOption(entries[e].0.clone()));
                        }
                        float_round = Some(*d as u32);
                    },
                    _ => return Err(ConfigError::InvalidOption(entries[e].0.clone())),
                }
            } else {
                return Err(ConfigError::UnknownOption(entries[e].0.clone()));
            }
            e += 1;
        }
        Ok(Arguments { timestamp, group_by, float_round, table_name })
    }
}

} // verus!
