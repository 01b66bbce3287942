//! Records: checking them against a schema, storing them and reading them back.

use crate::bytes::{self, push_all, push_le};
use crate::checksum;
use crate::cow::{self, CowMap};
use crate::error::{Error, ErrorView};
use crate::model;
use crate::order::OrderedKey;
use crate::pairs;
use crate::payload::{self, read_count, read_payload_name, RawField};
use crate::schema::{self, Column, ColumnView, TableSchema};
use crate::text::{self, decimal_text};
use crate::value::{
    self, column_type_text, encode_blob_ref, encode_value, read_value, same_value, BlobRef, ColumnType, Stored, StoredView,
    Value, ValueView,
};
use vstd::prelude::*;
use vstd::string::*;
use vstd::utf8::*;

verus! {

/// A record is a map from column name to value. Where it is read, the implicit
/// primary key stands in it under the name of the primary key.
pub type Record = CowMap<String, Value>;

/// What a record stands for: the values by the bytes of their column names.
pub type RecordView = Map<Seq<u8>, ValueView>;

/// The contents of the out-of-line blobs by name.
pub type Blobs = CowMap<String, Vec<u8>>;

/// The value of a column; a column that is not there is null.
pub open spec fn value_in(rec: RecordView, name: Seq<u8>) -> ValueView {
    if rec.contains_key(name) {
        rec[name]
    } else {
        ValueView::Null
    }
}

// ---- Reading ----------------------------------------------------------------

/// The value that a stored field stands for, given the out-of-line blobs.
pub open spec fn resolved(v: StoredView, blobs: Map<Seq<u8>, Seq<u8>>) -> Result<ValueView, ErrorView> {
    match v {
        StoredView::Value(v) => Ok(v),
        StoredView::External { name, len, crc } => {
            let key = encode_utf8(name);
            if !blobs.contains_key(key) {
                Err(ErrorView::Corrupt("missing blob "@ + name))
            } else if blobs[key].len() != len || checksum::crc32(blobs[key]) != crc {
                Err(ErrorView::Corrupt("checksum mismatch in blob "@ + name))
            } else {
                Ok(ValueView::Blob(blobs[key]))
            }
        },
    }
}

/// The record that the `count` fields from `pos` on add to `acc`. A name that
/// occurs again replaces the value before it.
pub open spec fn record_from(
    buf: Seq<u8>,
    pos: int,
    count: nat,
    blobs: Map<Seq<u8>, Seq<u8>>,
    acc: RecordView,
) -> Result<RecordView, ErrorView>
    decreases count,
{
    if count == 0 {
        Ok(acc)
    } else {
        match payload::text_name_at(buf, pos) {
            Err(m) => Err(ErrorView::Corrupt(m)),
            Ok((name, at)) => match value::field_at(buf, at) {
                Err(m) => Err(ErrorView::Corrupt(m)),
                Ok((v, end)) => match resolved(v, blobs) {
                    Err(e) => Err(e),
                    Ok(v) => record_from(buf, end, (count - 1) as nat, blobs, acc.insert(name, v)),
                },
            },
        }
    }
}

/// The record that a payload holds, or what is wrong with it.
pub open spec fn decoded(buf: Seq<u8>, blobs: Map<Seq<u8>, Seq<u8>>) -> Result<RecordView, ErrorView> {
    match payload::count_of(buf) {
        Err(m) => Err(ErrorView::Corrupt(m)),
        Ok(n) => record_from(buf, 2, n, blobs, Map::empty()),
    }
}

fn resolve(v: Stored, blobs: &Blobs) -> (r: Result<Value, Error>)
    requires
        blobs.wf(),
    ensures
        r is Ok <==> resolved(v@, blobs@) is Ok,
        r matches Ok(x) ==> Ok::<ValueView, ErrorView>(x@) == resolved(v@, blobs@),
        r matches Err(e) ==> e@ == resolved(v@, blobs@)->Err_0,
{
    match v {
        Stored::Value(v) => Ok(v),
        Stored::External(found) => {
            match blobs.get(found.name.as_str().as_bytes()) {
                None => Err(Error::Corrupt("missing blob ".to_owned().concat(found.name.as_str()))),
                Some(data) => {
                    if data.len() as u64 != found.len || checksum::checksum(data.as_slice()) != found.crc {
                        Err(Error::Corrupt("checksum mismatch in blob ".to_owned().concat(found.name.as_str())))
                    } else {
                        Ok(Value::Blob(bytes::copy_of(data.as_slice())))
                    }
                },
            }
        },
    }
}

/// Read the record that a payload holds.
pub fn decode_record(buf: &[u8], blobs: &Blobs) -> (r: Result<Record, Error>)
    requires
        blobs.wf(),
    ensures
        r is Ok <==> decoded(buf@, blobs@) is Ok,
        r matches Ok(rec) ==> rec.wf() && Ok::<RecordView, ErrorView>(rec@) == decoded(buf@, blobs@),
        r matches Err(e) ==> e@ == decoded(buf@, blobs@)->Err_0,
{
    let count: usize = match read_count(buf) {
        Ok(n) => n,
        Err(e) => {
            return Err(e);
        },
    };
    let ghost target = decoded(buf@, blobs@);
    let mut rec: Record = CowMap::new();
    let mut pos: usize = 2;
    let mut left: usize = count;
    while left > 0
        invariant
            blobs.wf(),
            rec.wf(),
            target == decoded(buf@, blobs@),
            target == record_from(buf@, pos as int, left as nat, blobs@, rec@),
        decreases left,
    {
        let (name, at) = match read_payload_name(buf, pos) {
            Ok(p) => p,
            Err(e) => {
                return Err(e);
            },
        };
        let (stored, end) = match read_value(buf, at) {
            Ok(p) => p,
            Err(e) => {
                return Err(e);
            },
        };
        match resolve(stored, blobs) {
            Ok(v) => {
                let _ = rec.insert(name, v);
            },
            Err(e) => {
                return Err(e);
            },
        }
        pos = end;
        left = left - 1;
    }
    Ok(rec)
}

// ---- Storing ----------------------------------------------------------------

/// What is stored for a column: a reference where the blob is out of line,
/// else the record's value.
pub open spec fn column_stored(c: ColumnView, rec: RecordView, external: Option<StoredView>) -> StoredView {
    match external {
        Some(r) => r,
        None => StoredView::Value(value_in(rec, encode_utf8(c.name))),
    }
}

pub open spec fn external_view(r: Option<BlobRef>) -> Option<StoredView> {
    match r {
        Some(r) => Some(payload::ref_view(r)),
        None => None,
    }
}

pub open spec fn external_views(s: Seq<Option<BlobRef>>) -> Seq<Option<StoredView>> {
    Seq::new(s.len(), |i: int| external_view(s[i]))
}

/// The fields of a record in the order of the columns.
pub open spec fn ordered_fields(columns: Seq<ColumnView>, rec: RecordView, external: Seq<Option<StoredView>>) -> Seq<RawField> {
    Seq::new(
        columns.len(),
        |i: int| (encode_utf8(columns[i].name), value::stored_bytes(column_stored(columns[i], rec, external[i]))),
    )
}

/// Whether names, values and references fit the stored form.
pub open spec fn record_fits(columns: Seq<ColumnView>, rec: RecordView, external: Seq<Option<StoredView>>) -> bool {
    &&& columns.len() <= u16::MAX
    &&& external.len() == columns.len()
    &&& forall|i: int|
        0 <= i < columns.len() ==> encode_utf8((#[trigger] columns[i]).name).len() <= u16::MAX && value::storable(
            column_stored(columns[i], rec, external[i]),
        )
}

/// Whether a column's value is to be stored out of line.
pub open spec fn is_external(c: ColumnView, rec: RecordView, threshold: int) -> bool {
    value_in(rec, encode_utf8(c.name)) matches ValueView::Blob(data) && data.len() >= threshold
}

/// Which columns hold blobs of at least `threshold` bytes. Each of these is
/// written to a file of its own before the record is stored.
pub fn external_columns(schema: &TableSchema, rec: &Record, threshold: usize) -> (r: Vec<bool>)
    requires
        rec.wf(),
    ensures
        r@.len() == schema@.columns.len(),
        forall|i: int| 0 <= i < r@.len() ==> #[trigger] r@[i] == is_external(schema@.columns[i], rec@, threshold as int),
{
    let mut out: Vec<bool> = Vec::new();
    let mut i: usize = 0;
    while i < schema.columns.len()
        invariant
            rec.wf(),
            i <= schema.columns@.len(),
            out@.len() == i,
            forall|j: int| 0 <= j < i ==> #[trigger] out@[j] == is_external(schema@.columns[j], rec@, threshold as int),
        decreases schema.columns@.len() - i,
    {
        let col = &schema.columns[i];
        assert(schema@.columns[i as int] == col@);
        let external: bool = match rec.get(col.name.as_str().as_bytes()) {
            Some(Value::Blob(data)) => data.len() >= threshold,
            _ => false,
        };
        out.push(external);
        i = i + 1;
    }
    out
}

/// Store a record in the order of the schema's columns. `external` holds, per
/// column, the reference of a blob that was written out of line.
pub fn encode_record_ordered(schema: &TableSchema, rec: &Record, external: &Vec<Option<BlobRef>>) -> (r: Vec<u8>)
    requires
        rec.wf(),
        record_fits(schema@.columns, rec@, external_views(external@)),
    ensures
        r@ == payload::payload_bytes(ordered_fields(schema@.columns, rec@, external_views(external@))),
{
    let ghost fields = ordered_fields(schema@.columns, rec@, external_views(external@));
    let mut buf: Vec<u8> = Vec::new();
    push_le(&mut buf, schema.columns.len() as u64, 2);
    let ghost head = buf@;
    let mut i: usize = 0;
    assert(payload::body_bytes(fields.subrange(0, 0)) =~= Seq::<u8>::empty());
    while i < schema.columns.len()
        invariant
            rec.wf(),
            record_fits(schema@.columns, rec@, external_views(external@)),
            i <= schema.columns@.len(),
            fields == ordered_fields(schema@.columns, rec@, external_views(external@)),
            buf@ == head + payload::body_bytes(fields.subrange(0, i as int)),
        decreases schema.columns@.len() - i,
    {
        let col = &schema.columns[i];
        let ghost before = buf@;
        assert(schema@.columns[i as int] == col@);
        assert(external_views(external@)[i as int] == external_view(external@[i as int]));
        push_le(&mut buf, bytes::byte_len(col.name.as_str()) as u64, 2);
        push_all(&mut buf, col.name.as_str().as_bytes());
        match &external[i] {
            Some(found) => {
                encode_blob_ref(&mut buf, found.name.as_str(), found.len, found.crc);
            },
            None => match rec.get(col.name.as_str().as_bytes()) {
                Some(v) => {
                    encode_value(&mut buf, v);
                },
                None => {
                    encode_value(&mut buf, &Value::Null);
                },
            },
        }
        proof {
            let s = fields.subrange(0, i + 1);
            assert(s.drop_last() =~= fields.subrange(0, i as int));
            assert(s.last() == fields[i as int]);
            assert(buf@ =~= before + payload::field_bytes(fields[i as int]));
            assert(buf@ =~= head + payload::body_bytes(s));
        }
        i = i + 1;
    }
    assert(fields.subrange(0, i as int) =~= fields);
    assert(buf@ =~= payload::payload_bytes(fields));
    buf
}

// ---- Checking ---------------------------------------------------------------

pub open spec fn not_nullable(name: Seq<char>) -> ErrorView {
    ErrorView::SchemaViolation("column '"@ + name + "' is not nullable"@)
}

pub open spec fn unknown_column(name: Seq<char>) -> ErrorView {
    ErrorView::SchemaViolation("unknown column '"@ + name + "'"@)
}

/// The type that a value has; null has none.
pub open spec fn type_of(v: ValueView) -> Option<ColumnType> {
    match v {
        ValueView::Null => None,
        ValueView::Bool(_) => Some(ColumnType::Bool),
        ValueView::Int64(_) => Some(ColumnType::Int64),
        ValueView::Float64(_) => Some(ColumnType::Float64),
        ValueView::Text(_) => Some(ColumnType::Text),
        ValueView::Blob(_) => Some(ColumnType::Blob),
        ValueView::Timestamp(_) => Some(ColumnType::Timestamp),
        ValueView::Json(_) => Some(ColumnType::Json),
        ValueView::Vector(_) => Some(ColumnType::Vector),
        ValueView::Date(_) => Some(ColumnType::Date),
        ValueView::Time(_) => Some(ColumnType::Time),
    }
}

/// What is wrong with a value of a column, if anything.
pub open spec fn value_error(c: ColumnView, v: ValueView) -> Option<ErrorView> {
    if v is Null {
        if c.nullable {
            None
        } else {
            Some(not_nullable(c.name))
        }
    } else if !value::has_type(v, c.ty) {
        Some(
            ErrorView::SchemaViolation(
                "column '"@ + c.name + "' expects "@ + value::type_text(c.ty) + ", got "@ + value::type_text(type_of(v)->0),
            ),
        )
    } else {
        match (v, c.dim) {
            (ValueView::Vector(w), Some(dim)) => if w.len() != dim {
                Some(
                    ErrorView::SchemaViolation(
                        "column '"@ + c.name + "' expects vector<float32, "@ + text::decimal(dim as nat) + ">, got dimension "@
                            + text::decimal(w.len()),
                    ),
                )
            } else {
                None
            },
            _ => None,
        }
    }
}

fn not_nullable_error(name: &str) -> (e: Error)
    ensures
        e@ == not_nullable(name@),
{
    Error::SchemaViolation("column '".to_owned().concat(name).concat("' is not nullable"))
}

fn column_type_of(v: &Value) -> (r: Option<ColumnType>)
    ensures
        r == type_of(v@),
{
    match v {
        Value::Null => None,
        Value::Bool(_) => Some(ColumnType::Bool),
        Value::Int64(_) => Some(ColumnType::Int64),
        Value::Float64(_) => Some(ColumnType::Float64),
        Value::Text(_) => Some(ColumnType::Text),
        Value::Blob(_) => Some(ColumnType::Blob),
        Value::Timestamp(_) => Some(ColumnType::Timestamp),
        Value::Json(_) => Some(ColumnType::Json),
        Value::Vector(_) => Some(ColumnType::Vector),
        Value::Date(_) => Some(ColumnType::Date),
        Value::Time(_) => Some(ColumnType::Time),
    }
}

/// Whether a value may stand in a column.
pub fn check_value(col: &Column, v: &Value) -> (r: Result<(), Error>)
    ensures
        r is Ok <==> value_error(col@, v@) is None,
        r matches Err(e) ==> Some(e@) == value_error(col@, v@),
{
    match column_type_of(v) {
        None => {
            if col.nullable {
                Ok(())
            } else {
                Err(not_nullable_error(col.name.as_str()))
            }
        },
        Some(ty) => {
            if !v.matches(col.ty) {
                return Err(
                    Error::SchemaViolation(
                        "column '".to_owned().concat(col.name.as_str()).concat("' expects ").concat(
                            column_type_text(col.ty),
                        ).concat(", got ").concat(column_type_text(ty)),
                    ),
                );
            }
            match (v, col.dim) {
                (Value::Vector(w), Some(dim)) => {
                    if w.len() != dim {
                        return Err(
                            Error::SchemaViolation(
                                "column '".to_owned().concat(col.name.as_str()).concat("' expects vector<float32, ").concat(
                                    decimal_text(dim as u64).as_str(),
                                ).concat(">, got dimension ").concat(decimal_text(w.len() as u64).as_str()),
                            ),
                        );
                    }
                    Ok(())
                },
                _ => Ok(()),
            }
        },
    }
}

/// Whether the table has a column of that name.
pub open spec fn is_column(columns: Seq<ColumnView>, name: Seq<u8>) -> bool {
    exists|i: int| 0 <= i < columns.len() && encode_utf8((#[trigger] columns[i]).name) == name
}

/// `name` is the first name of the record that is no column.
pub open spec fn first_unknown(columns: Seq<ColumnView>, rec: RecordView, name: Seq<u8>) -> bool {
    &&& rec.contains_key(name)
    &&& !is_column(columns, name)
    &&& forall|other: Seq<u8>| #[trigger] rec.contains_key(other) && bytes::lex_lt(other, name) ==> is_column(columns, other)
}

/// One column of the record: a value that is there is checked, and a column
/// that is omitted takes its default.
pub open spec fn with_column(c: ColumnView, rec: RecordView) -> Result<RecordView, ErrorView> {
    let name = encode_utf8(c.name);
    if rec.contains_key(name) {
        match value_error(c, rec[name]) {
            Some(e) => Err(e),
            None => Ok(rec),
        }
    } else if schema::default_of(c) is Null && !c.nullable {
        Err(not_nullable(c.name))
    } else {
        Ok(rec.insert(name, schema::default_of(c)))
    }
}

/// Every column in turn.
pub open spec fn with_columns(columns: Seq<ColumnView>, rec: RecordView) -> Result<RecordView, ErrorView>
    decreases columns.len(),
{
    if columns.len() == 0 {
        Ok(rec)
    } else {
        match with_columns(columns.drop_last(), rec) {
            Err(e) => Err(e),
            Ok(r) => with_column(columns.last(), r),
        }
    }
}

pub open spec fn id_key() -> Seq<u8> {
    encode_utf8(schema::id_name())
}

/// Whether every name of the record but the primary key is a column.
pub open spec fn names_known(columns: Seq<ColumnView>, rec: RecordView) -> bool {
    forall|name: Seq<u8>| #[trigger] rec.contains_key(name) ==> is_column(columns, name)
}

proof fn lemma_is_column(columns: Seq<ColumnView>, name: Seq<char>)
    ensures
        is_column(columns, encode_utf8(name)) <==> schema::column_of(columns, name) is Some,
{
    let names = schema::column_names(columns);
    model::lemma_find(names, name);
    if is_column(columns, encode_utf8(name)) {
        let i = choose|i: int| 0 <= i < columns.len() && encode_utf8((#[trigger] columns[i]).name) == encode_utf8(name);
        bytes::lemma_utf8_injective(columns[i].name, name);
        assert(names[i] == name);
    }
    match model::find(names, name) {
        Some(i) => {
            assert(encode_utf8(columns[i].name) == encode_utf8(name));
        },
        None => {},
    }
}

/// The first name of the record, in order, that is no column.
pub fn unknown_name(schema: &TableSchema, rec: &Record) -> (r: Option<String>)
    requires
        rec.wf(),
    ensures
        r is None <==> names_known(schema@.columns, rec@),
        r matches Some(name) ==> first_unknown(schema@.columns, rec@, encode_utf8(name@)),
{
    let names = rec.keys();
    let ghost s = rec.pairs();
    proof {
        rec.lemma_wf();
    }
    let mut i: usize = 0;
    while i < names.len()
        invariant
            rec.wf(),
            s == rec.pairs(),
            pairs::sorted(s),
            i <= names@.len() == s.len(),
            forall|j: int| 0 <= j < names@.len() ==> (#[trigger] names@[j]).rank() == s[j].0,
            forall|j: int| 0 <= j < i ==> is_column(schema@.columns, #[trigger] s[j].0),
        decreases names@.len() - i,
    {
        let name: &String = names[i];
        proof {
            lemma_is_column(schema@.columns, name@);
            assert(encode_utf8(name@) == s[i as int].0);
        }
        if schema.column(name.as_str()).is_none() {
            proof {
                let k = s[i as int].0;
                pairs::lemma_to_map_at(s, i as int);
                assert forall|other: Seq<u8>| #[trigger] rec@.contains_key(other) && bytes::lex_lt(other, k) implies is_column(
                    schema@.columns,
                    other,
                ) by {
                    let j = pairs::index_of(s, other);
                    if j > i {
                        assert(bytes::lex_lt(s[i as int].0, s[j].0));
                        bytes::lemma_lex_trichotomy(k, other);
                    } else if j == i {
                        bytes::lemma_lex_irreflexive(k);
                    }
                    assert(is_column(schema@.columns, s[j].0));
                }
            }
            return Some(name.clone());
        }
        i = i + 1;
    }
    proof {
        assert forall|name: Seq<u8>| #[trigger] rec@.contains_key(name) implies is_column(schema@.columns, name) by {
            let j = pairs::index_of(s, name);
            assert(is_column(schema@.columns, s[j].0));
        }
    }
    None
}

/// Check a record against the schema and complete it: unknown columns are
/// rejected, and omitted columns take their defaults.
pub fn normalize_record(schema: &TableSchema, record: Record) -> (r: Result<Record, Error>)
    requires
        record.wf(),
    ensures
        !names_known(schema@.columns, record@.remove(id_key())) ==> r is Err && exists|name: Seq<char>|
            first_unknown(schema@.columns, record@.remove(id_key()), #[trigger] encode_utf8(name)) && r->Err_0@ == unknown_column(
                name,
            ),
        names_known(schema@.columns, record@.remove(id_key())) ==> match with_columns(
            schema@.columns,
            record@.remove(id_key()),
        ) {
            Ok(out) => r is Ok && r->Ok_0.wf() && r->Ok_0@ == out,
            Err(e) => r is Err && r->Err_0@ == e,
        },
{
    let mut rec = record;
    let id = schema::ID_COLUMN;
    let _ = rec.remove(id.as_bytes());
    let ghost start = rec@;
    match unknown_name(schema, &rec) {
        Some(name) => {
            assert(first_unknown(schema@.columns, start, encode_utf8(name@)));
            return Err(Error::SchemaViolation("unknown column '".to_owned().concat(name.as_str()).concat("'")));
        },
        None => {},
    }
    let ghost columns = schema@.columns;
    let mut i: usize = 0;
    assert(columns.subrange(0, 0) =~= Seq::<ColumnView>::empty());
    while i < schema.columns.len()
        invariant
            rec.wf(),
            i <= schema.columns@.len(),
            columns == schema@.columns,
            start == record@.remove(id_key()),
            names_known(columns, start),
            with_columns(columns.subrange(0, i as int), start) == Ok::<RecordView, ErrorView>(rec@),
        decreases schema.columns@.len() - i,
    {
        let col = &schema.columns[i];
        proof {
            let s = columns.subrange(0, i + 1);
            assert(s.drop_last() =~= columns.subrange(0, i as int));
            assert(s.last() == col@);
            lemma_with_columns_prefix(columns, start, i + 1);
        }
        let present: Option<Result<(), Error>> = match rec.get(col.name.as_str().as_bytes()) {
            Some(v) => Some(check_value(col, v)),
            None => None,
        };
        match present {
            Some(Ok(())) => {},
            Some(Err(e)) => {
                return Err(e);
            },
            None => {
                let v = col.default_value();
                if v.is_null() && !col.nullable {
                    return Err(not_nullable_error(col.name.as_str()));
                }
                let _ = rec.insert(col.name.clone(), v);
            },
        }
        i = i + 1;
    }
    assert(columns.subrange(0, i as int) =~= columns);
    Ok(rec)
}

/// An error in the first columns is the error of all.
proof fn lemma_with_columns_prefix(columns: Seq<ColumnView>, rec: RecordView, n: int)
    requires
        0 <= n <= columns.len(),
    ensures
        with_columns(columns.subrange(0, n), rec) matches Err(e) ==> with_columns(columns, rec) == Err::<RecordView, ErrorView>(e),
    decreases columns.len() - n,
{
    if n < columns.len() {
        lemma_with_columns_prefix(columns, rec, n + 1);
        assert(columns.subrange(0, n + 1).drop_last() =~= columns.subrange(0, n));
    } else {
        assert(columns.subrange(0, n) =~= columns);
    }
}

// ---- Comparing a stored column ----------------------------------------------

/// Whether the field at `at` holds `v`.
pub open spec fn field_matches(buf: Seq<u8>, at: int, v: ValueView, blobs: Map<Seq<u8>, Seq<u8>>) -> Result<bool, ErrorView> {
    match value::field_at(buf, at) {
        Err(m) => Err(ErrorView::Corrupt(m)),
        Ok((s, _)) => match resolved(s, blobs) {
            Err(e) => Err(e),
            Ok(x) => Ok(value::value_eq(x, v)),
        },
    }
}

/// The name and value position of the field `skip` fields after `pos`.
pub open spec fn nth_field(buf: Seq<u8>, pos: int, skip: nat) -> Result<(Seq<u8>, int), Seq<char>>
    decreases skip,
{
    match payload::name_at(buf, pos) {
        Err(m) => Err(m),
        Ok((name, at)) => if skip == 0 {
            Ok((name, at))
        } else {
            match value::field_end(buf, at) {
                Err(m) => Err(m),
                Ok(end) => nth_field(buf, end, (skip - 1) as nat),
            }
        },
    }
}

/// Whether the first field named `column` from `pos` on holds `v`.
pub open spec fn named_matches(
    buf: Seq<u8>,
    pos: int,
    count: nat,
    column: Seq<u8>,
    v: ValueView,
    blobs: Map<Seq<u8>, Seq<u8>>,
) -> Result<bool, ErrorView>
    decreases count,
{
    if count == 0 {
        Ok(false)
    } else {
        match payload::text_name_at(buf, pos) {
            Err(m) => Err(ErrorView::Corrupt(m)),
            Ok((name, at)) => if name == column {
                field_matches(buf, at, v, blobs)
            } else {
                match value::field_end(buf, at) {
                    Err(m) => Err(ErrorView::Corrupt(m)),
                    Ok(end) => named_matches(buf, end, (count - 1) as nat, column, v, blobs),
                }
            },
        }
    }
}

/// Whether a payload holds `v` for a column. The column is tried at its place
/// in the schema first; a payload of another layout is searched by name.
pub open spec fn column_matches(
    buf: Seq<u8>,
    column: Seq<u8>,
    ordinal: Option<usize>,
    v: ValueView,
    blobs: Map<Seq<u8>, Seq<u8>>,
) -> Result<bool, ErrorView> {
    match payload::count_of(buf) {
        Err(m) => Err(ErrorView::Corrupt(m)),
        Ok(count) => match ordinal {
            Some(o) => if o < count {
                match nth_field(buf, 2, o as nat) {
                    Err(m) => Err(ErrorView::Corrupt(m)),
                    Ok((name, at)) => if name == column {
                        field_matches(buf, at, v, blobs)
                    } else {
                        named_matches(buf, 2, count, column, v, blobs)
                    },
                }
            } else {
                named_matches(buf, 2, count, column, v, blobs)
            },
            None => named_matches(buf, 2, count, column, v, blobs),
        },
    }
}

fn field_equals(buf: &[u8], at: usize, v: &Value, blobs: &Blobs) -> (r: Result<bool, Error>)
    requires
        blobs.wf(),
    ensures
        r is Ok <==> field_matches(buf@, at as int, v@, blobs@) is Ok,
        r matches Ok(b) ==> Ok::<bool, ErrorView>(b) == field_matches(buf@, at as int, v@, blobs@),
        r matches Err(e) ==> e@ == field_matches(buf@, at as int, v@, blobs@)->Err_0,
{
    match read_value(buf, at) {
        Err(e) => Err(e),
        Ok((stored, _)) => match resolve(stored, blobs) {
            Err(e) => Err(e),
            Ok(x) => Ok(same_value(&x, v)),
        },
    }
}

/// The field `skip` fields into the payload: whether it is named `column`, and
/// where its value stands.
fn nth_named(buf: &[u8], skip: usize, column: &[u8]) -> (r: Result<(bool, usize), Error>)
    requires
        buf@.len() >= 2,
    ensures
        r is Ok <==> nth_field(buf@, 2, skip as nat) is Ok,
        r matches Ok(p) ==> p.0 == (nth_field(buf@, 2, skip as nat)->Ok_0.0 == column@) && p.1 == nth_field(
            buf@,
            2,
            skip as nat,
        )->Ok_0.1,
        r matches Err(e) ==> e@ == ErrorView::Corrupt(nth_field(buf@, 2, skip as nat)->Err_0),
{
    let ghost target = nth_field(buf@, 2, skip as nat);
    let mut pos: usize = 2;
    let mut left: usize = skip;
    loop
        invariant
            target == nth_field(buf@, 2, skip as nat),
            target == nth_field(buf@, pos as int, left as nat),
        decreases left,
    {
        let (name, at) = match payload::read_field_name(buf, pos) {
            Ok(p) => p,
            Err(e) => {
                return Err(e);
            },
        };
        if left == 0 {
            return Ok((bytes::same_bytes(name.as_slice(), column), at));
        }
        pos = match value::skip_value(buf, at) {
            Ok(end) => end,
            Err(e) => {
                return Err(e);
            },
        };
        left = left - 1;
    }
}

/// Whether a payload holds `v` for a column, reading no other column's value.
pub fn encoded_record_column_eq(
    buf: &[u8],
    column: &str,
    ordinal: Option<usize>,
    v: &Value,
    blobs: &Blobs,
) -> (r: Result<bool, Error>)
    requires
        blobs.wf(),
    ensures
        r is Ok <==> column_matches(buf@, encode_utf8(column@), ordinal, v@, blobs@) is Ok,
        r matches Ok(b) ==> Ok::<bool, ErrorView>(b) == column_matches(buf@, encode_utf8(column@), ordinal, v@, blobs@),
        r matches Err(e) ==> e@ == column_matches(buf@, encode_utf8(column@), ordinal, v@, blobs@)->Err_0,
{
    let count: usize = match read_count(buf) {
        Ok(n) => n,
        Err(e) => {
            return Err(e);
        },
    };
    let name_bytes = column.as_bytes();
    match ordinal {
        Some(o) => {
            if o < count {
                match nth_named(buf, o, name_bytes) {
                    Err(e) => {
                        return Err(e);
                    },
                    Ok((same, at)) => {
                        if same {
                            return field_equals(buf, at, v, blobs);
                        }
                    },
                }
            }
        },
        None => {},
    }
    let ghost target = named_matches(buf@, 2, count as nat, encode_utf8(column@), v@, blobs@);
    assert(target == column_matches(buf@, encode_utf8(column@), ordinal, v@, blobs@));
    let mut pos: usize = 2;
    let mut left: usize = count;
    while left > 0
        invariant
            blobs.wf(),
            name_bytes@ == encode_utf8(column@),
            target == column_matches(buf@, encode_utf8(column@), ordinal, v@, blobs@),
            target == named_matches(buf@, pos as int, left as nat, encode_utf8(column@), v@, blobs@),
        decreases left,
    {
        let (name, at) = match read_payload_name(buf, pos) {
            Ok(p) => p,
            Err(e) => {
                return Err(e);
            },
        };
        if bytes::same_bytes(name.as_str().as_bytes(), name_bytes) {
            return field_equals(buf, at, v, blobs);
        }
        pos = match value::skip_value(buf, at) {
            Ok(end) => end,
            Err(e) => {
                return Err(e);
            },
        };
        left = left - 1;
    }
    Ok(false)
}

// ---- Sizes ------------------------------------------------------------------

pub open spec fn capped(n: int) -> int {
    if n > usize::MAX {
        usize::MAX as int
    } else {
        n
    }
}

/// The estimated size of one staged field.
pub open spec fn field_estimate(name: Seq<u8>, v: ValueView) -> int {
    let body: nat = match v {
        ValueView::Text(s) => encode_utf8(s).len() + 24,
        ValueView::Blob(data) => data.len() + 24,
        ValueView::Vector(w) => w.len() * 4 + 24,
        _ => vstd::layout::size_of::<Value>(),
    };
    (name.len() + 40 + body) as int
}

pub open spec fn fields_estimate(s: Seq<(Seq<u8>, ValueView)>) -> int
    decreases s.len(),
{
    if s.len() == 0 {
        0
    } else {
        fields_estimate(s.drop_last()) + field_estimate(s.last().0, s.last().1)
    }
}

/// The estimated size of a staged change of a record, or of its deletion.
pub open spec fn operation_estimate(table: Seq<char>, id: Seq<char>, fields: Option<Seq<(Seq<u8>, ValueView)>>) -> int {
    let body = match fields {
        Some(s) => fields_estimate(s),
        None => 0,
    };
    capped(encode_utf8(table).len() + encode_utf8(id).len() + 128 + body)
}

pub open spec fn operation_fields(op: Option<Record>) -> Option<Seq<(Seq<u8>, ValueView)>> {
    match op {
        Some(rec) => Some(rec.pairs()),
        None => None,
    }
}

/// The estimated memory of a staged change.
pub fn staged_operation_bytes(table: &str, id: &str, op: &Option<Record>) -> (r: usize)
    requires
        op matches Some(rec) ==> rec.wf(),
    ensures
        r == operation_estimate(table@, id@, operation_fields(*op)),
{
    let mut total: usize = 0;
    match op {
        Some(rec) => {
            let fields = rec.iter();
            let ghost s = rec.pairs();
            let mut i: usize = 0;
            assert(s.subrange(0, 0) =~= Seq::<(Seq<u8>, ValueView)>::empty());
            while i < fields.len()
                invariant
                    i <= fields@.len() == s.len(),
                    cow::entry_pairs(fields@) == s,
                    total == capped(fields_estimate(s.subrange(0, i as int))),
                    fields_estimate(s.subrange(0, i as int)) >= 0,
                decreases fields@.len() - i,
            {
                let (name, v) = fields[i];
                proof {
                    let t = s.subrange(0, i + 1);
                    assert(t.drop_last() =~= s.subrange(0, i as int));
                    assert(cow::entry_pairs(fields@)[i as int] == (name.rank(), v@));
                    assert(t.last() == (name.rank(), v@));
                }
                let body: usize = match v {
                    Value::Text(s) => bytes::byte_len(s.as_str()).saturating_add(24),
                    Value::Blob(data) => data.len().saturating_add(24),
                    Value::Vector(w) => {
                        if w.len() > usize::MAX / 4 {
                            usize::MAX
                        } else {
                            (w.len() * 4).saturating_add(24)
                        }
                    },
                    _ => std::mem::size_of::<Value>(),
                };
                total = total.saturating_add(bytes::byte_len(name.as_str())).saturating_add(40).saturating_add(body);
                i = i + 1;
            }
            assert(s.subrange(0, i as int) =~= s);
        },
        None => {},
    }
    bytes::byte_len(table).saturating_add(bytes::byte_len(id)).saturating_add(total).saturating_add(128)
}

// ---- Laws -------------------------------------------------------------------

/// The values of the columns: what the record holds for a column, or null.
pub open spec fn projected(columns: Seq<ColumnView>, rec: RecordView) -> RecordView {
    Map::new(|name: Seq<u8>| is_column(columns, name), |name: Seq<u8>| value_in(rec, name))
}

/// Whether each reference leads to the value that it was stored for.
pub open spec fn references_kept(
    columns: Seq<ColumnView>,
    rec: RecordView,
    external: Seq<Option<StoredView>>,
    blobs: Map<Seq<u8>, Seq<u8>>,
) -> bool {
    forall|i: int|
        0 <= i < columns.len() ==> resolved(column_stored(#[trigger] columns[i], rec, external[i]), blobs) == Ok::<
            ValueView,
            ErrorView,
        >(value_in(rec, encode_utf8(columns[i].name)))
}

#[verifier::spinoff_prover]
#[verifier::rlimit(60)]
proof fn lemma_record_from(
    prefix: Seq<u8>,
    columns: Seq<ColumnView>,
    rec: RecordView,
    external: Seq<Option<StoredView>>,
    blobs: Map<Seq<u8>, Seq<u8>>,
    acc: RecordView,
)
    requires
        record_fits(columns, rec, external),
        references_kept(columns, rec, external, blobs),
    ensures
        record_from(
            prefix + payload::body_bytes(ordered_fields(columns, rec, external)),
            prefix.len() as int,
            columns.len(),
            blobs,
            acc,
        ) == Ok::<RecordView, ErrorView>(acc.union_prefer_right(projected(columns, rec))),
    decreases columns.len(),
{
    let fields = ordered_fields(columns, rec, external);
    let buf = prefix + payload::body_bytes(fields);
    if columns.len() == 0 {
        assert(acc.union_prefer_right(projected(columns, rec)) =~= acc);
    } else {
        let c = columns[0];
        let name = encode_utf8(c.name);
        let stored = column_stored(c, rec, external[0]);
        let rest = columns.subrange(1, columns.len() as int);
        let rest_external = external.subrange(1, external.len() as int);
        let f = fields[0];
        let rest_fields = ordered_fields(rest, rec, rest_external);
        assert(fields =~= seq![f] + rest_fields);
        payload::lemma_body_front(f, rest_fields);
        bytes::lemma_radix_small();
        bytes::lemma_le_len(name.len(), 2);
        bytes::lemma_le_round_trip(name.len(), 2);
        let head = prefix + bytes::le(name.len(), 2) + name;
        let p = prefix.len() as int;
        let tail = payload::body_bytes(rest_fields);
        assert(buf =~= head + f.1 + tail);
        assert(buf.subrange(p, p + 2) =~= bytes::le(name.len(), 2));
        assert(buf.subrange(p + 2, p + 2 + name.len()) =~= name);
        encode_utf8_valid_utf8(c.name);
        assert(value::storable(column_stored(columns[0], rec, external[0])));
        value::lemma_field_round_trip(head, stored, tail);
        let v = value_in(rec, name);
        assert(resolved(column_stored(columns[0], rec, external[0]), blobs) == Ok::<ValueView, ErrorView>(v));
        assert forall|i: int| 0 <= i < rest.len() implies rest[i] == columns[i + 1] && rest_external[i] == external[i + 1] by {}
        assert(record_fits(rest, rec, rest_external)) by {
            assert forall|i: int| 0 <= i < rest.len() implies encode_utf8((#[trigger] rest[i]).name).len() <= u16::MAX
                && value::storable(column_stored(rest[i], rec, rest_external[i])) by {
                assert(encode_utf8(columns[i + 1].name).len() <= u16::MAX);
            }
        }
        assert(references_kept(rest, rec, rest_external, blobs)) by {
            assert forall|i: int| 0 <= i < rest.len() implies resolved(
                column_stored(#[trigger] rest[i], rec, rest_external[i]),
                blobs,
            ) == Ok::<ValueView, ErrorView>(value_in(rec, encode_utf8(rest[i].name))) by {
                assert(columns[i + 1] == rest[i]);
            }
        }
        lemma_record_from(head + f.1, rest, rec, rest_external, blobs, acc.insert(name, v));
        let a = acc.insert(name, v).union_prefer_right(projected(rest, rec));
        let b = acc.union_prefer_right(projected(columns, rec));
        assert forall|k: Seq<u8>| #[trigger] is_column(columns, k) <==> (k == name || is_column(rest, k)) by {
            if is_column(columns, k) {
                let i = choose|i: int| 0 <= i < columns.len() && encode_utf8((#[trigger] columns[i]).name) == k;
                if i > 0 {
                    assert(encode_utf8(rest[i - 1].name) == k);
                }
            }
            if is_column(rest, k) {
                let i = choose|i: int| 0 <= i < rest.len() && encode_utf8((#[trigger] rest[i]).name) == k;
                assert(encode_utf8(columns[i + 1].name) == k);
            }
            if k == name {
                assert(encode_utf8(columns[0].name) == k);
            }
        }
        assert forall|k: Seq<u8>| a.contains_key(k) == b.contains_key(k) by {
            assert(is_column(columns, k) <==> (k == name || is_column(rest, k)));
        }
        assert forall|k: Seq<u8>| a.contains_key(k) implies a[k] == b[k] by {
            assert(is_column(columns, k) <==> (k == name || is_column(rest, k)));
        }
        assert(a =~= b);
    }
}

/// The first field of a stored record: where it stands, and what it holds.
proof fn lemma_front_field(
    prefix: Seq<u8>,
    columns: Seq<ColumnView>,
    rec: RecordView,
    external: Seq<Option<StoredView>>,
    blobs: Map<Seq<u8>, Seq<u8>>,
    v: ValueView,
) -> (front: Seq<u8>)
    requires
        columns.len() > 0,
        record_fits(columns, rec, external),
        references_kept(columns, rec, external, blobs),
    ensures
        ({
            let rest = columns.subrange(1, columns.len() as int);
            let rest_external = external.subrange(1, external.len() as int);
            let buf = prefix + payload::body_bytes(ordered_fields(columns, rec, external));
            let name = encode_utf8(columns[0].name);
            let p = prefix.len() as int;
            let at = p + 2 + name.len();
            &&& payload::name_at(buf, p) == Ok::<(Seq<u8>, int), Seq<char>>((name, at))
            &&& payload::text_name_at(buf, p) == Ok::<(Seq<u8>, int), Seq<char>>((name, at))
            &&& field_matches(buf, at, v, blobs) == Ok::<bool, ErrorView>(value::value_eq(value_in(rec, name), v))
            &&& value::field_end(buf, at) == Ok::<int, Seq<char>>(front.len() as int)
            &&& buf == front + payload::body_bytes(ordered_fields(rest, rec, rest_external))
            &&& record_fits(rest, rec, rest_external)
            &&& references_kept(rest, rec, rest_external, blobs)
        }),
{
    let fields = ordered_fields(columns, rec, external);
    let buf = prefix + payload::body_bytes(fields);
    let c = columns[0];
    let name = encode_utf8(c.name);
    let stored = column_stored(c, rec, external[0]);
    let rest = columns.subrange(1, columns.len() as int);
    let rest_external = external.subrange(1, external.len() as int);
    let f = fields[0];
    let rest_fields = ordered_fields(rest, rec, rest_external);
    assert(fields =~= seq![f] + rest_fields);
    payload::lemma_body_front(f, rest_fields);
    bytes::lemma_radix_small();
    bytes::lemma_le_len(name.len(), 2);
    bytes::lemma_le_round_trip(name.len(), 2);
    let head = prefix + bytes::le(name.len(), 2) + name;
    let p = prefix.len() as int;
    let tail = payload::body_bytes(rest_fields);
    assert(buf =~= head + f.1 + tail);
    assert(buf.subrange(p, p + 2) =~= bytes::le(name.len(), 2));
    assert(buf.subrange(p + 2, p + 2 + name.len()) =~= name);
    encode_utf8_valid_utf8(c.name);
    assert(value::storable(column_stored(columns[0], rec, external[0])));
    value::lemma_field_round_trip(head, stored, tail);
    assert(resolved(column_stored(columns[0], rec, external[0]), blobs) == Ok::<ValueView, ErrorView>(value_in(rec, name)));
    assert forall|i: int| 0 <= i < rest.len() implies rest[i] == columns[i + 1] && rest_external[i] == external[i + 1] by {}
    assert(record_fits(rest, rec, rest_external)) by {
        assert forall|i: int| 0 <= i < rest.len() implies encode_utf8((#[trigger] rest[i]).name).len() <= u16::MAX
            && value::storable(column_stored(rest[i], rec, rest_external[i])) by {
            assert(encode_utf8(columns[i + 1].name).len() <= u16::MAX);
        }
    }
    assert(references_kept(rest, rec, rest_external, blobs)) by {
        assert forall|i: int| 0 <= i < rest.len() implies resolved(
            column_stored(#[trigger] rest[i], rec, rest_external[i]),
            blobs,
        ) == Ok::<ValueView, ErrorView>(value_in(rec, encode_utf8(rest[i].name))) by {
            assert(columns[i + 1] == rest[i]);
        }
    }
    head + f.1
}

proof fn lemma_nth_column(
    prefix: Seq<u8>,
    columns: Seq<ColumnView>,
    rec: RecordView,
    external: Seq<Option<StoredView>>,
    blobs: Map<Seq<u8>, Seq<u8>>,
    v: ValueView,
    k: int,
)
    requires
        record_fits(columns, rec, external),
        references_kept(columns, rec, external, blobs),
        0 <= k < columns.len(),
    ensures
        ({
            let buf = prefix + payload::body_bytes(ordered_fields(columns, rec, external));
            let name = encode_utf8(columns[k].name);
            nth_field(buf, prefix.len() as int, k as nat) matches Ok((found, at)) && found == name && field_matches(
                buf,
                at,
                v,
                blobs,
            ) == Ok::<bool, ErrorView>(value::value_eq(value_in(rec, name), v))
        }),
    decreases k,
{
    let front = lemma_front_field(prefix, columns, rec, external, blobs, v);
    if k > 0 {
        let rest = columns.subrange(1, columns.len() as int);
        lemma_nth_column(front, rest, rec, external.subrange(1, external.len() as int), blobs, v, k - 1);
        assert(rest[k - 1] == columns[k]);
    }
}

#[verifier::spinoff_prover]
#[verifier::rlimit(60)]
proof fn lemma_named_column(
    prefix: Seq<u8>,
    columns: Seq<ColumnView>,
    rec: RecordView,
    external: Seq<Option<StoredView>>,
    blobs: Map<Seq<u8>, Seq<u8>>,
    v: ValueView,
    column: Seq<u8>,
)
    requires
        record_fits(columns, rec, external),
        references_kept(columns, rec, external, blobs),
    ensures
        named_matches(
            prefix + payload::body_bytes(ordered_fields(columns, rec, external)),
            prefix.len() as int,
            columns.len(),
            column,
            v,
            blobs,
        ) == Ok::<bool, ErrorView>(is_column(columns, column) && value::value_eq(value_in(rec, column), v)),
    decreases columns.len(),
{
    if columns.len() > 0 {
        let front = lemma_front_field(prefix, columns, rec, external, blobs, v);
        let rest = columns.subrange(1, columns.len() as int);
        if encode_utf8(columns[0].name) != column {
            lemma_named_column(front, rest, rec, external.subrange(1, external.len() as int), blobs, v, column);
            if is_column(columns, column) {
                let i = choose|i: int| 0 <= i < columns.len() && encode_utf8((#[trigger] columns[i]).name) == column;
                assert(rest[i - 1] == columns[i]);
            }
            if is_column(rest, column) {
                let i = choose|i: int| 0 <= i < rest.len() && encode_utf8((#[trigger] rest[i]).name) == column;
                assert(columns[i + 1] == rest[i]);
            }
        }
    }
}

/// The ordinal of a column is a hint that never changes the answer: a stored
/// record matches exactly when the schema has the column and the record has the
/// value there, whatever the ordinal says.
pub proof fn lemma_ordinal_is_a_hint(
    columns: Seq<ColumnView>,
    rec: RecordView,
    external: Seq<Option<StoredView>>,
    blobs: Map<Seq<u8>, Seq<u8>>,
    column: Seq<u8>,
    ordinal: Option<usize>,
    v: ValueView,
)
    requires
        record_fits(columns, rec, external),
        references_kept(columns, rec, external, blobs),
    ensures
        column_matches(payload::payload_bytes(ordered_fields(columns, rec, external)), column, ordinal, v, blobs) == Ok::<
            bool,
            ErrorView,
        >(is_column(columns, column) && value::value_eq(value_in(rec, column), v)),
{
    let head = bytes::le(columns.len(), 2);
    let buf = payload::payload_bytes(ordered_fields(columns, rec, external));
    bytes::lemma_radix_small();
    bytes::lemma_le_len(columns.len(), 2);
    bytes::lemma_le_round_trip(columns.len(), 2);
    assert(buf.subrange(0, 2) =~= head);
    lemma_named_column(head, columns, rec, external, blobs, v, column);
    match ordinal {
        Some(o) => if o < columns.len() {
            lemma_nth_column(head, columns, rec, external, blobs, v, o as int);
            if encode_utf8(columns[o as int].name) == column {
                assert(is_column(columns, column));
            }
        },
        None => {},
    }
}

/// No two of the fields from `pos` on have one name.
pub open spec fn fields_apart(buf: Seq<u8>, pos: int, count: nat) -> bool {
    forall|i: nat, j: nat|
        i < j < count ==> ((#[trigger] nth_field(buf, pos, i)) matches Ok(a) && (#[trigger] nth_field(buf, pos, j)) matches Ok(b) ==> a.0
            != b.0)
}

/// No two fields of a payload have one name.
pub open spec fn names_apart(buf: Seq<u8>) -> bool {
    payload::count_of(buf) matches Ok(n) ==> fields_apart(buf, 2, n)
}

/// A field has the name.
pub open spec fn nth_is(buf: Seq<u8>, pos: int, i: nat, column: Seq<u8>) -> bool {
    nth_field(buf, pos, i) matches Ok(f) && f.0 == column
}

proof fn lemma_record_from_named(
    buf: Seq<u8>,
    pos: int,
    count: nat,
    blobs: Map<Seq<u8>, Seq<u8>>,
    acc: RecordView,
    column: Seq<u8>,
    v: ValueView,
)
    requires
        record_from(buf, pos, count, blobs, acc) is Ok,
        fields_apart(buf, pos, count),
    ensures
        ({
            let rec = record_from(buf, pos, count, blobs, acc)->Ok_0;
            &&& forall|i: nat| i < count ==> (#[trigger] nth_field(buf, pos, i)) is Ok
            &&& forall|i: nat| i < count && #[trigger] nth_is(buf, pos, i, column) ==> rec.contains_key(column) && field_matches(
                buf,
                nth_field(buf, pos, i)->Ok_0.1,
                v,
                blobs,
            ) == Ok::<bool, ErrorView>(value::value_eq(rec[column], v))
            &&& if exists|i: nat| i < count && #[trigger] nth_is(buf, pos, i, column) {
                rec.contains_key(column) && named_matches(buf, pos, count, column, v, blobs) == Ok::<bool, ErrorView>(
                    value::value_eq(rec[column], v),
                )
            } else {
                &&& named_matches(buf, pos, count, column, v, blobs) == Ok::<bool, ErrorView>(false)
                &&& rec.contains_key(column) == acc.contains_key(column)
                &&& rec.contains_key(column) ==> rec[column] == acc[column]
            }
        }),
    decreases count,
{
    if count > 0 {
        let (name, at) = payload::text_name_at(buf, pos)->Ok_0;
        let (s, end) = value::field_at(buf, at)->Ok_0;
        let x = resolved(s, blobs)->Ok_0;
        let left = (count - 1) as nat;
        assert(value::field_end(buf, at) == Ok::<int, Seq<char>>(end));
        assert forall|i: nat| #[trigger] nth_field(buf, end, i) == nth_field(buf, pos, i + 1) by {}
        assert(fields_apart(buf, end, left)) by {
            assert forall|i: nat, j: nat| i < j < left implies ((#[trigger] nth_field(buf, end, i)) matches Ok(a) && (
            #[trigger] nth_field(buf, end, j)) matches Ok(b) ==> a.0 != b.0) by {
                assert(nth_field(buf, pos, i + 1) == nth_field(buf, end, i));
                assert(nth_field(buf, pos, j + 1) == nth_field(buf, end, j));
            }
        }
        lemma_record_from_named(buf, end, left, blobs, acc.insert(name, x), column, v);
        let rec = record_from(buf, pos, count, blobs, acc)->Ok_0;
        assert(nth_field(buf, pos, 0) == Ok::<(Seq<u8>, int), Seq<char>>((name, at)));
        assert forall|i: nat| i < count implies (#[trigger] nth_field(buf, pos, i)) is Ok by {
            if i > 0 {
                assert(nth_field(buf, end, (i - 1) as nat) is Ok);
            }
        }
        if name == column {
            if exists|i: nat| i < left && #[trigger] nth_is(buf, end, i, column) {
                let i = choose|i: nat| i < left && #[trigger] nth_is(buf, end, i, column);
                assert(nth_field(buf, pos, i + 1) == nth_field(buf, end, i));
                assert(nth_field(buf, pos, 0)->Ok_0.0 != nth_field(buf, pos, i + 1)->Ok_0.0);
            }
            assert(rec[column] == x);
            assert(nth_is(buf, pos, 0, column));
        }
        assert forall|i: nat| i < count && #[trigger] nth_is(buf, pos, i, column) implies rec.contains_key(column) && field_matches(
            buf,
            nth_field(buf, pos, i)->Ok_0.1,
            v,
            blobs,
        ) == Ok::<bool, ErrorView>(value::value_eq(rec[column], v)) by {
            if i > 0 {
                assert(nth_field(buf, pos, i) == nth_field(buf, end, (i - 1) as nat));
                assert(nth_is(buf, end, (i - 1) as nat, column));
            }
        }
        if name != column {
            if exists|i: nat| i < left && #[trigger] nth_is(buf, end, i, column) {
                let i = choose|i: nat| i < left && #[trigger] nth_is(buf, end, i, column);
                assert(nth_field(buf, pos, i + 1) == nth_field(buf, end, i));
                assert(nth_is(buf, pos, i + 1, column));
            }
            if exists|i: nat| i < count && #[trigger] nth_is(buf, pos, i, column) {
                let i = choose|i: nat| i < count && #[trigger] nth_is(buf, pos, i, column);
                assert(nth_field(buf, pos, i) == nth_field(buf, end, (i - 1) as nat));
                assert(nth_is(buf, end, (i - 1) as nat, column));
            }
        }
    }
}

/// A payload whose fields have distinct names matches exactly when its record
/// has the value, whatever the ordinal says.
pub proof fn lemma_matches_record(buf: Seq<u8>, blobs: Map<Seq<u8>, Seq<u8>>, column: Seq<u8>, ordinal: Option<usize>, v: ValueView)
    requires
        decoded(buf, blobs) is Ok,
        names_apart(buf),
    ensures
        ({
            let rec = decoded(buf, blobs)->Ok_0;
            column_matches(buf, column, ordinal, v, blobs) == Ok::<bool, ErrorView>(
                rec.contains_key(column) && value::value_eq(rec[column], v),
            )
        }),
{
    let n = payload::count_of(buf)->Ok_0;
    lemma_record_from_named(buf, 2, n, blobs, Map::empty(), column, v);
    match ordinal {
        Some(o) => if o < n {
            assert(nth_field(buf, 2, o as nat) is Ok);
            if nth_field(buf, 2, o as nat)->Ok_0.0 == column {
                assert(nth_is(buf, 2, o as nat, column));
            }
        },
        None => {},
    }
}

proof fn lemma_fill_from(buf: Seq<u8>, pos: int, count: nat, blobs: Map<Seq<u8>, Seq<u8>>, acc: RecordView, column: Seq<u8>)
    requires
        record_from(buf, pos, count, blobs, acc) is Ok,
    ensures
        if exists|i: nat| i < count && #[trigger] nth_is(buf, pos, i, column) {
            named_matches(buf, pos, count, column, ValueView::Null, blobs) is Ok && payload::fill_from(buf, pos, count, column) == Ok::<
                bool,
                Seq<char>,
            >(named_matches(buf, pos, count, column, ValueView::Null, blobs)->Ok_0)
        } else {
            payload::fill_from(buf, pos, count, column) == Ok::<bool, Seq<char>>(true)
        },
    decreases count,
{
    if count > 0 {
        let (name, at) = payload::text_name_at(buf, pos)->Ok_0;
        let (s, end) = value::field_at(buf, at)->Ok_0;
        let x = resolved(s, blobs)->Ok_0;
        let left = (count - 1) as nat;
        assert(value::field_end(buf, at) == Ok::<int, Seq<char>>(end));
        assert forall|i: nat| #[trigger] nth_field(buf, end, i) == nth_field(buf, pos, i + 1) by {}
        lemma_fill_from(buf, end, left, blobs, acc.insert(name, x), column);
        assert(nth_field(buf, pos, 0) == Ok::<(Seq<u8>, int), Seq<char>>((name, at)));
        if name == column {
            assert(nth_is(buf, pos, 0, column));
        } else {
            if exists|i: nat| i < left && #[trigger] nth_is(buf, end, i, column) {
                let i = choose|i: nat| i < left && #[trigger] nth_is(buf, end, i, column);
                assert(nth_field(buf, pos, i + 1) == nth_field(buf, end, i));
                assert(nth_is(buf, pos, i + 1, column));
            }
            if exists|i: nat| i < count && #[trigger] nth_is(buf, pos, i, column) {
                let i = choose|i: nat| i < count && #[trigger] nth_is(buf, pos, i, column);
                assert(nth_field(buf, pos, i) == nth_field(buf, end, (i - 1) as nat));
                assert(nth_is(buf, end, (i - 1) as nat, column));
            }
        }
    }
}

/// A payload whose fields have distinct names has no value for a column exactly
/// when its record has none there, or null.
pub proof fn lemma_fill_record(buf: Seq<u8>, blobs: Map<Seq<u8>, Seq<u8>>, column: Seq<u8>)
    requires
        decoded(buf, blobs) is Ok,
        names_apart(buf),
    ensures
        ({
            let rec = decoded(buf, blobs)->Ok_0;
            payload::needs_fill(buf, column) == Ok::<bool, Seq<char>>(!rec.contains_key(column) || rec[column] is Null)
        }),
{
    let n = payload::count_of(buf)->Ok_0;
    lemma_record_from_named(buf, 2, n, blobs, Map::empty(), column, ValueView::Null);
    lemma_fill_from(buf, 2, n, blobs, Map::empty(), column);
}

/// What the encoder writes for distinct columns has fields with distinct names.
pub proof fn lemma_encoded_apart(
    columns: Seq<ColumnView>,
    rec: RecordView,
    external: Seq<Option<StoredView>>,
    blobs: Map<Seq<u8>, Seq<u8>>,
)
    requires
        record_fits(columns, rec, external),
        references_kept(columns, rec, external, blobs),
        model::distinct(crate::schema::column_names(columns)),
    ensures
        names_apart(payload::payload_bytes(ordered_fields(columns, rec, external))),
{
    let head = bytes::le(columns.len(), 2);
    let buf = payload::payload_bytes(ordered_fields(columns, rec, external));
    let names = crate::schema::column_names(columns);
    bytes::lemma_radix_small();
    bytes::lemma_le_len(columns.len(), 2);
    bytes::lemma_le_round_trip(columns.len(), 2);
    assert(buf.subrange(0, 2) =~= head);
    assert forall|i: nat, j: nat| i < j < columns.len() implies ((#[trigger] nth_field(buf, 2, i)) matches Ok(a) && (
    #[trigger] nth_field(buf, 2, j)) matches Ok(b) ==> a.0 != b.0) by {
        lemma_nth_column(head, columns, rec, external, blobs, ValueView::Null, i as int);
        lemma_nth_column(head, columns, rec, external, blobs, ValueView::Null, j as int);
        assert(names[i as int] != names[j as int]);
        bytes::lemma_utf8_injective(columns[i as int].name, columns[j as int].name);
    }
}

/// Reading a stored record gives back, for every column of the schema, the
/// value that the record had, or null where it had none.
pub proof fn lemma_record_round_trip(
    columns: Seq<ColumnView>,
    rec: RecordView,
    external: Seq<Option<StoredView>>,
    blobs: Map<Seq<u8>, Seq<u8>>,
)
    requires
        record_fits(columns, rec, external),
        references_kept(columns, rec, external, blobs),
    ensures
        decoded(payload::payload_bytes(ordered_fields(columns, rec, external)), blobs) == Ok::<RecordView, ErrorView>(
            projected(columns, rec),
        ),
{
    let fields = ordered_fields(columns, rec, external);
    let head = bytes::le(columns.len(), 2);
    bytes::lemma_radix_small();
    bytes::lemma_le_len(columns.len(), 2);
    bytes::lemma_le_round_trip(columns.len(), 2);
    assert(payload::payload_bytes(fields).subrange(0, 2) =~= head);
    lemma_record_from(head, columns, rec, external, blobs, Map::empty());
    assert(Map::<Seq<u8>, ValueView>::empty().union_prefer_right(projected(columns, rec)) =~= projected(columns, rec));
}

/// What the encoder writes are whole fields, one for each column and in their
/// order: a payload of a record can be taken apart, and its columns renamed and
/// removed.
pub proof fn lemma_encoded_whole(columns: Seq<ColumnView>, rec: RecordView, external: Seq<Option<StoredView>>)
    requires
        record_fits(columns, rec, external),
    ensures
        forall|i: int|
            0 <= i < ordered_fields(columns, rec, external).len() ==> payload::whole_field(
                #[trigger] ordered_fields(columns, rec, external)[i],
            ),
        payload::fields_of(payload::payload_bytes(ordered_fields(columns, rec, external))) == Ok::<Seq<payload::RawField>, Seq<char>>(
            ordered_fields(columns, rec, external),
        ),
{
    let fields = ordered_fields(columns, rec, external);
    let none = Seq::<u8>::empty();
    assert forall|i: int| 0 <= i < fields.len() implies payload::whole_field(#[trigger] fields[i]) by {
        let v = column_stored(columns[i], rec, external[i]);
        assert(encode_utf8(columns[i].name).len() <= u16::MAX && value::storable(v));
        value::lemma_field_round_trip(none, v, none);
        assert(none + value::stored_bytes(v) + none =~= value::stored_bytes(v));
        encode_utf8_valid_utf8(columns[i].name);
    }
    payload::lemma_payload_round_trip(fields);
}

/// Renaming a column of a stored record there and back gives its bytes again,
/// where no column had the other name.
pub proof fn lemma_encoded_rename_back(
    columns: Seq<ColumnView>,
    rec: RecordView,
    external: Seq<Option<StoredView>>,
    from: Seq<char>,
    to: Seq<char>,
)
    requires
        record_fits(columns, rec, external),
        forall|i: int| 0 <= i < columns.len() ==> (#[trigger] columns[i]).name != to,
        encode_utf8(to).len() <= u16::MAX,
    ensures
        ({
            let fields = ordered_fields(columns, rec, external);
            let there = payload::payload_bytes(payload::rewritten(fields, Some((encode_utf8(from), encode_utf8(to))), None));
            &&& payload::fields_of(there) is Ok
            &&& payload::payload_bytes(
                payload::rewritten(payload::fields_of(there)->Ok_0, Some((encode_utf8(to), encode_utf8(from))), None),
            ) == payload::payload_bytes(fields)
        }),
{
    let fields = ordered_fields(columns, rec, external);
    lemma_encoded_whole(columns, rec, external);
    encode_utf8_valid_utf8(to);
    assert(payload::no_field(fields, encode_utf8(to))) by {
        assert forall|i: int| 0 <= i < fields.len() implies (#[trigger] fields[i]).0 != encode_utf8(to) by {
            bytes::lemma_utf8_injective(columns[i].name, to);
        }
    }
    payload::lemma_rename_back(fields, encode_utf8(from), encode_utf8(to));
}

/// A record that passes the check has a value for every column, and each is
/// either allowed in its column or the column's default.
#[verifier::spinoff_prover]
#[verifier::rlimit(60)]
pub proof fn lemma_normalized(columns: Seq<ColumnView>, rec: RecordView)
    requires
        with_columns(columns, rec) is Ok,
    ensures
        ({
            let out = with_columns(columns, rec)->Ok_0;
            &&& forall|k: Seq<u8>| #[trigger] out.contains_key(k) <==> rec.contains_key(k) || is_column(columns, k)
            &&& forall|k: Seq<u8>| #[trigger] rec.contains_key(k) ==> out[k] == rec[k]
            &&& forall|i: int|
                0 <= i < columns.len() ==> {
                    let v = out[encode_utf8((#[trigger] columns[i]).name)];
                    value_error(columns[i], v) is None || exists|j: int|
                        0 <= j < columns.len() && encode_utf8((#[trigger] columns[j]).name) == encode_utf8(columns[i].name) && v
                            == schema::default_of(columns[j])
                }
        }),
    decreases columns.len(),
{
    if columns.len() > 0 {
        let head = columns.drop_last();
        let c = columns.last();
        let name = encode_utf8(c.name);
        lemma_normalized(head, rec);
        let mid = with_columns(head, rec)->Ok_0;
        let out = with_columns(columns, rec)->Ok_0;
        assert forall|k: Seq<u8>| #[trigger] is_column(columns, k) <==> (is_column(head, k) || k == name) by {
            if is_column(columns, k) {
                let i = choose|i: int| 0 <= i < columns.len() && encode_utf8((#[trigger] columns[i]).name) == k;
                if i < head.len() {
                    assert(encode_utf8(head[i].name) == k);
                }
            }
            if is_column(head, k) {
                let i = choose|i: int| 0 <= i < head.len() && encode_utf8((#[trigger] head[i]).name) == k;
                assert(encode_utf8(columns[i].name) == k);
            }
            if k == name {
                assert(encode_utf8(columns[columns.len() - 1].name) == k);
            }
        }
        assert forall|k: Seq<u8>| #[trigger] out.contains_key(k) <==> rec.contains_key(k) || is_column(columns, k) by {
            assert(is_column(columns, k) <==> (is_column(head, k) || k == name));
            assert(mid.contains_key(k) <==> rec.contains_key(k) || is_column(head, k));
        }
        assert forall|k: Seq<u8>| #[trigger] rec.contains_key(k) implies out[k] == rec[k] by {
            assert(mid.contains_key(k));
        }
        assert forall|i: int| 0 <= i < columns.len() implies ({
            let v = out[encode_utf8((#[trigger] columns[i]).name)];
            value_error(columns[i], v) is None || exists|j: int|
                0 <= j < columns.len() && encode_utf8((#[trigger] columns[j]).name) == encode_utf8(columns[i].name) && v
                    == schema::default_of(columns[j])
        }) by {
            let k = encode_utf8(columns[i].name);
            if i < head.len() {
                assert(head[i] == columns[i]);
                assert(is_column(head, k));
                assert(mid.contains_key(k));
                assert(out[k] == mid[k]);
                if value_error(columns[i], mid[k]) is Some {
                    let j = choose|j: int|
                        0 <= j < head.len() && encode_utf8((#[trigger] head[j]).name) == encode_utf8(head[i].name) && mid[k]
                            == schema::default_of(head[j]);
                    assert(columns[j] == head[j]);
                }
            } else {
                assert(columns[i] == c);
            }
        }
    }
}

} // verus!
