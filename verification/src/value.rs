//! Column values, their types and their stored form.
//!
//! Floating-point numbers are held by their bits. A JSON document is held by
//! its text.

use crate::bytes::{self, push_all, push_le, read_le, same_text, text_from_utf8};
use crate::error::{corrupt, Error, ErrorView};
use crate::order::Datum;
use vstd::prelude::*;
use vstd::utf8::*;

verus! {

#[derive(Debug, Clone, Copy, PartialEq, Eq, Structural)]
pub enum ColumnType {
    Bool,
    Int64,
    Float64,
    Text,
    Blob,
    Timestamp,
    Json,
    Vector,
    Date,
    Time,
}

#[derive(Debug)]
pub enum Value {
    Null,
    Bool(bool),
    Int64(i64),
    /// The bits of a 64-bit float.
    Float64(u64),
    Text(String),
    Blob(Vec<u8>),
    /// Microseconds after 1970-01-01.
    Timestamp(i64),
    /// The text of a JSON document.
    Json(String),
    /// The bits of the components, each a 32-bit float.
    Vector(Vec<u32>),
    /// Days after 1970-01-01.
    Date(i32),
    /// Microseconds of the day.
    Time(i64),
}

#[verifier::ext_equal]
pub enum ValueView {
    Null,
    Bool(bool),
    Int64(i64),
    Float64(u64),
    Text(Seq<char>),
    Blob(Seq<u8>),
    Timestamp(i64),
    Json(Seq<char>),
    Vector(Seq<u32>),
    Date(i32),
    Time(i64),
}

impl View for Value {
    type V = ValueView;

    open spec fn view(&self) -> ValueView {
        match self {
            Value::Null => ValueView::Null,
            Value::Bool(b) => ValueView::Bool(*b),
            Value::Int64(n) => ValueView::Int64(*n),
            Value::Float64(bits) => ValueView::Float64(*bits),
            Value::Text(s) => ValueView::Text(s@),
            Value::Blob(data) => ValueView::Blob(data@),
            Value::Timestamp(us) => ValueView::Timestamp(*us),
            Value::Json(s) => ValueView::Json(s@),
            Value::Vector(v) => ValueView::Vector(v@),
            Value::Date(days) => ValueView::Date(*days),
            Value::Time(us) => ValueView::Time(*us),
        }
    }
}

impl Datum for Value {
    open spec fn valid(&self) -> bool {
        true
    }

    fn duplicate(&self) -> (r: Self) {
        let r = match self {
            Value::Null => Value::Null,
            Value::Bool(b) => Value::Bool(*b),
            Value::Int64(n) => Value::Int64(*n),
            Value::Float64(bits) => Value::Float64(*bits),
            Value::Text(s) => Value::Text(s.clone()),
            Value::Blob(data) => Value::Blob(bytes::copy_of(data.as_slice())),
            Value::Timestamp(us) => Value::Timestamp(*us),
            Value::Json(s) => Value::Json(s.clone()),
            Value::Vector(v) => Value::Vector(copy_components(v)),
            Value::Date(days) => Value::Date(*days),
            Value::Time(us) => Value::Time(*us),
        };
        assert(r.valid());
        r
    }
}

fn copy_components(v: &Vec<u32>) -> (r: Vec<u32>)
    ensures
        r@ == v@,
{
    let mut out: Vec<u32> = Vec::new();
    let mut i: usize = 0;
    while i < v.len()
        invariant
            i <= v@.len(),
            out@ == v@.subrange(0, i as int),
        decreases v@.len() - i,
    {
        out.push(v[i]);
        assert(v@.subrange(0, i + 1) =~= v@.subrange(0, i as int).push(v@[i as int]));
        i = i + 1;
    }
    assert(out@ =~= v@);
    out
}

// ---- Equality ---------------------------------------------------------------

/// Whether the bits are those of a 64-bit float that is not a number.
pub open spec fn is_nan64(bits: u64) -> bool {
    bits % 0x8000_0000_0000_0000 > 0x7ff0_0000_0000_0000
}

/// Whether two 64-bit floats are equal as numbers: no number equals what is not
/// one, and both zeros are the same number.
pub open spec fn float64_eq(a: u64, b: u64) -> bool {
    if is_nan64(a) || is_nan64(b) {
        false
    } else {
        a == b || (a % 0x8000_0000_0000_0000 == 0 && b % 0x8000_0000_0000_0000 == 0)
    }
}

pub open spec fn is_nan32(bits: u32) -> bool {
    bits % 0x8000_0000 > 0x7f80_0000
}

pub open spec fn float32_eq(a: u32, b: u32) -> bool {
    if is_nan32(a) || is_nan32(b) {
        false
    } else {
        a == b || (a % 0x8000_0000 == 0 && b % 0x8000_0000 == 0)
    }
}

pub open spec fn vector_eq(a: Seq<u32>, b: Seq<u32>) -> bool {
    a.len() == b.len() && forall|i: int| 0 <= i < a.len() ==> float32_eq(#[trigger] a[i], b[i])
}

/// Whether two values of one type are equal; values of two types never are.
pub open spec fn value_eq(a: ValueView, b: ValueView) -> bool {
    match (a, b) {
        (ValueView::Float64(x), ValueView::Float64(y)) => float64_eq(x, y),
        (ValueView::Vector(x), ValueView::Vector(y)) => vector_eq(x, y),
        _ => a == b,
    }
}

fn same_float64(a: u64, b: u64) -> (r: bool)
    ensures
        r == float64_eq(a, b),
{
    let x: u64 = a % 0x8000_0000_0000_0000;
    let y: u64 = b % 0x8000_0000_0000_0000;
    if x > 0x7ff0_0000_0000_0000 || y > 0x7ff0_0000_0000_0000 {
        false
    } else {
        a == b || (x == 0 && y == 0)
    }
}

fn same_vector(a: &Vec<u32>, b: &Vec<u32>) -> (r: bool)
    ensures
        r == vector_eq(a@, b@),
{
    if a.len() != b.len() {
        return false;
    }
    let mut i: usize = 0;
    while i < a.len()
        invariant
            i <= a@.len() == b@.len(),
            forall|j: int| 0 <= j < i ==> float32_eq(#[trigger] a@[j], b@[j]),
        decreases a@.len() - i,
    {
        let x: u32 = a[i] % 0x8000_0000;
        let y: u32 = b[i] % 0x8000_0000;
        let same: bool = if x > 0x7f80_0000 || y > 0x7f80_0000 {
            false
        } else {
            a[i] == b[i] || (x == 0 && y == 0)
        };
        if !same {
            assert(!float32_eq(a@[i as int], b@[i as int]));
            return false;
        }
        i = i + 1;
    }
    true
}

/// Whether two values are equal.
pub fn same_value(a: &Value, b: &Value) -> (r: bool)
    ensures
        r == value_eq(a@, b@),
{
    match (a, b) {
        (Value::Null, Value::Null) => true,
        (Value::Bool(x), Value::Bool(y)) => *x == *y,
        (Value::Int64(x), Value::Int64(y)) => *x == *y,
        (Value::Float64(x), Value::Float64(y)) => same_float64(*x, *y),
        (Value::Text(x), Value::Text(y)) => same_text(x.as_str(), y.as_str()),
        (Value::Blob(x), Value::Blob(y)) => bytes::same_bytes(x.as_slice(), y.as_slice()),
        (Value::Timestamp(x), Value::Timestamp(y)) => *x == *y,
        (Value::Json(x), Value::Json(y)) => same_text(x.as_str(), y.as_str()),
        (Value::Vector(x), Value::Vector(y)) => same_vector(x, y),
        (Value::Date(x), Value::Date(y)) => *x == *y,
        (Value::Time(x), Value::Time(y)) => *x == *y,
        _ => false,
    }
}

impl Value {
    pub fn is_null(&self) -> (r: bool)
        ensures
            r == (self@ is Null),
    {
        match self {
            Value::Null => true,
            _ => false,
        }
    }

    /// Whether the value is of the type; null is of every type.
    pub fn matches(&self, ty: ColumnType) -> (r: bool)
        ensures
            r == has_type(self@, ty),
    {
        match (self, ty) {
            (Value::Null, _) => true,
            (Value::Bool(_), ColumnType::Bool) => true,
            (Value::Int64(_), ColumnType::Int64) => true,
            (Value::Float64(_), ColumnType::Float64) => true,
            (Value::Text(_), ColumnType::Text) => true,
            (Value::Blob(_), ColumnType::Blob) => true,
            (Value::Timestamp(_), ColumnType::Timestamp) => true,
            (Value::Json(_), ColumnType::Json) => true,
            (Value::Vector(_), ColumnType::Vector) => true,
            (Value::Date(_), ColumnType::Date) => true,
            (Value::Time(_), ColumnType::Time) => true,
            _ => false,
        }
    }
}

pub open spec fn has_type(v: ValueView, ty: ColumnType) -> bool {
    match v {
        ValueView::Null => true,
        ValueView::Bool(_) => ty == ColumnType::Bool,
        ValueView::Int64(_) => ty == ColumnType::Int64,
        ValueView::Float64(_) => ty == ColumnType::Float64,
        ValueView::Text(_) => ty == ColumnType::Text,
        ValueView::Blob(_) => ty == ColumnType::Blob,
        ValueView::Timestamp(_) => ty == ColumnType::Timestamp,
        ValueView::Json(_) => ty == ColumnType::Json,
        ValueView::Vector(_) => ty == ColumnType::Vector,
        ValueView::Date(_) => ty == ColumnType::Date,
        ValueView::Time(_) => ty == ColumnType::Time,
    }
}

/// The name of a type.
pub open spec fn type_text(ty: ColumnType) -> Seq<char> {
    match ty {
        ColumnType::Bool => "bool"@,
        ColumnType::Int64 => "int64"@,
        ColumnType::Float64 => "float64"@,
        ColumnType::Text => "text"@,
        ColumnType::Blob => "blob"@,
        ColumnType::Timestamp => "timestamp"@,
        ColumnType::Json => "json"@,
        ColumnType::Vector => "vector"@,
        ColumnType::Date => "date"@,
        ColumnType::Time => "time"@,
    }
}

pub fn column_type_text(ty: ColumnType) -> (r: &'static str)
    ensures
        r@ == type_text(ty),
{
    match ty {
        ColumnType::Bool => "bool",
        ColumnType::Int64 => "int64",
        ColumnType::Float64 => "float64",
        ColumnType::Text => "text",
        ColumnType::Blob => "blob",
        ColumnType::Timestamp => "timestamp",
        ColumnType::Json => "json",
        ColumnType::Vector => "vector",
        ColumnType::Date => "date",
        ColumnType::Time => "time",
    }
}

// ---- Stored form ------------------------------------------------------------

pub const TAG_NULL: u8 = 0;

pub const TAG_BOOL: u8 = 1;

pub const TAG_INT64: u8 = 2;

pub const TAG_FLOAT64: u8 = 3;

pub const TAG_TEXT: u8 = 4;

pub const TAG_BLOB: u8 = 5;

pub const TAG_TIMESTAMP: u8 = 6;

pub const TAG_JSON: u8 = 7;

pub const TAG_VECTOR: u8 = 8;

pub const TAG_DATE: u8 = 9;

pub const TAG_TIME: u8 = 10;

pub const TAG_BLOB_REF: u8 = 11;

/// Where an out-of-line blob is kept, how long it is, and its checksum.
#[derive(Debug)]
pub struct BlobRef {
    pub name: String,
    pub len: u64,
    pub crc: u32,
}

/// What one stored field holds.
pub enum Stored {
    Value(Value),
    External(BlobRef),
}

#[verifier::ext_equal]
pub enum StoredView {
    Value(ValueView),
    External { name: Seq<char>, len: u64, crc: u32 },
}

impl View for Stored {
    type V = StoredView;

    open spec fn view(&self) -> StoredView {
        match self {
            Stored::Value(v) => StoredView::Value(v@),
            Stored::External(r) => StoredView::External { name: r.name@, len: r.len, crc: r.crc },
        }
    }
}

/// The two's complement of `n` in 64 bits.
pub open spec fn bits64(n: i64) -> nat {
    if n >= 0 {
        n as nat
    } else {
        (n + 0x1_0000_0000_0000_0000) as nat
    }
}

pub open spec fn bits32(n: i32) -> nat {
    if n >= 0 {
        n as nat
    } else {
        (n + 0x1_0000_0000) as nat
    }
}

pub open spec fn from_bits64(n: nat) -> i64 {
    if n < 0x8000_0000_0000_0000 {
        n as i64
    } else {
        (n - 0x1_0000_0000_0000_0000) as i64
    }
}

pub open spec fn from_bits32(n: nat) -> i32 {
    if n < 0x8000_0000 {
        n as i32
    } else {
        (n - 0x1_0000_0000) as i32
    }
}

/// The components, each in four bytes.
pub open spec fn component_bytes(v: Seq<u32>) -> Seq<u8>
    decreases v.len(),
{
    if v.len() == 0 {
        Seq::empty()
    } else {
        component_bytes(v.drop_last()) + bytes::le(v.last() as nat, 4)
    }
}

pub open spec fn counted(data: Seq<u8>) -> Seq<u8> {
    bytes::le(data.len(), 4) + data
}

/// The stored form of a value: a tag, then the body.
pub open spec fn encoded(v: ValueView) -> Seq<u8> {
    match v {
        ValueView::Null => seq![TAG_NULL],
        ValueView::Bool(b) => seq![TAG_BOOL, if b { 1u8 } else { 0u8 }],
        ValueView::Int64(n) => seq![TAG_INT64] + bytes::le(bits64(n), 8),
        ValueView::Float64(bits) => seq![TAG_FLOAT64] + bytes::le(bits as nat, 8),
        ValueView::Text(s) => seq![TAG_TEXT] + counted(encode_utf8(s)),
        ValueView::Blob(data) => seq![TAG_BLOB] + counted(data),
        ValueView::Timestamp(us) => seq![TAG_TIMESTAMP] + bytes::le(bits64(us), 8),
        ValueView::Json(s) => seq![TAG_JSON] + counted(encode_utf8(s)),
        ValueView::Vector(v) => seq![TAG_VECTOR] + (bytes::le(v.len(), 4) + component_bytes(v)),
        ValueView::Date(days) => seq![TAG_DATE] + bytes::le(bits32(days), 4),
        ValueView::Time(us) => seq![TAG_TIME] + bytes::le(bits64(us), 8),
    }
}

/// Whether the value's length can be written in its stored form.
pub open spec fn encodable(v: ValueView) -> bool {
    match v {
        ValueView::Text(s) => encode_utf8(s).len() <= u32::MAX,
        ValueView::Blob(data) => data.len() <= u32::MAX,
        ValueView::Json(s) => encode_utf8(s).len() <= u32::MAX,
        ValueView::Vector(v) => v.len() <= u32::MAX,
        _ => true,
    }
}

/// The stored form of a reference to an out-of-line blob.
pub open spec fn encoded_ref(name: Seq<char>, len: u64, crc: u32) -> Seq<u8> {
    seq![TAG_BLOB_REF] + (bytes::le(encode_utf8(name).len(), 2) + encode_utf8(name)) + bytes::le(len as nat, 8) + bytes::le(
        crc as nat,
        4,
    )
}

pub open spec fn stored_bytes(v: StoredView) -> Seq<u8> {
    match v {
        StoredView::Value(v) => encoded(v),
        StoredView::External { name, len, crc } => encoded_ref(name, len, crc),
    }
}

pub open spec fn storable(v: StoredView) -> bool {
    match v {
        StoredView::Value(v) => encodable(v),
        StoredView::External { name, .. } => encode_utf8(name).len() <= u16::MAX,
    }
}

fn int_bits(n: i64) -> (r: u64)
    ensures
        r == bits64(n),
{
    if n >= 0 {
        n as u64
    } else {
        (n as i128 + 0x1_0000_0000_0000_0000) as u64
    }
}

fn int_from_bits(n: u64) -> (r: i64)
    ensures
        r == from_bits64(n as nat),
{
    if n < 0x8000_0000_0000_0000 {
        n as i64
    } else {
        (n as i128 - 0x1_0000_0000_0000_0000) as i64
    }
}

fn push_counted(buf: &mut Vec<u8>, data: &[u8])
    requires
        data@.len() <= u32::MAX,
    ensures
        final(buf)@ == old(buf)@ + counted(data@),
{
    push_le(buf, data.len() as u64, 4);
    push_all(buf, data);
    assert(buf@ =~= old(buf)@ + counted(data@));
}

/// Append the stored form of a value.
pub fn encode_value(buf: &mut Vec<u8>, v: &Value)
    requires
        encodable(v@),
    ensures
        final(buf)@ == old(buf)@ + encoded(v@),
{
    let ghost before = buf@;
    match v {
        Value::Null => {
            buf.push(TAG_NULL);
        },
        Value::Bool(b) => {
            buf.push(TAG_BOOL);
            buf.push(if *b { 1u8 } else { 0u8 });
        },
        Value::Int64(n) => {
            buf.push(TAG_INT64);
            push_le(buf, int_bits(*n), 8);
        },
        Value::Float64(bits) => {
            buf.push(TAG_FLOAT64);
            push_le(buf, *bits, 8);
        },
        Value::Text(s) => {
            buf.push(TAG_TEXT);
            push_counted(buf, s.as_str().as_bytes());
        },
        Value::Blob(data) => {
            buf.push(TAG_BLOB);
            push_counted(buf, data.as_slice());
        },
        Value::Timestamp(us) => {
            buf.push(TAG_TIMESTAMP);
            push_le(buf, int_bits(*us), 8);
        },
        Value::Json(s) => {
            buf.push(TAG_JSON);
            push_counted(buf, s.as_str().as_bytes());
        },
        Value::Vector(v) => {
            buf.push(TAG_VECTOR);
            push_le(buf, v.len() as u64, 4);
            let ghost head = buf@;
            let mut i: usize = 0;
            assert(component_bytes(v@.subrange(0, 0)) =~= Seq::<u8>::empty());
            while i < v.len()
                invariant
                    i <= v@.len(),
                    buf@ == head + component_bytes(v@.subrange(0, i as int)),
                decreases v@.len() - i,
            {
                push_le(buf, v[i] as u64, 4);
                proof {
                    let s = v@.subrange(0, i + 1);
                    assert(s.drop_last() =~= v@.subrange(0, i as int));
                    assert(s.last() == v@[i as int]);
                    assert(buf@ =~= head + component_bytes(s));
                }
                i = i + 1;
            }
            assert(v@.subrange(0, i as int) =~= v@);
        },
        Value::Date(days) => {
            buf.push(TAG_DATE);
            let bits: u64 = if *days >= 0 {
                *days as u64
            } else {
                (*days as i64 + 0x1_0000_0000) as u64
            };
            push_le(buf, bits, 4);
        },
        Value::Time(us) => {
            buf.push(TAG_TIME);
            push_le(buf, int_bits(*us), 8);
        },
    }
    assert(buf@ =~= before + encoded(v@));
}

/// Append the stored form of a reference to an out-of-line blob.
pub fn encode_blob_ref(buf: &mut Vec<u8>, name: &str, len: u64, crc: u32)
    requires
        encode_utf8(name@).len() <= u16::MAX,
    ensures
        final(buf)@ == old(buf)@ + encoded_ref(name@, len, crc),
{
    buf.push(TAG_BLOB_REF);
    push_le(buf, bytes::byte_len(name) as u64, 2);
    push_all(buf, name.as_bytes());
    push_le(buf, len, 8);
    push_le(buf, crc as u64, 4);
    assert(buf@ =~= old(buf)@ + encoded_ref(name@, len, crc));
}

/// The key of a value in an equality index.
pub fn index_key(v: &Value) -> (r: Vec<u8>)
    requires
        encodable(v@),
    ensures
        r@ == encoded(v@),
{
    let mut out: Vec<u8> = Vec::new();
    encode_value(&mut out, v);
    assert(out@ =~= encoded(v@));
    out
}

// ---- Reading the stored form ------------------------------------------------

pub open spec fn end_message() -> Seq<char> {
    "unexpected end of record"@
}

pub open spec fn tag_message() -> Seq<char> {
    "unknown value tag"@
}

pub open spec fn utf8_message() -> Seq<char> {
    "invalid utf8 in value"@
}

/// The end of `count` bytes at `at`, if they are there.
pub open spec fn fixed_end(buf: Seq<u8>, at: int, count: int) -> Result<int, Seq<char>> {
    if at + count <= buf.len() {
        Ok(at + count)
    } else {
        Err(end_message())
    }
}

/// The end of a four-byte count at `at` and that many units of `unit` bytes.
pub open spec fn counted_end(buf: Seq<u8>, at: int, unit: int) -> Result<int, Seq<char>> {
    if at + 4 <= buf.len() {
        fixed_end(buf, at + 4, unit * bytes::le_value(buf.subrange(at, at + 4)))
    } else {
        Err(end_message())
    }
}

/// Where the stored field at `pos` ends, or why it has no end.
pub open spec fn field_end(buf: Seq<u8>, pos: int) -> Result<int, Seq<char>> {
    if pos >= buf.len() {
        Err(end_message())
    } else {
        let tag = buf[pos];
        let body = pos + 1;
        if tag == TAG_NULL {
            Ok(body)
        } else if tag == TAG_BOOL {
            fixed_end(buf, body, 1)
        } else if tag == TAG_INT64 || tag == TAG_FLOAT64 || tag == TAG_TIMESTAMP || tag == TAG_TIME {
            fixed_end(buf, body, 8)
        } else if tag == TAG_DATE {
            fixed_end(buf, body, 4)
        } else if tag == TAG_TEXT || tag == TAG_BLOB || tag == TAG_JSON {
            counted_end(buf, body, 1)
        } else if tag == TAG_VECTOR {
            counted_end(buf, body, 4)
        } else if tag == TAG_BLOB_REF {
            if body + 2 <= buf.len() {
                fixed_end(buf, body + 2, (bytes::le_value(buf.subrange(body, body + 2)) + 12) as int)
            } else {
                Err(end_message())
            }
        } else {
            Err(tag_message())
        }
    }
}

/// The components that the bytes hold, four bytes each.
pub open spec fn components(data: Seq<u8>) -> Seq<u32> {
    Seq::new(data.len() / 4, |i: int| bytes::le_value(data.subrange(4 * i, 4 * i + 4)) as u32)
}

pub open spec fn text_of(data: Seq<u8>) -> Result<Seq<char>, Seq<char>> {
    if valid_utf8(data) {
        Ok(decode_utf8(data))
    } else {
        Err(utf8_message())
    }
}

/// What the field from `pos` to `end` holds.
pub open spec fn field_value(buf: Seq<u8>, pos: int, end: int) -> Result<StoredView, Seq<char>> {
    let tag = buf[pos];
    let body = buf.subrange(pos + 1, end);
    if tag == TAG_NULL {
        Ok(StoredView::Value(ValueView::Null))
    } else if tag == TAG_BOOL {
        Ok(StoredView::Value(ValueView::Bool(body[0] != 0)))
    } else if tag == TAG_INT64 {
        Ok(StoredView::Value(ValueView::Int64(from_bits64(bytes::le_value(body)))))
    } else if tag == TAG_FLOAT64 {
        Ok(StoredView::Value(ValueView::Float64(bytes::le_value(body) as u64)))
    } else if tag == TAG_TIMESTAMP {
        Ok(StoredView::Value(ValueView::Timestamp(from_bits64(bytes::le_value(body)))))
    } else if tag == TAG_TIME {
        Ok(StoredView::Value(ValueView::Time(from_bits64(bytes::le_value(body)))))
    } else if tag == TAG_DATE {
        Ok(StoredView::Value(ValueView::Date(from_bits32(bytes::le_value(body)))))
    } else if tag == TAG_BLOB {
        Ok(StoredView::Value(ValueView::Blob(buf.subrange(pos + 5, end))))
    } else if tag == TAG_TEXT {
        match text_of(buf.subrange(pos + 5, end)) {
            Ok(t) => Ok(StoredView::Value(ValueView::Text(t))),
            Err(m) => Err(m),
        }
    } else if tag == TAG_JSON {
        match text_of(buf.subrange(pos + 5, end)) {
            Ok(t) => Ok(StoredView::Value(ValueView::Json(t))),
            Err(m) => Err(m),
        }
    } else if tag == TAG_VECTOR {
        Ok(StoredView::Value(ValueView::Vector(components(buf.subrange(pos + 5, end)))))
    } else {
        match text_of(buf.subrange(pos + 3, end - 12)) {
            Ok(t) => Ok(
                StoredView::External {
                    name: t,
                    len: bytes::le_value(buf.subrange(end - 12, end - 4)) as u64,
                    crc: bytes::le_value(buf.subrange(end - 4, end)) as u32,
                },
            ),
            Err(m) => Err(m),
        }
    }
}

/// The field at `pos` and where it ends, or why there is none.
pub open spec fn field_at(buf: Seq<u8>, pos: int) -> Result<(StoredView, int), Seq<char>> {
    match field_end(buf, pos) {
        Err(m) => Err(m),
        Ok(end) => match field_value(buf, pos, end) {
            Err(m) => Err(m),
            Ok(v) => Ok((v, end)),
        },
    }
}

/// The end of `count` bytes at `at`, if they are there.
fn fixed(buf: &[u8], at: usize, count: u64) -> (r: Result<usize, Error>)
    requires
        at <= buf@.len(),
    ensures
        r is Ok <==> fixed_end(buf@, at as int, count as int) is Ok,
        r matches Ok(end) ==> Ok::<int, Seq<char>>(end as int) == fixed_end(buf@, at as int, count as int) && end <= buf@.len(),
        r matches Err(e) ==> e@ == ErrorView::Corrupt(end_message()),
{
    let room: usize = buf.len() - at;
    if count > room as u64 {
        Err(corrupt("unexpected end of record"))
    } else {
        Ok(at + count as usize)
    }
}

/// Step over the stored field at `pos`.
pub fn skip_value(buf: &[u8], pos: usize) -> (r: Result<usize, Error>)
    ensures
        r is Ok <==> field_end(buf@, pos as int) is Ok,
        r matches Ok(end) ==> Ok::<int, Seq<char>>(end as int) == field_end(buf@, pos as int) && pos < end <= buf@.len(),
        r matches Err(e) ==> e@ == ErrorView::Corrupt(field_end(buf@, pos as int)->Err_0),
{
    if pos >= buf.len() {
        return Err(corrupt("unexpected end of record"));
    }
    let tag: u8 = buf[pos];
    let body: usize = pos + 1;
    if tag == TAG_NULL {
        Ok(body)
    } else if tag == TAG_BOOL {
        fixed(buf, body, 1)
    } else if tag == TAG_INT64 || tag == TAG_FLOAT64 || tag == TAG_TIMESTAMP || tag == TAG_TIME {
        fixed(buf, body, 8)
    } else if tag == TAG_DATE {
        fixed(buf, body, 4)
    } else if tag == TAG_TEXT || tag == TAG_BLOB || tag == TAG_JSON || tag == TAG_VECTOR {
        let unit: u64 = if tag == TAG_VECTOR {
            4
        } else {
            1
        };
        proof {
            bytes::lemma_radix_small();
        }
        match read_le(buf, body, 4) {
            None => Err(corrupt("unexpected end of record")),
            Some(n) => fixed(buf, body + 4, unit * n),
        }
    } else if tag == TAG_BLOB_REF {
        proof {
            bytes::lemma_radix_small();
        }
        match read_le(buf, body, 2) {
            None => Err(corrupt("unexpected end of record")),
            Some(n) => fixed(buf, body + 2, n + 12),
        }
    } else {
        Err(corrupt("unknown value tag"))
    }
}

fn text_at(buf: &[u8], start: usize, end: usize) -> (r: Result<String, Error>)
    requires
        start <= end <= buf@.len(),
    ensures
        r is Ok <==> text_of(buf@.subrange(start as int, end as int)) is Ok,
        r matches Ok(s) ==> Ok::<Seq<char>, Seq<char>>(s@) == text_of(buf@.subrange(start as int, end as int)),
        r matches Err(e) ==> e@ == ErrorView::Corrupt(utf8_message()),
{
    let data = bytes::copy_range(buf, start, end);
    match text_from_utf8(data.as_slice()) {
        Some(s) => Ok(s),
        None => Err(corrupt("invalid utf8 in value")),
    }
}

fn number_at(buf: &[u8], start: usize, width: usize) -> (r: u64)
    requires
        width <= 8,
        start + width <= buf@.len(),
    ensures
        r == bytes::le_value(buf@.subrange(start as int, start + width)),
        r < bytes::radix(width as nat),
{
    match read_le(buf, start, width) {
        Some(n) => n,
        None => 0,
    }
}

/// Read the stored field at `pos`; with it comes where it ends.
pub fn read_value(buf: &[u8], pos: usize) -> (r: Result<(Stored, usize), Error>)
    ensures
        r is Ok <==> field_at(buf@, pos as int) is Ok,
        r matches Ok(p) ==> Ok::<(StoredView, int), Seq<char>>((p.0@, p.1 as int)) == field_at(buf@, pos as int) && pos < p.1
            <= buf@.len(),
        r matches Err(e) ==> e@ == ErrorView::Corrupt(field_at(buf@, pos as int)->Err_0),
{
    let end: usize = match skip_value(buf, pos) {
        Ok(end) => end,
        Err(e) => {
            return Err(e);
        },
    };
    proof {
        bytes::lemma_radix_small();
    }
    let tag: u8 = buf[pos];
    let ghost body = buf@.subrange(pos + 1, end as int);
    if tag == TAG_NULL {
        Ok((Stored::Value(Value::Null), end))
    } else if tag == TAG_BOOL {
        Ok((Stored::Value(Value::Bool(buf[pos + 1] != 0)), end))
    } else if tag == TAG_INT64 || tag == TAG_FLOAT64 || tag == TAG_TIMESTAMP || tag == TAG_TIME {
        let n: u64 = number_at(buf, pos + 1, 8);
        assert(buf@.subrange(pos + 1, pos + 1 + 8) =~= body);
        let v = if tag == TAG_INT64 {
            Value::Int64(int_from_bits(n))
        } else if tag == TAG_FLOAT64 {
            Value::Float64(n)
        } else if tag == TAG_TIMESTAMP {
            Value::Timestamp(int_from_bits(n))
        } else {
            Value::Time(int_from_bits(n))
        };
        Ok((Stored::Value(v), end))
    } else if tag == TAG_DATE {
        let n: u64 = number_at(buf, pos + 1, 4);
        assert(buf@.subrange(pos + 1, pos + 1 + 4) =~= body);
        let days: i32 = if n < 0x8000_0000 {
            n as i32
        } else {
            (n as i64 - 0x1_0000_0000) as i32
        };
        Ok((Stored::Value(Value::Date(days)), end))
    } else if tag == TAG_BLOB {
        Ok((Stored::Value(Value::Blob(bytes::copy_range(buf, pos + 5, end))), end))
    } else if tag == TAG_TEXT {
        match text_at(buf, pos + 5, end) {
            Ok(s) => Ok((Stored::Value(Value::Text(s)), end)),
            Err(e) => Err(e),
        }
    } else if tag == TAG_JSON {
        match text_at(buf, pos + 5, end) {
            Ok(s) => Ok((Stored::Value(Value::Json(s)), end)),
            Err(e) => Err(e),
        }
    } else if tag == TAG_VECTOR {
        let ghost data = buf@.subrange(pos + 5, end as int);
        let count: usize = (end - (pos + 5)) / 4;
        let mut out: Vec<u32> = Vec::new();
        let mut i: usize = 0;
        while i < count
            invariant
                i <= count,
                pos + 5 <= end <= buf@.len(),
                count == (end - (pos + 5)) / 4,
                data == buf@.subrange(pos + 5, end as int),
                out@.len() == i,
                forall|j: int| 0 <= j < i ==> #[trigger] out@[j] == components(data)[j],
            decreases count - i,
        {
            let at: usize = pos + 5 + 4 * i;
            let n: u64 = number_at(buf, at, 4);
            proof {
                bytes::lemma_radix_small();
                assert(data.subrange(4 * i, 4 * i + 4) =~= buf@.subrange(at as int, at + 4));
            }
            out.push(n as u32);
            i = i + 1;
        }
        assert(out@ =~= components(data));
        Ok((Stored::Value(Value::Vector(out)), end))
    } else {
        let len: u64 = number_at(buf, end - 12, 8);
        let crc: u64 = number_at(buf, end - 4, 4);
        assert(buf@.subrange(end - 12, end - 12 + 8) =~= buf@.subrange(end - 12, end - 4));
        assert(buf@.subrange(end - 4, end - 4 + 4) =~= buf@.subrange(end - 4, end as int));
        match text_at(buf, pos + 3, end - 12) {
            Ok(name) => Ok((Stored::External(BlobRef { name, len, crc: crc as u32 }), end)),
            Err(e) => Err(e),
        }
    }
}

pub broadcast proof fn lemma_component_len(v: Seq<u32>)
    ensures
        #[trigger] component_bytes(v).len() == 4 * v.len(),
    decreases v.len(),
{
    if v.len() > 0 {
        lemma_component_len(v.drop_last());
        bytes::lemma_le_len(v.last() as nat, 4);
    }
}

proof fn lemma_components(v: Seq<u32>)
    ensures
        components(component_bytes(v)) == v,
    decreases v.len(),
{
    lemma_component_len(v);
    let data = component_bytes(v);
    if v.len() > 0 {
        let w = v.drop_last();
        lemma_components(w);
        lemma_component_len(w);
        bytes::lemma_le_len(v.last() as nat, 4);
        bytes::lemma_radix_small();
        bytes::lemma_le_round_trip(v.last() as nat, 4);
        assert forall|i: int| 0 <= i < v.len() implies #[trigger] components(data)[i] == v[i] by {
            if i < w.len() {
                assert(data.subrange(4 * i, 4 * i + 4) =~= component_bytes(w).subrange(4 * i, 4 * i + 4));
                assert(components(component_bytes(w))[i] == w[i]);
            } else {
                assert(data.subrange(4 * i, 4 * i + 4) =~= bytes::le(v.last() as nat, 4));
            }
        }
    }
    assert(components(data) =~= v);
}

/// Where `prefix`, a stored field and anything else stand after one another,
/// reading after `prefix` gives back the field and ends where it ends.
pub proof fn lemma_field_round_trip(prefix: Seq<u8>, v: StoredView, suffix: Seq<u8>)
    requires
        storable(v),
    ensures
        field_at(prefix + stored_bytes(v) + suffix, prefix.len() as int) == Ok::<(StoredView, int), Seq<char>>(
            (v, (prefix.len() + stored_bytes(v).len()) as int),
        ),
        stored_bytes(v).len() >= 1,
{
    match v {
        StoredView::Value(w) => lemma_value_round_trip(prefix, w, suffix),
        StoredView::External { name, len, crc } => lemma_ref_round_trip(prefix, name, len, crc, suffix),
    }
}

proof fn lemma_number_field(prefix: Seq<u8>, tag: u8, n: nat, width: nat, suffix: Seq<u8>)
    requires
        width == 4 || width == 8,
        n < bytes::radix(width),
    ensures
        ({
            let code = seq![tag] + bytes::le(n, width);
            let buf = prefix + code + suffix;
            let p = prefix.len() as int;
            &&& code.len() == 1 + width
            &&& buf[p] == tag
            &&& buf.len() >= p + 1 + width
            &&& bytes::le_value(buf.subrange(p + 1, p + 1 + width)) == n
        }),
{
    let code = seq![tag] + bytes::le(n, width);
    let buf = prefix + code + suffix;
    let p = prefix.len() as int;
    bytes::lemma_le_len(n, width);
    bytes::lemma_le_round_trip(n, width);
    assert(buf.subrange(p + 1, p + 1 + width) =~= bytes::le(n, width));
}

proof fn lemma_counted_field(prefix: Seq<u8>, tag: u8, count: nat, data: Seq<u8>, suffix: Seq<u8>)
    requires
        count <= u32::MAX,
    ensures
        ({
            let code = seq![tag] + (bytes::le(count, 4) + data);
            let buf = prefix + code + suffix;
            let p = prefix.len() as int;
            &&& code.len() == 5 + data.len()
            &&& buf[p] == tag
            &&& buf.len() >= p + 5 + data.len()
            &&& bytes::le_value(buf.subrange(p + 1, p + 5)) == count
            &&& buf.subrange(p + 5, p + 5 + data.len()) == data
        }),
{
    let code = seq![tag] + (bytes::le(count, 4) + data);
    let buf = prefix + code + suffix;
    let p = prefix.len() as int;
    bytes::lemma_radix_small();
    bytes::lemma_le_len(count, 4);
    bytes::lemma_le_round_trip(count, 4);
    assert(buf.subrange(p + 1, p + 5) =~= bytes::le(count, 4));
    assert(buf.subrange(p + 5, p + 5 + data.len()) =~= data);
}

proof fn lemma_value_round_trip(prefix: Seq<u8>, v: ValueView, suffix: Seq<u8>)
    requires
        encodable(v),
    ensures
        field_at(prefix + encoded(v) + suffix, prefix.len() as int) == Ok::<(StoredView, int), Seq<char>>(
            (StoredView::Value(v), (prefix.len() + encoded(v).len()) as int),
        ),
        encoded(v).len() >= 1,
{
    let code = encoded(v);
    let buf = prefix + code + suffix;
    let p = prefix.len() as int;
    let end = p + code.len();
    bytes::lemma_radix_small();
    match v {
        ValueView::Null => {
            assert(buf[p] == code[0]);
        },
        ValueView::Bool(_) => {
            assert(buf[p] == code[0]);
            assert(buf[p + 1] == code[1]);
        },
        ValueView::Int64(n) => {
            lemma_number_field(prefix, TAG_INT64, bits64(n), 8, suffix);
        },
        ValueView::Timestamp(n) => {
            lemma_number_field(prefix, TAG_TIMESTAMP, bits64(n), 8, suffix);
        },
        ValueView::Time(n) => {
            lemma_number_field(prefix, TAG_TIME, bits64(n), 8, suffix);
        },
        ValueView::Float64(bits) => {
            lemma_number_field(prefix, TAG_FLOAT64, bits as nat, 8, suffix);
        },
        ValueView::Date(days) => {
            lemma_number_field(prefix, TAG_DATE, bits32(days), 4, suffix);
        },
        ValueView::Text(s) => {
            lemma_counted_field(prefix, TAG_TEXT, encode_utf8(s).len(), encode_utf8(s), suffix);
            encode_utf8_valid_utf8(s);
            encode_utf8_decode_utf8(s);
        },
        ValueView::Json(s) => {
            lemma_counted_field(prefix, TAG_JSON, encode_utf8(s).len(), encode_utf8(s), suffix);
            encode_utf8_valid_utf8(s);
            encode_utf8_decode_utf8(s);
        },
        ValueView::Blob(data) => {
            lemma_counted_field(prefix, TAG_BLOB, data.len(), data, suffix);
        },
        ValueView::Vector(w) => {
            lemma_component_len(w);
            lemma_counted_field(prefix, TAG_VECTOR, w.len(), component_bytes(w), suffix);
            lemma_components(w);
        },
    }
}

proof fn lemma_ref_round_trip(prefix: Seq<u8>, name: Seq<char>, len: u64, crc: u32, suffix: Seq<u8>)
    requires
        encode_utf8(name).len() <= u16::MAX,
    ensures
        field_at(prefix + encoded_ref(name, len, crc) + suffix, prefix.len() as int) == Ok::<(StoredView, int), Seq<char>>(
            (StoredView::External { name, len, crc }, (prefix.len() + encoded_ref(name, len, crc).len()) as int),
        ),
        encoded_ref(name, len, crc).len() >= 1,
{
    let code = encoded_ref(name, len, crc);
    let buf = prefix + code + suffix;
    let p = prefix.len() as int;
    let end = p + code.len();
    let data = encode_utf8(name);
    bytes::lemma_radix_small();
    bytes::lemma_le_len(data.len(), 2);
    bytes::lemma_le_len(len as nat, 8);
    bytes::lemma_le_len(crc as nat, 4);
    assert(buf[p] == code[0]);
    assert(buf.subrange(p + 1, p + 3) =~= bytes::le(data.len(), 2));
    bytes::lemma_le_round_trip(data.len(), 2);
    assert(buf.subrange(p + 3, end - 12) =~= data);
    assert(buf.subrange(end - 12, end - 4) =~= bytes::le(len as nat, 8));
    assert(buf.subrange(end - 4, end) =~= bytes::le(crc as nat, 4));
    bytes::lemma_le_round_trip(len as nat, 8);
    bytes::lemma_le_round_trip(crc as nat, 4);
    encode_utf8_valid_utf8(name);
    encode_utf8_decode_utf8(name);
}

/// No two values share a stored form.
pub proof fn lemma_encoded_injective(a: ValueView, b: ValueView)
    requires
        encodable(a),
        encodable(b),
        encoded(a) == encoded(b),
    ensures
        a == b,
{
    let none = Seq::<u8>::empty();
    lemma_field_round_trip(none, StoredView::Value(a), none);
    lemma_field_round_trip(none, StoredView::Value(b), none);
}

} // verus!
