//! Values as JSON: native scalars where JSON has them, and tagged objects for
//! what JSON cannot carry.

use crate::bytes::same_text;
use crate::cow::{self, CowMap};
use crate::error::{invalid, Error, ErrorView};
use crate::model;
use crate::order::OrderedKey;
use crate::record::{Record, RecordView};
use crate::schema::{IndexingMode, VectorIndexDef, VectorMetric};
use crate::text::{self, format_date, format_time, format_timestamp, hex_decode, hex_encode};
use crate::value::{self, column_type_text, ColumnType, Value, ValueView};
use vstd::prelude::*;
use vstd::string::*;
use vstd::utf8::*;

verus! {

// ---- Writing ----------------------------------------------------------------

/// A field of a tagged object.
pub enum FieldOut {
    Text(String),
    Int(i64),
    /// The text of a JSON document.
    Raw(String),
    /// The bits of single-precision components.
    Vector(Vec<u32>),
}

#[verifier::ext_equal]
pub enum FieldView {
    Text(Seq<char>),
    Int(i64),
    Raw(Seq<char>),
    Vector(Seq<u32>),
}

impl View for FieldOut {
    type V = FieldView;

    open spec fn view(&self) -> FieldView {
        match *self {
            FieldOut::Text(s) => FieldView::Text(s@),
            FieldOut::Int(n) => FieldView::Int(n),
            FieldOut::Raw(s) => FieldView::Raw(s@),
            FieldOut::Vector(v) => FieldView::Vector(v@),
        }
    }
}

/// A named field of a tagged object.
pub struct NamedOut {
    pub name: String,
    pub value: FieldOut,
}

#[verifier::ext_equal]
pub struct NamedView {
    pub name: Seq<char>,
    pub value: FieldView,
}

impl View for NamedOut {
    type V = NamedView;

    open spec fn view(&self) -> NamedView {
        NamedView { name: self.name@, value: self.value@ }
    }
}

/// A value as JSON.
pub enum JsonOut {
    Null,
    Bool(bool),
    Int(i64),
    /// The bits of a finite double-precision number.
    Float(u64),
    Text(String),
    /// An object whose "$t" is the tag.
    Tagged { tag: String, fields: Vec<NamedOut> },
}

#[verifier::ext_equal]
pub enum JsonView {
    Null,
    Bool(bool),
    Int(i64),
    Float(u64),
    Text(Seq<char>),
    Tagged { tag: Seq<char>, fields: Seq<NamedView> },
}

impl View for JsonOut {
    type V = JsonView;

    open spec fn view(&self) -> JsonView {
        match *self {
            JsonOut::Null => JsonView::Null,
            JsonOut::Bool(b) => JsonView::Bool(b),
            JsonOut::Int(n) => JsonView::Int(n),
            JsonOut::Float(bits) => JsonView::Float(bits),
            JsonOut::Text(s) => JsonView::Text(s@),
            JsonOut::Tagged { tag, fields } => JsonView::Tagged { tag: tag@, fields: model::views(fields@) },
        }
    }
}

/// Whether the bits are those of a finite double-precision number.
pub open spec fn is_finite(bits: u64) -> bool {
    bits % 0x8000_0000_0000_0000 < 0x7ff0_0000_0000_0000
}

/// How a number that is not finite is written.
pub open spec fn float_name(bits: u64) -> Seq<char> {
    if value::is_nan64(bits) {
        "NaN"@
    } else if bits >= 0x8000_0000_0000_0000 {
        "-inf"@
    } else {
        "inf"@
    }
}

pub open spec fn named(name: Seq<char>, value: FieldView) -> NamedView {
    NamedView { name, value }
}

/// A tagged object with one field.
pub open spec fn one_field(tag: Seq<char>, name: Seq<char>, value: FieldView) -> JsonView {
    JsonView::Tagged { tag, fields: seq![named(name, value)] }
}

/// A tagged object with a number and what it means.
pub open spec fn moment(tag: Seq<char>, name: Seq<char>, n: i64, iso: Seq<char>) -> JsonView {
    JsonView::Tagged { tag, fields: seq![named(name, FieldView::Int(n)), named("iso"@, FieldView::Text(iso))] }
}

/// Whether `j` is how a value is written.
pub open spec fn is_written(v: ValueView, j: JsonView) -> bool {
    match v {
        ValueView::Null => j == JsonView::Null,
        ValueView::Bool(b) => j == JsonView::Bool(b),
        ValueView::Int64(n) => j == JsonView::Int(n),
        ValueView::Float64(bits) => j == (if is_finite(bits) {
            JsonView::Float(bits)
        } else {
            one_field("float64"@, "repr"@, FieldView::Text(float_name(bits)))
        }),
        ValueView::Text(s) => j == JsonView::Text(s),
        ValueView::Blob(data) => j == one_field("blob"@, "hex"@, FieldView::Text(text::ascii_chars(text::hex_bytes(data)))),
        ValueView::Timestamp(us) => exists|y: int, m: int, d: int|
            text::is_date(y, m, d) && text::day_number(y, m, d) == us as int / text::DAY_MICROS as int && j == moment(
                "timestamp"@,
                "us"@,
                us,
                #[trigger] text::date_text(y, m, d) + " "@ + text::time_text(us as int % text::DAY_MICROS as int) + "Z"@,
            ),
        ValueView::Json(s) => j == one_field("json"@, "v"@, FieldView::Raw(s)),
        ValueView::Vector(c) => j == one_field("vector"@, "v"@, FieldView::Vector(c)),
        ValueView::Date(days) => exists|y: int, m: int, d: int|
            text::is_date(y, m, d) && text::day_number(y, m, d) == days && j == moment(
                "date"@,
                "days"@,
                days as i64,
                #[trigger] text::date_text(y, m, d),
            ),
        ValueView::Time(us) => j == moment("time"@, "us"@, us, text::time_text(us as int)),
    }
}

fn tagged_one(tag: &str, name: &str, value: FieldOut) -> (r: JsonOut)
    ensures
        r@ == one_field(tag@, name@, value@),
{
    let mut fields: Vec<NamedOut> = Vec::new();
    let field = NamedOut { name: name.to_owned(), value };
    fields.push(field);
    assert(model::views(fields@) =~= seq![field@]);
    JsonOut::Tagged { tag: tag.to_owned(), fields }
}

fn tagged_moment(tag: &str, name: &str, n: i64, iso: String) -> (r: JsonOut)
    ensures
        r@ == moment(tag@, name@, n, iso@),
{
    let mut fields: Vec<NamedOut> = Vec::new();
    let number = NamedOut { name: name.to_owned(), value: FieldOut::Int(n) };
    let meaning = NamedOut { name: "iso".to_owned(), value: FieldOut::Text(iso) };
    fields.push(number);
    fields.push(meaning);
    assert(model::views(fields@) =~= seq![number@, meaning@]);
    JsonOut::Tagged { tag: tag.to_owned(), fields }
}

fn copy_components(v: &Vec<u32>) -> (r: Vec<u32>)
    ensures
        r@ == v@,
{
    let mut out: Vec<u32> = Vec::new();
    let mut i: usize = 0;
    while i < v.len()
        invariant
            i <= v@.len(),
            out@ == v@.subrange(0, i as int),
        decreases v@.len() - i,
    {
        out.push(v[i]);
        assert(out@ =~= v@.subrange(0, i + 1));
        i = i + 1;
    }
    assert(v@.subrange(0, i as int) =~= v@);
    out
}

/// Write a value as JSON.
pub fn value_to_json(v: &Value) -> (r: JsonOut)
    ensures
        is_written(v@, r@),
{
    match v {
        Value::Null => JsonOut::Null,
        Value::Bool(b) => JsonOut::Bool(*b),
        Value::Int64(n) => JsonOut::Int(*n),
        Value::Float64(bits) => {
            let size: u64 = *bits % 0x8000_0000_0000_0000;
            if size < 0x7ff0_0000_0000_0000 {
                JsonOut::Float(*bits)
            } else {
                let name = if size > 0x7ff0_0000_0000_0000 {
                    "NaN"
                } else if *bits >= 0x8000_0000_0000_0000 {
                    "-inf"
                } else {
                    "inf"
                };
                tagged_one("float64", "repr", FieldOut::Text(name.to_owned()))
            }
        },
        Value::Text(s) => JsonOut::Text(s.clone()),
        Value::Blob(data) => tagged_one("blob", "hex", FieldOut::Text(hex_encode(data.as_slice()))),
        Value::Timestamp(us) => tagged_moment("timestamp", "us", *us, format_timestamp(*us)),
        Value::Json(s) => tagged_one("json", "v", FieldOut::Raw(s.clone())),
        Value::Vector(c) => tagged_one("vector", "v", FieldOut::Vector(copy_components(c))),
        Value::Date(days) => tagged_moment("date", "days", *days as i64, format_date(*days)),
        Value::Time(us) => tagged_moment("time", "us", *us, format_time(*us)),
    }
}

/// A field of a record as JSON.
pub struct Member {
    pub name: String,
    pub value: JsonOut,
}

/// Write a record as a JSON object: its fields in the order of their names.
pub fn record_to_json(rec: &Record) -> (r: Vec<Member>)
    requires
        rec.wf(),
    ensures
        r@.len() == rec.pairs().len(),
        forall|i: int|
            0 <= i < r@.len() ==> encode_utf8((#[trigger] r@[i]).name@) == rec.pairs()[i].0 && is_written(
                rec.pairs()[i].1,
                r@[i].value@,
            ),
{
    let ghost s = rec.pairs();
    let fields = rec.iter();
    let mut out: Vec<Member> = Vec::new();
    let mut i: usize = 0;
    while i < fields.len()
        invariant
            i <= fields@.len() == s.len(),
            cow::entry_pairs(fields@) == s,
            out@.len() == i,
            forall|j: int|
                0 <= j < i ==> encode_utf8((#[trigger] out@[j]).name@) == s[j].0 && is_written(s[j].1, out@[j].value@),
        decreases fields@.len() - i,
    {
        let (name, v) = fields[i];
        assert(cow::entry_pairs(fields@)[i as int] == (name.rank(), v@));
        out.push(Member { name: name.clone(), value: value_to_json(v) });
        i = i + 1;
    }
    out
}

// ---- Reading ----------------------------------------------------------------

/// What a field of a tagged object is, as far as it is asked.
pub struct FieldIn {
    pub name: String,
    /// The text, where it is one.
    pub text: Option<String>,
    /// The integer, where it is one.
    pub whole: Option<i64>,
    /// The bits of the number that the text spells, where it spells one.
    pub float: Option<u64>,
    /// What the text means as a moment of the kind that the tag names.
    pub moment: Option<i64>,
    /// The bits of the components, where it is a list of numbers.
    pub vector: VectorIn,
    /// The text of the whole as a JSON document.
    pub raw: String,
}

/// A list that is asked to hold numbers.
pub enum VectorIn {
    /// It is no list.
    Missing,
    /// One of its elements is no number.
    NotNumeric,
    /// The bits of the single-precision components.
    Components(Vec<u32>),
}

/// JSON as far as a value is read from it.
pub enum JsonIn {
    Null,
    Bool(bool),
    /// A number: as an integer, where it is one, and as the bits of a double.
    Number { whole: Option<i64>, float: u64, raw: String },
    /// A text, and what it means as a moment of a column's type.
    Text { text: String, moment: Option<i64>, raw: String },
    List { vector: VectorIn, raw: String },
    /// An object with a "$t": its tag, empty where that is no text, and its
    /// other fields.
    Tagged { tag: String, fields: Vec<FieldIn>, raw: String },
    Object { raw: String },
}

/// The first field of a name.
pub open spec fn field_of(fields: Seq<FieldIn>, name: Seq<char>) -> Option<int>
    decreases fields.len(),
{
    if fields.len() == 0 {
        None
    } else {
        match field_of(fields.drop_last(), name) {
            Some(i) => Some(i),
            None => if fields.last().name@ == name {
                Some(fields.len() - 1)
            } else {
                None
            },
        }
    }
}

proof fn lemma_field_of(fields: Seq<FieldIn>, name: Seq<char>)
    ensures
        field_of(fields, name) matches Some(i) ==> 0 <= i < fields.len(),
    decreases fields.len(),
{
    if fields.len() > 0 {
        lemma_field_of(fields.drop_last(), name);
    }
}

fn find_field<'a>(fields: &'a Vec<FieldIn>, name: &str) -> (r: Option<&'a FieldIn>)
    ensures
        match field_of(fields@, name@) {
            Some(i) => r is Some && *r->0 == fields@[i] && 0 <= i < fields@.len(),
            None => r is None,
        },
{
    let ghost all = fields@;
    let mut i: usize = 0;
    assert(all.subrange(0, 0) =~= Seq::<FieldIn>::empty());
    while i < fields.len()
        invariant
            i <= fields@.len(),
            all == fields@,
            field_of(all.subrange(0, i as int), name@) is None,
        decreases fields@.len() - i,
    {
        proof {
            let t = all.subrange(0, i + 1);
            assert(t.drop_last() =~= all.subrange(0, i as int));
            assert(t.last() == all[i as int]);
        }
        if same_text(fields[i].name.as_str(), name) {
            proof {
                lemma_field_stays(all, name@, i + 1);
            }
            return Some(&fields[i]);
        }
        i = i + 1;
    }
    assert(all.subrange(0, i as int) =~= all);
    None
}

proof fn lemma_field_stays(fields: Seq<FieldIn>, name: Seq<char>, n: int)
    requires
        0 <= n <= fields.len(),
        field_of(fields.subrange(0, n), name) is Some,
    ensures
        field_of(fields, name) == field_of(fields.subrange(0, n), name),
    decreases fields.len() - n,
{
    if n < fields.len() {
        assert(fields.subrange(0, n + 1).drop_last() =~= fields.subrange(0, n));
        lemma_field_stays(fields, name, n + 1);
    } else {
        assert(fields.subrange(0, n) =~= fields);
    }
}

pub open spec fn bad_tagged(tag: Seq<char>, m: Seq<char>) -> ErrorView {
    ErrorView::InvalidArgument("invalid tagged value ("@ + tag + "): "@ + m)
}

pub open spec fn text_in(fields: Seq<FieldIn>, name: Seq<char>) -> Option<Seq<char>> {
    match field_of(fields, name) {
        Some(i) => match fields[i].text {
            Some(s) => Some(s@),
            None => None,
        },
        None => None,
    }
}

/// The number of a moment: given as an integer, or spelled out.
pub open spec fn moment_in(tag: Seq<char>, fields: Seq<FieldIn>, name: Seq<char>) -> Result<i64, ErrorView> {
    match field_of(fields, name) {
        Some(i) => match fields[i].whole {
            Some(n) => Ok(n),
            None => spelled_in(tag, fields, name),
        },
        None => spelled_in(tag, fields, name),
    }
}

pub open spec fn spelled_in(tag: Seq<char>, fields: Seq<FieldIn>, name: Seq<char>) -> Result<i64, ErrorView> {
    match field_of(fields, "iso"@) {
        Some(i) => if fields[i].text is None {
            Err(bad_tagged(tag, "missing "@ + name + "/iso"@))
        } else {
            match fields[i].moment {
                Some(n) => Ok(n),
                None => Err(bad_tagged(tag, "bad iso"@)),
            }
        },
        None => Err(bad_tagged(tag, "missing "@ + name + "/iso"@)),
    }
}

/// The value of a tagged object.
pub open spec fn tagged_value(tag: Seq<char>, fields: Seq<FieldIn>) -> Result<ValueView, ErrorView> {
    if tag == "blob"@ {
        match text_in(fields, "hex"@) {
            None => Err(bad_tagged(tag, "missing hex"@)),
            Some(s) => if text::is_hex(encode_utf8(s)) {
                Ok(ValueView::Blob(text::hex_decoded(encode_utf8(s))))
            } else {
                Err(bad_tagged(tag, "bad hex"@))
            },
        }
    } else if tag == "timestamp"@ {
        match moment_in(tag, fields, "us"@) {
            Ok(n) => Ok(ValueView::Timestamp(n)),
            Err(e) => Err(e),
        }
    } else if tag == "date"@ {
        match moment_in(tag, fields, "days"@) {
            Ok(n) => Ok(ValueView::Date(n as i32)),
            Err(e) => Err(e),
        }
    } else if tag == "time"@ {
        match moment_in(tag, fields, "us"@) {
            Ok(n) => Ok(ValueView::Time(n)),
            Err(e) => Err(e),
        }
    } else if tag == "json"@ {
        match field_of(fields, "v"@) {
            None => Err(bad_tagged(tag, "missing v"@)),
            Some(i) => Ok(ValueView::Json(fields[i].raw@)),
        }
    } else if tag == "vector"@ {
        match field_of(fields, "v"@) {
            None => Err(bad_tagged(tag, "missing v"@)),
            Some(i) => match fields[i].vector {
                VectorIn::Missing => Err(bad_tagged(tag, "missing v"@)),
                VectorIn::NotNumeric => Err(bad_tagged(tag, "non-numeric component"@)),
                VectorIn::Components(c) => Ok(ValueView::Vector(c@)),
            },
        }
    } else if tag == "float64"@ {
        match field_of(fields, "repr"@) {
            None => Err(bad_tagged(tag, "missing repr"@)),
            Some(i) => if fields[i].text is None {
                Err(bad_tagged(tag, "missing repr"@))
            } else {
                match fields[i].float {
                    None => Err(bad_tagged(tag, "bad repr"@)),
                    Some(bits) => Ok(ValueView::Float64(bits)),
                }
            },
        }
    } else {
        Err(ErrorView::InvalidArgument("unknown value tag '"@ + tag + "'"@))
    }
}

pub open spec fn value_result(r: Result<Value, Error>) -> Result<ValueView, ErrorView> {
    match r {
        Ok(v) => Ok(v@),
        Err(e) => Err(e@),
    }
}

fn bad(tag: &str, m: &str) -> (e: Error)
    ensures
        e@ == bad_tagged(tag@, m@),
{
    Error::InvalidArgument("invalid tagged value (".to_owned().concat(tag).concat("): ").concat(m))
}

fn read_spelled(tag: &str, fields: &Vec<FieldIn>, name: &str) -> (r: Result<i64, Error>)
    ensures
        match spelled_in(tag@, fields@, name@) {
            Ok(n) => r == Ok::<i64, Error>(n),
            Err(e) => r is Err && r->Err_0@ == e,
        },
{
    match find_field(fields, "iso") {
        Some(f) => {
            if f.text.is_none() {
                return Err(bad(tag, "missing ".to_owned().concat(name).concat("/iso").as_str()));
            }
            match f.moment {
                Some(n) => Ok(n),
                None => Err(bad(tag, "bad iso")),
            }
        },
        None => Err(bad(tag, "missing ".to_owned().concat(name).concat("/iso").as_str())),
    }
}

fn read_moment(tag: &str, fields: &Vec<FieldIn>, name: &str) -> (r: Result<i64, Error>)
    ensures
        match moment_in(tag@, fields@, name@) {
            Ok(n) => r == Ok::<i64, Error>(n),
            Err(e) => r is Err && r->Err_0@ == e,
        },
{
    match find_field(fields, name) {
        Some(f) => match f.whole {
            Some(n) => Ok(n),
            None => read_spelled(tag, fields, name),
        },
        None => read_spelled(tag, fields, name),
    }
}

/// The low half of a number of days.
fn low_days(n: i64) -> (r: i32)
    ensures
        r == n as i32,
{
    n as i32
}

/// Read the value of a tagged object.
pub fn tagged_to_value(tag: &str, fields: &Vec<FieldIn>) -> (r: Result<Value, Error>)
    ensures
        value_result(r) == tagged_value(tag@, fields@),
{
    if same_text(tag, "blob") {
        return match find_field(fields, "hex") {
            Some(f) => match &f.text {
                Some(s) => match hex_decode(s.as_str()) {
                    Some(data) => Ok(Value::Blob(data)),
                    None => Err(bad(tag, "bad hex")),
                },
                None => Err(bad(tag, "missing hex")),
            },
            None => Err(bad(tag, "missing hex")),
        };
    }
    if same_text(tag, "timestamp") {
        return match read_moment(tag, fields, "us") {
            Ok(n) => Ok(Value::Timestamp(n)),
            Err(e) => Err(e),
        };
    }
    if same_text(tag, "date") {
        return match read_moment(tag, fields, "days") {
            Ok(n) => Ok(Value::Date(low_days(n))),
            Err(e) => Err(e),
        };
    }
    if same_text(tag, "time") {
        return match read_moment(tag, fields, "us") {
            Ok(n) => Ok(Value::Time(n)),
            Err(e) => Err(e),
        };
    }
    if same_text(tag, "json") {
        return match find_field(fields, "v") {
            Some(f) => Ok(Value::Json(f.raw.clone())),
            None => Err(bad(tag, "missing v")),
        };
    }
    if same_text(tag, "vector") {
        return match find_field(fields, "v") {
            Some(f) => match &f.vector {
                VectorIn::Missing => Err(bad(tag, "missing v")),
                VectorIn::NotNumeric => Err(bad(tag, "non-numeric component")),
                VectorIn::Components(c) => Ok(Value::Vector(copy_components(c))),
            },
            None => Err(bad(tag, "missing v")),
        };
    }
    if same_text(tag, "float64") {
        return match find_field(fields, "repr") {
            Some(f) => {
                if f.text.is_none() {
                    Err(bad(tag, "missing repr"))
                } else {
                    match f.float {
                        Some(bits) => Ok(Value::Float64(bits)),
                        None => Err(bad(tag, "bad repr")),
                    }
                }
            },
            None => Err(bad(tag, "missing repr")),
        };
    }
    Err(Error::InvalidArgument("unknown value tag '".to_owned().concat(tag).concat("'")))
}

/// The value that JSON stands for, whatever the column.
pub open spec fn plain_value(j: JsonIn) -> Result<ValueView, ErrorView> {
    match j {
        JsonIn::Null => Ok(ValueView::Null),
        JsonIn::Bool(b) => Ok(ValueView::Bool(b)),
        JsonIn::Number { whole, float, .. } => Ok(
            match whole {
                Some(n) => ValueView::Int64(n),
                None => ValueView::Float64(float),
            },
        ),
        JsonIn::Text { text, .. } => Ok(ValueView::Text(text@)),
        JsonIn::Tagged { tag, fields, .. } => tagged_value(tag@, fields@),
        JsonIn::List { raw, .. } => Ok(ValueView::Json(raw@)),
        JsonIn::Object { raw } => Ok(ValueView::Json(raw@)),
    }
}

/// Read a value from JSON, whatever the column.
pub fn json_to_value(j: &JsonIn) -> (r: Result<Value, Error>)
    ensures
        value_result(r) == plain_value(*j),
{
    match j {
        JsonIn::Null => Ok(Value::Null),
        JsonIn::Bool(b) => Ok(Value::Bool(*b)),
        JsonIn::Number { whole, float, .. } => Ok(
            match whole {
                Some(n) => Value::Int64(*n),
                None => Value::Float64(*float),
            },
        ),
        JsonIn::Text { text, .. } => Ok(Value::Text(text.clone())),
        JsonIn::Tagged { tag, fields, .. } => tagged_to_value(tag.as_str(), fields),
        JsonIn::List { raw, .. } => Ok(Value::Json(raw.clone())),
        JsonIn::Object { raw } => Ok(Value::Json(raw.clone())),
    }
}

/// The JSON document itself.
pub open spec fn document(j: JsonIn) -> Seq<char> {
    match j {
        JsonIn::Null => "null"@,
        JsonIn::Bool(b) => if b {
            "true"@
        } else {
            "false"@
        },
        JsonIn::Number { raw, .. } => raw@,
        JsonIn::Text { raw, .. } => raw@,
        JsonIn::List { raw, .. } => raw@,
        JsonIn::Tagged { raw, .. } => raw@,
        JsonIn::Object { raw } => raw@,
    }
}

fn document_text(j: &JsonIn) -> (r: String)
    ensures
        r@ == document(*j),
{
    match j {
        JsonIn::Null => "null".to_owned(),
        JsonIn::Bool(b) => {
            if *b {
                "true".to_owned()
            } else {
                "false".to_owned()
            }
        },
        JsonIn::Number { raw, .. } => raw.clone(),
        JsonIn::Text { raw, .. } => raw.clone(),
        JsonIn::List { raw, .. } => raw.clone(),
        JsonIn::Tagged { raw, .. } => raw.clone(),
        JsonIn::Object { raw } => raw.clone(),
    }
}

pub open spec fn mismatch(j: JsonIn, ty: ColumnType) -> ErrorView {
    ErrorView::InvalidArgument("value "@ + document(j) + " is not valid for a "@ + value::type_text(ty) + " column"@)
}

/// An integer for a column.
pub open spec fn int_for(j: JsonIn, ty: ColumnType) -> Result<i64, ErrorView> {
    match j {
        JsonIn::Number { whole: Some(n), .. } => Ok(n),
        JsonIn::Text { moment: Some(n), .. } => Ok(n),
        _ => Err(mismatch(j, ty)),
    }
}

/// The value that JSON stands for in a column of a type: the type tells natural
/// forms apart, and what is left must be a value of the type.
pub open spec fn typed_value(j: JsonIn, ty: ColumnType) -> Result<ValueView, ErrorView> {
    let fallback = match plain_value(j) {
        Err(e) => Err(e),
        Ok(v) => if value::has_type(v, ty) {
            Ok(v)
        } else {
            Err(mismatch(j, ty))
        },
    };
    match (ty, j) {
        (_, JsonIn::Null) => Ok(ValueView::Null),
        (ColumnType::Bool, JsonIn::Bool(b)) => Ok(ValueView::Bool(b)),
        (ColumnType::Int64, JsonIn::Number { whole, .. }) => match whole {
            Some(n) => Ok(ValueView::Int64(n)),
            None => Err(mismatch(j, ty)),
        },
        (ColumnType::Float64, JsonIn::Number { float, .. }) => Ok(ValueView::Float64(float)),
        (ColumnType::Text, JsonIn::Text { text, .. }) => Ok(ValueView::Text(text@)),
        (ColumnType::Timestamp, JsonIn::Number { .. }) | (ColumnType::Timestamp, JsonIn::Text { .. }) => match int_for(j, ty) {
            Ok(n) => Ok(ValueView::Timestamp(n)),
            Err(e) => Err(e),
        },
        (ColumnType::Date, JsonIn::Number { .. }) | (ColumnType::Date, JsonIn::Text { .. }) => match int_for(j, ty) {
            Ok(n) => Ok(ValueView::Date(n as i32)),
            Err(e) => Err(e),
        },
        (ColumnType::Time, JsonIn::Number { .. }) | (ColumnType::Time, JsonIn::Text { .. }) => match int_for(j, ty) {
            Ok(n) => Ok(ValueView::Time(n)),
            Err(e) => Err(e),
        },
        (ColumnType::Json, JsonIn::Tagged { .. }) => fallback,
        (ColumnType::Json, _) => Ok(ValueView::Json(document(j))),
        (ColumnType::Vector, JsonIn::List { vector, .. }) => match vector {
            VectorIn::Components(c) => Ok(ValueView::Vector(c@)),
            _ => Err(mismatch(j, ty)),
        },
        (ColumnType::Blob, JsonIn::Text { text, .. }) => if text::is_hex(encode_utf8(text@)) {
            Ok(ValueView::Blob(text::hex_decoded(encode_utf8(text@))))
        } else {
            Err(mismatch(j, ty))
        },
        _ => fallback,
    }
}

fn mismatch_error(j: &JsonIn, ty: ColumnType) -> (e: Error)
    ensures
        e@ == mismatch(*j, ty),
{
    Error::InvalidArgument(
        "value ".to_owned().concat(document_text(j).as_str()).concat(" is not valid for a ").concat(column_type_text(ty)).concat(
            " column",
        ),
    )
}

fn read_int_for(j: &JsonIn, ty: ColumnType) -> (r: Result<i64, Error>)
    ensures
        match int_for(*j, ty) {
            Ok(n) => r == Ok::<i64, Error>(n),
            Err(e) => r is Err && r->Err_0@ == e,
        },
{
    match j {
        JsonIn::Number { whole, .. } => match whole {
            Some(n) => Ok(*n),
            None => Err(mismatch_error(j, ty)),
        },
        JsonIn::Text { moment, .. } => match moment {
            Some(n) => Ok(*n),
            None => Err(mismatch_error(j, ty)),
        },
        _ => Err(mismatch_error(j, ty)),
    }
}

fn read_fallback(j: &JsonIn, ty: ColumnType) -> (r: Result<Value, Error>)
    ensures
        value_result(r) == (match plain_value(*j) {
            Err(e) => Err(e),
            Ok(v) => if value::has_type(v, ty) {
                Ok(v)
            } else {
                Err(mismatch(*j, ty))
            },
        }),
{
    match json_to_value(j) {
        Err(e) => Err(e),
        Ok(v) => {
            if v.matches(ty) {
                Ok(v)
            } else {
                Err(mismatch_error(j, ty))
            }
        },
    }
}

/// Read a value for a column of a type.
pub fn json_to_value_for_type(j: &JsonIn, ty: ColumnType) -> (r: Result<Value, Error>)
    ensures
        value_result(r) == typed_value(*j, ty),
{
    match (ty, j) {
        (_, JsonIn::Null) => Ok(Value::Null),
        (ColumnType::Bool, JsonIn::Bool(b)) => Ok(Value::Bool(*b)),
        (ColumnType::Int64, JsonIn::Number { whole, .. }) => match whole {
            Some(n) => Ok(Value::Int64(*n)),
            None => Err(mismatch_error(j, ty)),
        },
        (ColumnType::Float64, JsonIn::Number { float, .. }) => Ok(Value::Float64(*float)),
        (ColumnType::Text, JsonIn::Text { text, .. }) => Ok(Value::Text(text.clone())),
        (ColumnType::Timestamp, JsonIn::Number { .. }) | (ColumnType::Timestamp, JsonIn::Text { .. }) => match read_int_for(
            j,
            ty,
        ) {
            Ok(n) => Ok(Value::Timestamp(n)),
            Err(e) => Err(e),
        },
        (ColumnType::Date, JsonIn::Number { .. }) | (ColumnType::Date, JsonIn::Text { .. }) => match read_int_for(j, ty) {
            Ok(n) => Ok(Value::Date(low_days(n))),
            Err(e) => Err(e),
        },
        (ColumnType::Time, JsonIn::Number { .. }) | (ColumnType::Time, JsonIn::Text { .. }) => match read_int_for(j, ty) {
            Ok(n) => Ok(Value::Time(n)),
            Err(e) => Err(e),
        },
        (ColumnType::Json, JsonIn::Tagged { .. }) => read_fallback(j, ty),
        (ColumnType::Json, _) => Ok(Value::Json(document_text(j))),
        (ColumnType::Vector, JsonIn::List { vector, .. }) => match vector {
            VectorIn::Components(c) => Ok(Value::Vector(copy_components(c))),
            _ => Err(mismatch_error(j, ty)),
        },
        (ColumnType::Blob, JsonIn::Text { text, .. }) => match hex_decode(text.as_str()) {
            Some(data) => Ok(Value::Blob(data)),
            None => Err(mismatch_error(j, ty)),
        },
        _ => read_fallback(j, ty),
    }
}

// ---- Requests ---------------------------------------------------------------

pub open spec fn missing(name: Seq<char>) -> ErrorView {
    ErrorView::InvalidArgument("missing '"@ + name + "'"@)
}

fn required(given: Option<String>, name: &str) -> (r: Result<String, Error>)
    ensures
        match given {
            Some(s) => r is Ok && r->Ok_0@ == s@,
            None => r is Err && r->Err_0@ == missing(name@),
        },
{
    match given {
        Some(s) => Ok(s),
        None => Err(Error::InvalidArgument("missing '".to_owned().concat(name).concat("'"))),
    }
}

/// A table and a column that a request names.
pub struct Target {
    pub table: String,
    pub column: String,
}

pub open spec fn target_fault(table: Option<String>, column: Option<String>) -> Option<ErrorView> {
    if table is None {
        Some(missing("table"@))
    } else if column is None {
        Some(missing("column"@))
    } else {
        None
    }
}

/// The table and the column of a request; both are required.
pub fn request_target(table: Option<String>, column: Option<String>) -> (r: Result<Target, Error>)
    ensures
        match target_fault(table, column) {
            Some(e) => r is Err && r->Err_0@ == e,
            None => r is Ok && r->Ok_0.table@ == table->0@ && r->Ok_0.column@ == column->0@,
        },
{
    let table = match required(table, "table") {
        Ok(s) => s,
        Err(e) => {
            return Err(e);
        },
    };
    match required(column, "column") {
        Ok(column) => Ok(Target { table, column }),
        Err(e) => Err(e),
    }
}

/// Read a request for a full-text index.
pub fn create_text_index_json(table: Option<String>, column: Option<String>) -> (r: Result<Target, Error>)
    ensures
        match target_fault(table, column) {
            Some(e) => r is Err && r->Err_0@ == e,
            None => r is Ok && r->Ok_0.table@ == table->0@ && r->Ok_0.column@ == column->0@,
        },
{
    request_target(table, column)
}

/// What a request for a vector index says, as far as it says anything.
pub struct VectorIndexRequest {
    pub table: Option<String>,
    pub column: Option<String>,
    pub metric: Option<String>,
    pub mode: Option<String>,
    pub m: Option<usize>,
    pub ef_construction: Option<usize>,
    pub quantized: Option<bool>,
}

pub open spec fn metric_of(given: Option<String>, base: VectorMetric) -> Result<VectorMetric, ErrorView> {
    match given {
        None => Ok(base),
        Some(s) => if s@ == "cosine"@ {
            Ok(VectorMetric::Cosine)
        } else if s@ == "dot"@ {
            Ok(VectorMetric::Dot)
        } else if s@ == "l2"@ {
            Ok(VectorMetric::L2)
        } else {
            Err(ErrorView::InvalidArgument("unknown metric '"@ + s@ + "'"@))
        },
    }
}

pub open spec fn mode_of(given: Option<String>, base: IndexingMode) -> Result<IndexingMode, ErrorView> {
    match given {
        None => Ok(base),
        Some(s) => if s@ == "sync"@ {
            Ok(IndexingMode::Sync)
        } else if s@ == "async"@ {
            Ok(IndexingMode::Async)
        } else {
            Err(ErrorView::InvalidArgument("unknown mode '"@ + s@ + "'"@))
        },
    }
}

fn read_metric(given: &Option<String>, base: VectorMetric) -> (r: Result<VectorMetric, Error>)
    ensures
        match metric_of(*given, base) {
            Ok(m) => r == Ok::<VectorMetric, Error>(m),
            Err(e) => r is Err && r->Err_0@ == e,
        },
{
    match given {
        None => Ok(base),
        Some(s) => {
            if same_text(s.as_str(), "cosine") {
                Ok(VectorMetric::Cosine)
            } else if same_text(s.as_str(), "dot") {
                Ok(VectorMetric::Dot)
            } else if same_text(s.as_str(), "l2") {
                Ok(VectorMetric::L2)
            } else {
                Err(Error::InvalidArgument("unknown metric '".to_owned().concat(s.as_str()).concat("'")))
            }
        },
    }
}

fn read_mode(given: &Option<String>, base: IndexingMode) -> (r: Result<IndexingMode, Error>)
    ensures
        match mode_of(*given, base) {
            Ok(m) => r == Ok::<IndexingMode, Error>(m),
            Err(e) => r is Err && r->Err_0@ == e,
        },
{
    match given {
        None => Ok(base),
        Some(s) => {
            if same_text(s.as_str(), "sync") {
                Ok(IndexingMode::Sync)
            } else if same_text(s.as_str(), "async") {
                Ok(IndexingMode::Async)
            } else {
                Err(Error::InvalidArgument("unknown mode '".to_owned().concat(s.as_str()).concat("'")))
            }
        },
    }
}

pub open spec fn or_base<T>(given: Option<T>, base: T) -> T {
    match given {
        Some(v) => v,
        None => base,
    }
}

/// A vector index that is asked for.
pub struct VectorIndexOrder {
    pub table: String,
    pub def: VectorIndexDef,
}

/// What is wrong with a request for a vector index.
pub open spec fn order_fault(q: VectorIndexRequest, base: VectorIndexDef) -> Option<ErrorView> {
    match target_fault(q.table, q.column) {
        Some(e) => Some(e),
        None => match metric_of(q.metric, base.metric) {
            Err(e) => Some(e),
            Ok(_) => match mode_of(q.mode, base.mode) {
                Err(e) => Some(e),
                Ok(_) => None,
            },
        },
    }
}

/// Read a request for a vector index; what it leaves open is as in `base`.
pub fn create_vector_index_json(q: VectorIndexRequest, base: &VectorIndexDef) -> (r: Result<VectorIndexOrder, Error>)
    ensures
        match order_fault(q, *base) {
            Some(e) => r is Err && r->Err_0@ == e,
            None => {
                &&& r is Ok
                &&& r->Ok_0.table@ == q.table->0@
                &&& r->Ok_0.def.column@ == q.column->0@
                &&& Ok::<VectorMetric, ErrorView>(r->Ok_0.def.metric) == metric_of(q.metric, base.metric)
                &&& Ok::<IndexingMode, ErrorView>(r->Ok_0.def.mode) == mode_of(q.mode, base.mode)
                &&& r->Ok_0.def.m == or_base(q.m, base.m)
                &&& r->Ok_0.def.ef_construction == or_base(q.ef_construction, base.ef_construction)
                &&& r->Ok_0.def.quantized == or_base(q.quantized, base.quantized)
            },
        },
{
    let VectorIndexRequest { table, column, metric, mode, m, ef_construction, quantized } = q;
    let Target { table, column } = match request_target(table, column) {
        Ok(t) => t,
        Err(e) => {
            return Err(e);
        },
    };
    let metric = match read_metric(&metric, base.metric) {
        Ok(m) => m,
        Err(e) => {
            return Err(e);
        },
    };
    let mode = match read_mode(&mode, base.mode) {
        Ok(m) => m,
        Err(e) => {
            return Err(e);
        },
    };
    let m: usize = match m {
        Some(m) => m,
        None => base.m,
    };
    let ef_construction: usize = match ef_construction {
        Some(n) => n,
        None => base.ef_construction,
    };
    let quantized = match quantized {
        Some(b) => b,
        None => base.quantized,
    };
    Ok(VectorIndexOrder { table, def: VectorIndexDef { column, metric, m, ef_construction, mode, quantized } })
}

/// A field of a filter.
pub struct FilterField {
    pub name: String,
    pub value: JsonIn,
}

/// The record that the first fields of a filter make.
pub open spec fn filter_record(fields: Seq<FilterField>, n: int) -> Result<RecordView, ErrorView>
    decreases n,
{
    if n <= 0 {
        Ok(Map::empty())
    } else {
        match filter_record(fields, n - 1) {
            Err(e) => Err(e),
            Ok(rec) => match plain_value(fields[n - 1].value) {
                Err(e) => Err(e),
                Ok(v) => Ok(rec.insert(encode_utf8(fields[n - 1].name@), v)),
            },
        }
    }
}

proof fn lemma_filter_prefix(fields: Seq<FilterField>, n: int)
    requires
        0 <= n <= fields.len(),
    ensures
        filter_record(fields, n) matches Err(e) ==> filter_record(fields, fields.len() as int) == Err::<RecordView, ErrorView>(e),
    decreases fields.len() - n,
{
    if n < fields.len() {
        lemma_filter_prefix(fields, n + 1);
    }
}

/// Read a filter from the fields of a JSON object.
pub fn filter_from_json(fields: &Vec<FilterField>) -> (r: Result<Record, Error>)
    ensures
        match filter_record(fields@, fields@.len() as int) {
            Ok(rec) => r is Ok && r->Ok_0.wf() && r->Ok_0@ == rec,
            Err(e) => r is Err && r->Err_0@ == e,
        },
{
    let mut out: Record = CowMap::new();
    let mut i: usize = 0;
    while i < fields.len()
        invariant
            i <= fields@.len(),
            out.wf(),
            filter_record(fields@, i as int) == Ok::<RecordView, ErrorView>(out@),
        decreases fields@.len() - i,
    {
        proof {
            lemma_filter_prefix(fields@, i + 1);
        }
        match json_to_value(&fields[i].value) {
            Err(e) => {
                return Err(e);
            },
            Ok(v) => {
                let _ = out.insert(fields[i].name.clone(), v);
            },
        }
        i = i + 1;
    }
    Ok(out)
}

/// How many hits a search gives where it does not say.
pub const DEFAULT_TOP_K: usize = 10;

/// The vector of a request.
pub open spec fn request_vector(v: VectorIn, missing: Seq<char>, not_numeric: Seq<char>) -> Result<Seq<u32>, ErrorView> {
    match v {
        VectorIn::Missing => Err(ErrorView::InvalidArgument(missing)),
        VectorIn::NotNumeric => Err(ErrorView::InvalidArgument(not_numeric)),
        VectorIn::Components(c) => Ok(c@),
    }
}

fn read_vector(v: VectorIn, missing: &str, not_numeric: &str) -> (r: Result<Vec<u32>, Error>)
    ensures
        match request_vector(v, missing@, not_numeric@) {
            Ok(c) => r is Ok && r->Ok_0@ == c,
            Err(e) => r is Err && r->Err_0@ == e,
        },
{
    match v {
        VectorIn::Missing => Err(invalid(missing)),
        VectorIn::NotNumeric => Err(invalid(not_numeric)),
        VectorIn::Components(c) => Ok(c),
    }
}

/// A search by words that is asked for.
pub struct TextSearchOrder {
    pub target: Target,
    pub query: String,
    pub top_k: usize,
}

/// Read a request for a search by words.
pub fn search_text_json(table: Option<String>, column: Option<String>, query: Option<String>, top_k: Option<usize>) -> (r: Result<
    TextSearchOrder,
    Error,
>)
    ensures
        match target_fault(table, column) {
            Some(e) => r is Err && r->Err_0@ == e,
            None => match query {
                None => r is Err && r->Err_0@ == missing("query"@),
                Some(q) => r is Ok && r->Ok_0.target.table@ == table->0@ && r->Ok_0.target.column@ == column->0@
                    && r->Ok_0.query@ == q@ && r->Ok_0.top_k == or_base(top_k, DEFAULT_TOP_K),
            },
        },
{
    let target = match request_target(table, column) {
        Ok(t) => t,
        Err(e) => {
            return Err(e);
        },
    };
    let query = match required(query, "query") {
        Ok(q) => q,
        Err(e) => {
            return Err(e);
        },
    };
    let top_k: usize = match top_k {
        Some(k) => k,
        None => DEFAULT_TOP_K,
    };
    Ok(TextSearchOrder { target, query, top_k })
}

/// A search by a vector that is asked for.
pub struct VectorSearchOrder {
    pub target: Target,
    pub vector: Vec<u32>,
    pub top_k: usize,
    /// How wide the graph is searched, where the request says.
    pub ef_search: Option<usize>,
}

/// Read a request for a search by a vector.
pub fn search_vector_json(
    table: Option<String>,
    column: Option<String>,
    vector: VectorIn,
    top_k: Option<usize>,
    ef_search: Option<usize>,
) -> (r: Result<VectorSearchOrder, Error>)
    ensures
        match target_fault(table, column) {
            Some(e) => r is Err && r->Err_0@ == e,
            None => match request_vector(vector, "missing 'vector'"@, "non-numeric vector component"@) {
                Err(e) => r is Err && r->Err_0@ == e,
                Ok(c) => r is Ok && r->Ok_0.target.table@ == table->0@ && r->Ok_0.target.column@ == column->0@
                    && r->Ok_0.vector@ == c && r->Ok_0.top_k == or_base(top_k, DEFAULT_TOP_K) && r->Ok_0.ef_search == ef_search,
            },
        },
{
    let target = match request_target(table, column) {
        Ok(t) => t,
        Err(e) => {
            return Err(e);
        },
    };
    let vector = match read_vector(vector, "missing 'vector'", "non-numeric vector component") {
        Ok(c) => c,
        Err(e) => {
            return Err(e);
        },
    };
    let top_k: usize = match top_k {
        Some(k) => k,
        None => DEFAULT_TOP_K,
    };
    Ok(VectorSearchOrder { target, vector, top_k, ef_search })
}

/// The words of a combined search.
pub struct TextPart {
    pub column: Option<String>,
    pub query: Option<String>,
}

/// The vector of a combined search.
pub struct VectorPart {
    pub column: Option<String>,
    pub vector: VectorIn,
}

/// A combined search that is asked for.
pub struct HybridOrder {
    pub table: String,
    pub text: Option<WordsOrder>,
    pub vector: Option<NearOrder>,
    pub top_k: usize,
    /// How wide the graph is searched, where the request says.
    pub ef_search: Option<usize>,
}

pub struct WordsOrder {
    pub column: String,
    pub query: String,
}

pub struct NearOrder {
    pub column: String,
    pub vector: Vec<u32>,
}

pub open spec fn text_part_fault(p: Option<TextPart>) -> Option<ErrorView> {
    match p {
        None => None,
        Some(p) => if p.column is None {
            Some(ErrorView::InvalidArgument("text: missing 'column'"@))
        } else if p.query is None {
            Some(ErrorView::InvalidArgument("text: missing 'query'"@))
        } else {
            None
        },
    }
}

pub open spec fn vector_part_fault(p: Option<VectorPart>) -> Option<ErrorView> {
    match p {
        None => None,
        Some(p) => if p.column is None {
            Some(ErrorView::InvalidArgument("vector: missing 'column'"@))
        } else {
            match request_vector(p.vector, "vector: missing 'vector'"@, "vector: non-numeric component"@) {
                Err(e) => Some(e),
                Ok(_) => None,
            }
        },
    }
}

pub open spec fn hybrid_fault(table: Option<String>, text: Option<TextPart>, vector: Option<VectorPart>) -> Option<ErrorView> {
    if table is None {
        Some(missing("table"@))
    } else {
        match text_part_fault(text) {
            Some(e) => Some(e),
            None => vector_part_fault(vector),
        }
    }
}

fn read_text_part(p: Option<TextPart>) -> (r: Result<Option<WordsOrder>, Error>)
    ensures
        match text_part_fault(p) {
            Some(e) => r is Err && r->Err_0@ == e,
            None => match p {
                None => r matches Ok(None),
                Some(t) => r matches Ok(Some(o)) && o.column@ == t.column->0@ && o.query@ == t.query->0@,
            },
        },
{
    match p {
        None => Ok(None),
        Some(TextPart { column, query }) => {
            let column = match column {
                Some(c) => c,
                None => {
                    return Err(invalid("text: missing 'column'"));
                },
            };
            match query {
                Some(query) => Ok(Some(WordsOrder { column, query })),
                None => Err(invalid("text: missing 'query'")),
            }
        },
    }
}

fn read_vector_part(p: Option<VectorPart>) -> (r: Result<Option<NearOrder>, Error>)
    ensures
        match vector_part_fault(p) {
            Some(e) => r is Err && r->Err_0@ == e,
            None => match p {
                None => r matches Ok(None),
                Some(t) => r matches Ok(Some(o)) && o.column@ == t.column->0@ && (t.vector matches VectorIn::Components(c)
                    && o.vector@ == c@),
            },
        },
{
    match p {
        None => Ok(None),
        Some(VectorPart { column, vector }) => {
            let column = match column {
                Some(c) => c,
                None => {
                    return Err(invalid("vector: missing 'column'"));
                },
            };
            match read_vector(vector, "vector: missing 'vector'", "vector: non-numeric component") {
                Ok(vector) => Ok(Some(NearOrder { column, vector })),
                Err(e) => Err(e),
            }
        },
    }
}

/// Read a request for a combined search.
pub fn search_hybrid_json(
    table: Option<String>,
    text: Option<TextPart>,
    vector: Option<VectorPart>,
    top_k: Option<usize>,
    ef_search: Option<usize>,
) -> (r: Result<HybridOrder, Error>)
    ensures
        match hybrid_fault(table, text, vector) {
            Some(e) => r is Err && r->Err_0@ == e,
            None => {
                &&& r is Ok
                &&& r->Ok_0.table@ == table->0@
                &&& r->Ok_0.top_k == or_base(top_k, DEFAULT_TOP_K)
                &&& r->Ok_0.ef_search == ef_search
                &&& match text {
                    None => r->Ok_0.text is None,
                    Some(t) => r->Ok_0.text matches Some(o) && o.column@ == t.column->0@ && o.query@ == t.query->0@,
                }
                &&& match vector {
                    None => r->Ok_0.vector is None,
                    Some(t) => r->Ok_0.vector matches Some(o) && o.column@ == t.column->0@ && (t.vector matches
                        VectorIn::Components(c) && o.vector@ == c@),
                }
            },
        },
{
    let table = match required(table, "table") {
        Ok(t) => t,
        Err(e) => {
            return Err(e);
        },
    };
    let text = match read_text_part(text) {
        Ok(t) => t,
        Err(e) => {
            return Err(e);
        },
    };
    let vector = match read_vector_part(vector) {
        Ok(v) => v,
        Err(e) => {
            return Err(e);
        },
    };
    let top_k: usize = match top_k {
        Some(k) => k,
        None => DEFAULT_TOP_K,
    };
    Ok(HybridOrder { table, text, vector, top_k, ef_search })
}

// ---- Laws -------------------------------------------------------------------

pub open spec fn field_read(f: NamedView, got: FieldIn) -> bool {
    &&& got.name@ == f.name
    &&& match f.value {
        FieldView::Text(s) => got.text is Some && got.text->0@ == s && forall|bits: u64|
            !value::is_nan64(bits) && !is_finite(bits) && s == #[trigger] float_name(bits) ==> got.float == Some(bits),
        FieldView::Int(n) => got.whole == Some(n),
        FieldView::Raw(s) => got.raw@ == s,
        FieldView::Vector(c) => got.vector matches VectorIn::Components(v) && v@ == c,
    }
}

/// `got` is what reading the written JSON gives. The texts of the infinities are
/// read as these numbers.
pub open spec fn is_read(j: JsonView, got: JsonIn) -> bool {
    match j {
        JsonView::Null => got is Null,
        JsonView::Bool(b) => got == JsonIn::Bool(b),
        JsonView::Int(n) => got matches JsonIn::Number { whole, .. } && whole == Some(n),
        JsonView::Float(bits) => got matches JsonIn::Number { whole, float, .. } && whole is None && float == bits,
        JsonView::Text(s) => got matches JsonIn::Text { text, .. } && text@ == s,
        JsonView::Tagged { tag, fields } => got matches JsonIn::Tagged { tag: t, fields: f, .. } && t@ == tag && f@.len()
            == fields.len() && forall|i: int| 0 <= i < fields.len() ==> field_read(#[trigger] fields[i], f@[i]),
    }
}

pub open spec fn has_nan(v: ValueView) -> bool {
    match v {
        ValueView::Float64(bits) => value::is_nan64(bits),
        ValueView::Vector(c) => exists|i: int| 0 <= i < c.len() && value::is_nan32(#[trigger] c[i]),
        _ => false,
    }
}

/// A value that is written and read again is the value. What is not a number is
/// left out: its text does not tell which of these it was.
pub proof fn lemma_json_round_trip(v: ValueView, j: JsonView, got: JsonIn)
    requires
        is_written(v, j),
        is_read(j, got),
        !has_nan(v),
    ensures
        plain_value(got) == Ok::<ValueView, ErrorView>(v),
{
    reveal_strlit("blob");
    reveal_strlit("timestamp");
    reveal_strlit("date");
    reveal_strlit("time");
    reveal_strlit("json");
    reveal_strlit("vector");
    reveal_strlit("float64");
    reveal_strlit("hex");
    reveal_strlit("repr");
    reveal_strlit("us");
    reveal_strlit("iso");
    reveal_strlit("days");
    reveal_strlit("v");
    assert("blob"@[0] == 'b' && "date"@[0] == 'd' && "time"@[0] == 't' && "json"@[0] == 'j');
    assert("blob"@.len() == 4 && "timestamp"@.len() == 9 && "vector"@.len() == 6 && "float64"@.len() == 7);
    assert("us"@.len() == 2 && "iso"@.len() == 3 && "days"@.len() == 4);
    match got {
        JsonIn::Tagged { tag, fields, .. } => {
            let f = fields@;
            let w = j->fields;
            assert(field_read(w[0], f[0]));
            reveal_with_fuel(field_of, 3);
            if f.len() == 1 {
                assert(f.drop_last() =~= Seq::<FieldIn>::empty());
            } else {
                assert(f.drop_last().drop_last() =~= Seq::<FieldIn>::empty());
                assert(f.drop_last().last() == f[0]);
                assert(field_read(w[1], f[1]));
            }
            match v {
                ValueView::Blob(data) => {
                    text::lemma_hex_round_trip(data);
                    assert(field_of(f, "hex"@) == Some(0int));
                },
                ValueView::Timestamp(us) => {
                    assert(f.len() == 2);
                    assert(field_of(f, "us"@) == Some(0int));
                    assert(moment_in(tag@, f, "us"@) == Ok::<i64, ErrorView>(us));
                },
                ValueView::Time(us) => {
                    assert(f.len() == 2);
                    assert(field_of(f, "us"@) == Some(0int));
                },
                ValueView::Date(days) => {
                    assert(f.len() == 2);
                    assert(field_of(f, "days"@) == Some(0int));
                    assert((days as i64) as i32 == days);
                },
                ValueView::Float64(bits) => {
                    assert(field_of(f, "repr"@) == Some(0int));
                    assert(w[0].value == FieldView::Text(float_name(bits)));
                    assert(f[0].float == Some(bits));
                },
                ValueView::Json(_) => {
                    assert(field_of(f, "v"@) == Some(0int));
                },
                ValueView::Vector(_) => {
                    assert(field_of(f, "v"@) == Some(0int));
                },
                _ => {},
            }
        },
        _ => {},
    }
}

} // verus!
