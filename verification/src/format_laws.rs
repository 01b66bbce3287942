//! Texts and numbers: dates and times, decimal numbers, JSON and dot products.

use crate::distance;
use crate::error::ErrorView;
use crate::json::{self, FilterField, JsonIn, JsonView};
use crate::record::RecordView;
use crate::text;
use crate::value::{ColumnType, ValueView};
use vstd::prelude::*;
use vstd::string::*;
use vstd::utf8::*;

verus! {

// ---- Decimal numbers --------------------------------------------------------

/// The number that decimal digits write.
pub open spec fn decimal_value(s: Seq<u8>) -> int
    decreases s.len(),
{
    if s.len() == 0 {
        0
    } else {
        decimal_value(s.drop_last()) * 10 + (s.last() - 48)
    }
}

/// A number in decimal is made of digits, does not begin with a zero unless it is
/// zero, and reads as the number.
pub proof fn lemma_decimal_reads_back(n: nat)
    ensures
        decimal_value(text::decimal_bytes(n)) == n,
        text::decimal_bytes(n).len() > 0,
        forall|i: int| 0 <= i < text::decimal_bytes(n).len() ==> 48 <= #[trigger] text::decimal_bytes(n)[i] <= 57,
        n > 0 ==> text::decimal_bytes(n)[0] != 48,
    decreases n,
{
    let s = text::decimal_bytes(n);
    if n < 10 {
        assert(s.drop_last() =~= Seq::<u8>::empty());
        assert(decimal_value(s.drop_last()) == 0);
    } else {
        lemma_decimal_reads_back(n / 10);
        assert(s.drop_last() =~= text::decimal_bytes(n / 10));
    }
}

// ---- Dates and times --------------------------------------------------------

/// Days are counted from the first of January 1970, one for each date: the day
/// after a date is the next of the month, or the first of the next month, or the
/// first of the next year; and 400 years have 97 leap days, none of them in a year
/// of a full century that 400 does not divide.
pub proof fn lemma_calendar(y: int, m: int, d: int)
    requires
        text::is_date(y, m, d),
    ensures
        text::day_number(1970, 1, 1) == 0,
        text::is_date(y, m, d + 1) ==> text::day_number(y, m, d + 1) == text::day_number(y, m, d) + 1,
        !text::is_date(y, m, d + 1) && m < 12 ==> text::is_date(y, m + 1, 1) && text::day_number(y, m + 1, 1) == text::day_number(y, m, d) + 1,
        !text::is_date(y, m, d + 1) && m == 12 ==> text::day_number(y + 1, 1, 1) == text::day_number(y, m, d) + 1,
        text::day_number(y + 400, m, d) == text::day_number(y, m, d) + 400 * 365 + 97,
        text::is_date(y, 2, 29) <==> y % 4 == 0 && !(y % 100 == 0 && y % 400 != 0),
        text::is_date(y, m, 28),
        !text::is_date(y, m, 32),
        text::is_date(y, m, 31) <==> m == 1 || m == 3 || m == 5 || m == 7 || m == 8 || m == 10 || m == 12,
        text::is_date(y, m, 30) <==> m != 2,
{
    reveal_with_fuel(text::days_before_month, 13);
    text::lemma_year_step(y);
    assert(text::days_before_month(1970, 1) == 0);
    lemma_same_months(y, m);
}

proof fn lemma_same_months(y: int, m: int)
    ensures
        text::days_before_month(y + 400, m) == text::days_before_month(y, m),
    decreases m,
{
    if m > 1 {
        lemma_same_months(y, m - 1);
    }
}

/// A time of day is written as hours, minutes and seconds that together with the
/// microseconds behind them make up the time; microseconds are left out where
/// there are none.
pub proof fn lemma_time_text(micros: int, h: int, m: int, s: int, f: int)
    requires
        0 <= h,
        0 <= m < 60,
        0 <= s < 60,
        0 <= f < 1_000_000,
        micros == ((h * 60 + m) * 60 + s) * 1_000_000 + f,
    ensures
        text::time_text(micros) == (if f == 0 {
            text::padded(h, 2) + ":"@ + text::padded(m, 2) + ":"@ + text::padded(s, 2)
        } else {
            text::padded(h, 2) + ":"@ + text::padded(m, 2) + ":"@ + text::padded(s, 2) + "."@ + text::padded(f, 6)
        }),
{
    let total = (h * 60 + m) * 60 + s;
    assert(micros / 1_000_000 == total && micros % 1_000_000 == f);
    assert(total / 3600 == h);
    assert(total / 60 == h * 60 + m);
    assert((h * 60 + m) / 60 == h);
}

// ---- Dot products -----------------------------------------------------------

/// The dot product with a vector that is one at a place and zero elsewhere is the
/// component at that place.
pub proof fn lemma_dot_picks(a: Seq<i8>, unit: Seq<i8>, k: int, n: int)
    requires
        0 <= n <= a.len(),
        n <= unit.len(),
        forall|i: int| 0 <= i < n ==> #[trigger] unit[i] == (if i == k { 1int } else { 0int }),
    ensures
        distance::dot_range(a, unit, 0, n) == (if 0 <= k < n {
            a[k] as int
        } else {
            0
        }),
    decreases n,
{
    if n > 0 {
        lemma_dot_picks(a, unit, k, n - 1);
        assert(unit[n - 1] == (if n - 1 == k { 1int } else { 0int }));
        let x = a[n - 1] as int;
        assert(x * 1 == x && x * 0 == 0);
    }
}

/// The dot product of a sum of vectors is the sum of their dot products.
pub proof fn lemma_dot_adds(a: Seq<i8>, b: Seq<i8>, sum: Seq<i8>, c: Seq<i8>, n: int)
    requires
        0 <= n <= a.len(),
        n <= b.len(),
        n <= sum.len(),
        n <= c.len(),
        forall|i: int| 0 <= i < n ==> #[trigger] sum[i] == a[i] + b[i],
    ensures
        distance::dot_range(sum, c, 0, n) == distance::dot_range(a, c, 0, n) + distance::dot_range(b, c, 0, n),
    decreases n,
{
    if n > 0 {
        lemma_dot_adds(a, b, sum, c, n - 1);
        let (x, y, z) = (a[n - 1] as int, b[n - 1] as int, c[n - 1] as int);
        assert(sum[n - 1] == x + y);
        assert((x + y) * z == x * z + y * z) by (nonlinear_arith);
    }
}

/// The dot product is over the components that both vectors have.
pub proof fn lemma_dot_common(a: Seq<i8>, b: Seq<i8>)
    ensures
        a.len() <= b.len() ==> distance::dot(a, b) == distance::dot_range(a, b, 0, a.len() as int),
        b.len() <= a.len() ==> distance::dot(a, b) == distance::dot_range(a, b, 0, b.len() as int),
{
}

// ---- JSON -------------------------------------------------------------------

/// The value is null, or of the type.
pub open spec fn is_of(v: ValueView, ty: ColumnType) -> bool {
    match v {
        ValueView::Null => true,
        ValueView::Bool(_) => ty == ColumnType::Bool,
        ValueView::Int64(_) => ty == ColumnType::Int64,
        ValueView::Float64(_) => ty == ColumnType::Float64,
        ValueView::Text(_) => ty == ColumnType::Text,
        ValueView::Blob(_) => ty == ColumnType::Blob,
        ValueView::Timestamp(_) => ty == ColumnType::Timestamp,
        ValueView::Json(_) => ty == ColumnType::Json,
        ValueView::Vector(_) => ty == ColumnType::Vector,
        ValueView::Date(_) => ty == ColumnType::Date,
        ValueView::Time(_) => ty == ColumnType::Time,
    }
}

/// What JSON stands for in a column is null or a value of the column's type.
pub proof fn lemma_typed_json_fits(j: JsonIn, ty: ColumnType)
    ensures
        json::typed_value(j, ty) matches Ok(v) ==> is_of(v, ty),
        j is Null ==> json::typed_value(j, ty) == Ok::<ValueView, ErrorView>(ValueView::Null),
{
}

/// A value that is written as JSON and read again for a column of its type is the
/// value. What is not a number is left out.
pub proof fn lemma_typed_json_round_trip(v: ValueView, ty: ColumnType, j: JsonView, got: JsonIn)
    requires
        json::is_written(v, j),
        json::is_read(j, got),
        !json::has_nan(v),
        is_of(v, ty),
    ensures
        json::typed_value(got, ty) == Ok::<ValueView, ErrorView>(v),
{
    json::lemma_json_round_trip(v, j, got);
}

/// A filter asks, under every name that it gives, for the value that it gives last
/// under that name, and under no other name for anything.
pub proof fn lemma_filter_fields(fields: Seq<FilterField>, n: int, rec: RecordView, key: Seq<u8>)
    requires
        0 <= n <= fields.len(),
        json::filter_record(fields, n) == Ok::<RecordView, ErrorView>(rec),
    ensures
        (forall|i: int| 0 <= i < n ==> encode_utf8((#[trigger] fields[i]).name@) != key) ==> !rec.contains_key(key),
        forall|i: int|
            0 <= i < n && encode_utf8((#[trigger] fields[i]).name@) == key && (forall|k: int|
                i < k < n ==> encode_utf8((#[trigger] fields[k]).name@) != key) ==> rec.contains_key(key) && json::plain_value(
                fields[i].value,
            ) == Ok::<ValueView, ErrorView>(rec[key]),
    decreases n,
{
    if n > 0 {
        let before = json::filter_record(fields, n - 1)->Ok_0;
        lemma_filter_fields(fields, n - 1, before, key);
        assert(encode_utf8(fields[n - 1].name@) == key || encode_utf8(fields[n - 1].name@) != key);
        assert forall|i: int|
            0 <= i < n && encode_utf8((#[trigger] fields[i]).name@) == key && (forall|k: int|
                i < k < n ==> encode_utf8((#[trigger] fields[k]).name@) != key) implies rec.contains_key(key) && json::plain_value(
            fields[i].value,
        ) == Ok::<ValueView, ErrorView>(rec[key]) by {
            if i < n - 1 {
                assert(encode_utf8(fields[n - 1].name@) != key);
            }
        }
    }
}

} // verus!
