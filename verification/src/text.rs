//! Text: numbers in decimal and hexadecimal, calendar dates and times of day.

use crate::bytes;
use vstd::prelude::*;
use vstd::string::*;
use vstd::utf8::*;

verus! {

/// The text of ASCII bytes.
pub open spec fn ascii_chars(data: Seq<u8>) -> Seq<char> {
    Seq::new(data.len(), |i: int| data[i] as char)
}

/// The text that the ASCII bytes `data` write.
pub fn ascii_text(data: &[u8]) -> (r: String)
    requires
        forall|i: int| 0 <= i < data@.len() ==> #[trigger] data@[i] < 128,
    ensures
        r@ == ascii_chars(data@),
{
    let ghost chars = ascii_chars(data@);
    proof {
        assert(is_ascii_chars(chars));
        is_ascii_chars_encode_utf8(chars);
        assert(encode_utf8(chars) =~= data@);
        encode_utf8_valid_utf8(chars);
        encode_utf8_decode_utf8(chars);
    }
    match bytes::text_from_utf8(data) {
        Some(s) => s,
        None => {
            assert(false);
            String::new()
        },
    }
}

/// The decimal digit of `d`, as a byte.
pub open spec fn digit(d: nat) -> u8 {
    (48 + d) as u8
}

/// `n` in decimal, as ASCII bytes.
pub open spec fn decimal_bytes(n: nat) -> Seq<u8>
    decreases n,
{
    if n < 10 {
        seq![digit(n)]
    } else {
        decimal_bytes(n / 10).push(digit(n % 10))
    }
}

/// `n` in decimal.
pub open spec fn decimal(n: nat) -> Seq<char> {
    ascii_chars(decimal_bytes(n))
}

pub open spec fn zeros(count: int) -> Seq<u8> {
    Seq::new(if count > 0 { count as nat } else { 0 }, |i: int| 48u8)
}

/// `n` in at least `width` characters, filled with zeros after the sign.
pub open spec fn padded_bytes(n: int, width: nat) -> Seq<u8> {
    if n < 0 {
        let body = decimal_bytes((-n) as nat);
        seq![45u8] + zeros(width - 1 - body.len()) + body
    } else {
        let body = decimal_bytes(n as nat);
        zeros(width - body.len()) + body
    }
}

pub open spec fn padded(n: int, width: nat) -> Seq<char> {
    ascii_chars(padded_bytes(n, width))
}

proof fn lemma_decimal_ascii(n: nat)
    ensures
        forall|i: int| 0 <= i < decimal_bytes(n).len() ==> 48 <= #[trigger] decimal_bytes(n)[i] < 58,
        decimal_bytes(n).len() >= 1,
    decreases n,
{
    if n >= 10 {
        lemma_decimal_ascii(n / 10);
    }
}

/// Append `n` in decimal.
fn push_decimal(buf: &mut Vec<u8>, n: u64)
    ensures
        final(buf)@ == old(buf)@ + decimal_bytes(n as nat),
    decreases n,
{
    if n >= 10 {
        push_decimal(buf, n / 10);
    }
    let low: u8 = 48 + (n % 10) as u8;
    let ghost before = buf@;
    buf.push(low);
    proof {
        assert(low == digit((n % 10) as nat));
        if n >= 10 {
            assert(old(buf)@ + decimal_bytes(n as nat) =~= (old(buf)@ + decimal_bytes((n / 10) as nat)).push(low));
        } else {
            assert(n % 10 == n);
            assert(old(buf)@ + decimal_bytes(n as nat) =~= old(buf)@.push(low));
        }
    }
}

/// `n` in decimal.
pub fn decimal_text(n: u64) -> (r: String)
    ensures
        r@ == decimal(n as nat),
{
    let mut buf: Vec<u8> = Vec::new();
    push_decimal(&mut buf, n);
    proof {
        lemma_decimal_ascii(n as nat);
        assert(buf@ =~= decimal_bytes(n as nat));
    }
    ascii_text(buf.as_slice())
}

/// Append `n` in at least `width` characters.
fn push_padded(buf: &mut Vec<u8>, n: i64, width: usize)
    requires
        1 <= width <= 32,
    ensures
        final(buf)@ == old(buf)@ + padded_bytes(n as int, width as nat),
{
    let negative: bool = n < 0;
    let magnitude: u64 = if negative {
        (-(n as i128)) as u64
    } else {
        n as u64
    };
    let mut body: Vec<u8> = Vec::new();
    push_decimal(&mut body, magnitude);
    assert(body@ =~= decimal_bytes(magnitude as nat));
    let room: usize = if negative {
        width - 1
    } else {
        width
    };
    if negative {
        buf.push(45);
    }
    let ghost head = buf@;
    let mut filled: usize = 0;
    while filled < room && room - filled > body.len()
        invariant
            filled <= room,
            filled == 0 || filled + body@.len() <= room,
            buf@ == head + zeros(filled as int),
        decreases room - filled,
    {
        buf.push(48);
        filled = filled + 1;
        assert(head + zeros(filled as int) =~= (head + zeros(filled - 1)).push(48));
    }
    let ghost gap = room - body@.len();
    assert(zeros(filled as int) =~= zeros(gap));
    bytes::push_all(buf, body.as_slice());
    proof {
        if negative {
            assert(head =~= old(buf)@ + seq![45u8]);
            assert(buf@ =~= old(buf)@ + (seq![45u8] + zeros(gap) + body@));
        } else {
            assert(buf@ =~= old(buf)@ + (zeros(gap) + body@));
        }
    }
}

proof fn lemma_padded_ascii(n: int, width: nat)
    ensures
        forall|i: int| 0 <= i < padded_bytes(n, width).len() ==> #[trigger] padded_bytes(n, width)[i] < 128,
{
    if n < 0 {
        lemma_decimal_ascii((-n) as nat);
    } else {
        lemma_decimal_ascii(n as nat);
    }
}

/// `n` in at least `width` characters, filled with zeros after the sign.
pub fn padded_text(n: i64, width: usize) -> (r: String)
    requires
        1 <= width <= 32,
    ensures
        r@ == padded(n as int, width as nat),
{
    let mut buf: Vec<u8> = Vec::new();
    push_padded(&mut buf, n, width);
    proof {
        lemma_padded_ascii(n as int, width as nat);
        assert(buf@ =~= padded_bytes(n as int, width as nat));
    }
    ascii_text(buf.as_slice())
}

// ---- Hexadecimal ------------------------------------------------------------

/// The lower-case hexadecimal digit of `d`, as a byte.
pub open spec fn hex_digit(d: nat) -> u8 {
    if d < 10 {
        (48 + d) as u8
    } else {
        (87 + d) as u8
    }
}

/// The value of a hexadecimal digit of either case.
pub open spec fn hex_value(c: u8) -> Option<nat> {
    if 48 <= c <= 57 {
        Some((c - 48) as nat)
    } else if 97 <= c <= 102 {
        Some((c - 87) as nat)
    } else if 65 <= c <= 70 {
        Some((c - 55) as nat)
    } else {
        None
    }
}

/// Two digits per byte, the high half first.
pub open spec fn hex_bytes(data: Seq<u8>) -> Seq<u8> {
    Seq::new(
        data.len() * 2,
        |i: int|
            if i % 2 == 0 {
                hex_digit((data[i / 2] / 16) as nat)
            } else {
                hex_digit((data[i / 2] % 16) as nat)
            },
    )
}

/// Whether `digits` writes bytes: an even number of hexadecimal digits.
pub open spec fn is_hex(digits: Seq<u8>) -> bool {
    &&& digits.len() % 2 == 0
    &&& forall|i: int| 0 <= i < digits.len() ==> hex_value(#[trigger] digits[i]) is Some
}

/// The bytes that `digits` write.
pub open spec fn hex_decoded(digits: Seq<u8>) -> Seq<u8> {
    Seq::new(
        digits.len() / 2,
        |i: int| (hex_value(digits[2 * i])->0 * 16 + hex_value(digits[2 * i + 1])->0) as u8,
    )
}

fn hex_digit_of(d: u8) -> (r: u8)
    requires
        d < 16,
    ensures
        r == hex_digit(d as nat),
        r < 128,
{
    if d < 10 {
        48 + d
    } else {
        87 + d
    }
}

fn hex_value_of(c: u8) -> (r: Option<u8>)
    ensures
        r is Some <==> hex_value(c) is Some,
        r matches Some(v) ==> v == hex_value(c)->0 && v < 16,
{
    if 48 <= c && c <= 57 {
        Some(c - 48)
    } else if 97 <= c && c <= 102 {
        Some(c - 87)
    } else if 65 <= c && c <= 70 {
        Some(c - 55)
    } else {
        None
    }
}

/// The lower-case hexadecimal text of `data`.
pub fn hex_encode(data: &[u8]) -> (r: String)
    ensures
        r@ == ascii_chars(hex_bytes(data@)),
{
    let mut out: Vec<u8> = Vec::new();
    let mut i: usize = 0;
    while i < data.len()
        invariant
            i <= data@.len(),
            out@ == hex_bytes(data@.subrange(0, i as int)),
            forall|j: int| 0 <= j < out@.len() ==> #[trigger] out@[j] < 128,
        decreases data@.len() - i,
    {
        let b: u8 = data[i];
        let ghost before = out@;
        out.push(hex_digit_of(b / 16));
        out.push(hex_digit_of(b % 16));
        proof {
            let shorter = data@.subrange(0, i as int);
            let longer = data@.subrange(0, i + 1);
            assert forall|j: int| 0 <= j < hex_bytes(longer).len() implies #[trigger] hex_bytes(longer)[j] == out@[j] by {
                if j < 2 * i {
                    assert(hex_bytes(shorter)[j] == before[j]);
                    assert(shorter[j / 2] == longer[j / 2]);
                }
            }
            assert(out@ =~= hex_bytes(longer));
        }
        i = i + 1;
    }
    assert(data@.subrange(0, data@.len() as int) =~= data@);
    ascii_text(out.as_slice())
}

/// The bytes that the hexadecimal text `s` writes, if it does.
pub fn hex_decode(s: &str) -> (r: Option<Vec<u8>>)
    ensures
        r is Some <==> is_hex(encode_utf8(s@)),
        r matches Some(data) ==> data@ == hex_decoded(encode_utf8(s@)),
{
    let digits = s.as_bytes();
    if digits.len() % 2 != 0 {
        return None;
    }
    let mut out: Vec<u8> = Vec::new();
    let mut i: usize = 0;
    while i < digits.len()
        invariant
            i <= digits@.len(),
            i % 2 == 0,
            digits@.len() % 2 == 0,
            digits@ == encode_utf8(s@),
            out@.len() == i / 2,
            forall|j: int| 0 <= j < i ==> hex_value(#[trigger] digits@[j]) is Some,
            forall|j: int| 0 <= j < i / 2 ==> #[trigger] out@[j] == hex_decoded(digits@)[j],
        decreases digits@.len() - i,
    {
        let hi: u8 = match hex_value_of(digits[i]) {
            Some(v) => v,
            None => {
                return None;
            },
        };
        let lo: u8 = match hex_value_of(digits[i + 1]) {
            Some(v) => v,
            None => {
                return None;
            },
        };
        out.push(hi * 16 + lo);
        i = i + 2;
    }
    assert(out@ =~= hex_decoded(digits@));
    Some(out)
}

/// Decoding hexadecimal text gives back the bytes that were encoded.
pub proof fn lemma_hex_round_trip(data: Seq<u8>)
    ensures
        is_hex(hex_bytes(data)),
        hex_decoded(hex_bytes(data)) == data,
        encode_utf8(ascii_chars(hex_bytes(data))) == hex_bytes(data),
{
    let digits = hex_bytes(data);
    assert forall|i: int| 0 <= i < digits.len() implies hex_value(#[trigger] digits[i]) is Some && digits[i] < 128 by {}
    assert forall|i: int| 0 <= i < data.len() implies #[trigger] hex_decoded(digits)[i] == data[i] by {
        assert((2 * i) / 2 == i);
        assert((2 * i + 1) / 2 == i);
        assert(data[i] == data[i] / 16 * 16 + data[i] % 16);
    }
    assert(hex_decoded(digits) =~= data);
    let chars = ascii_chars(digits);
    assert(is_ascii_chars(chars));
    is_ascii_chars_encode_utf8(chars);
    assert(encode_utf8(chars) =~= digits);
}

// ---- Calendar ---------------------------------------------------------------

/// The number of days in four hundred years.
pub const DAYS_PER_CYCLE: i64 = 146097;

/// The day number of 1970-01-01 when 0000-01-01 is day zero.
pub const EPOCH_DAY: i64 = 719528;

/// Whether year `y` of the Gregorian calendar is a leap year.
pub open spec fn is_leap(y: int) -> bool {
    y % 4 == 0 && (y % 100 != 0 || y % 400 == 0)
}

pub open spec fn year_len(y: int) -> int {
    if is_leap(y) {
        366
    } else {
        365
    }
}

pub open spec fn month_len(y: int, m: int) -> int {
    if m == 2 {
        if is_leap(y) {
            29
        } else {
            28
        }
    } else if m == 4 || m == 6 || m == 9 || m == 11 {
        30
    } else {
        31
    }
}

/// The days from 0000-01-01 to the first day of year `y`.
pub open spec fn days_before_year(y: int) -> int {
    365 * y + (y + 3) / 4 - (y + 99) / 100 + (y + 399) / 400
}

/// The days from the first of January to the first day of month `m`.
pub open spec fn days_before_month(y: int, m: int) -> int
    decreases m,
{
    if m <= 1 {
        0
    } else {
        days_before_month(y, m - 1) + month_len(y, m - 1)
    }
}

pub open spec fn is_date(y: int, m: int, d: int) -> bool {
    1 <= m <= 12 && 1 <= d <= month_len(y, m)
}

/// The days from 1970-01-01 to a date.
pub open spec fn day_number(y: int, m: int, d: int) -> int {
    days_before_year(y) + days_before_month(y, m) + d - 1 - EPOCH_DAY
}

/// A year ends where the next begins.
pub proof fn lemma_year_step(y: int)
    ensures
        days_before_year(y + 1) == days_before_year(y) + year_len(y),
{
    assert((y + 4) / 4 - (y + 3) / 4 == if y % 4 == 0 { 1int } else { 0int });
    assert((y + 100) / 100 - (y + 99) / 100 == if y % 100 == 0 { 1int } else { 0int });
    assert((y + 400) / 400 - (y + 399) / 400 == if y % 400 == 0 { 1int } else { 0int });
    if y % 100 == 0 {
        assert(y % 4 == 0);
    }
    if y % 400 == 0 {
        assert(y % 100 == 0);
    }
}

proof fn lemma_cycle(q: int, k: int)
    ensures
        days_before_year(400 * q + k) == DAYS_PER_CYCLE * q + days_before_year(k),
{
    assert((400 * q + k + 3) / 4 == 100 * q + (k + 3) / 4);
    assert((400 * q + k + 99) / 100 == 4 * q + (k + 99) / 100);
    assert((400 * q + k + 399) / 400 == q + (k + 399) / 400);
}

proof fn lemma_cycle_leap(q: int, k: int)
    ensures
        is_leap(400 * q + k) == is_leap(k),
{
    assert((400 * q + k) % 4 == k % 4);
    assert((400 * q + k) % 100 == k % 100);
    assert((400 * q + k) % 400 == k % 400);
}

fn leap(y: i64) -> (r: bool)
    requires
        0 <= y <= 400,
    ensures
        r == is_leap(y as int),
{
    y % 4 == 0 && (y % 100 != 0 || y % 400 == 0)
}

fn days_in(y: i64) -> (r: i64)
    requires
        0 <= y <= 400,
    ensures
        r == year_len(y as int),
{
    if leap(y) {
        366
    } else {
        365
    }
}

/// The date `days` days after 1970-01-01.
pub fn ymd_from_days(days: i32) -> (r: (i64, i64, i64))
    ensures
        is_date(r.0 as int, r.1 as int, r.2 as int),
        day_number(r.0 as int, r.1 as int, r.2 as int) == days,
        -6_000_000 <= r.0 <= 6_000_000,
{
    let n: i64 = days as i64 + EPOCH_DAY;
    // A multiple of the cycle that makes the dividend positive.
    let shift: i64 = 16000;
    let base: i64 = n + shift * DAYS_PER_CYCLE;
    let cycle: i64 = base / DAYS_PER_CYCLE - shift;
    let mut rest: i64 = base % DAYS_PER_CYCLE;
    let mut y: i64 = 0;
    let ghost whole = rest;
    assert(n == DAYS_PER_CYCLE * cycle + rest);
    while y < 400 && rest >= days_in(y)
        invariant
            0 <= y <= 400,
            0 <= rest <= whole < DAYS_PER_CYCLE,
            whole == days_before_year(y as int) + rest,
        decreases 400 - y,
    {
        proof {
            lemma_year_step(y as int);
        }
        rest = rest - days_in(y);
        y = y + 1;
    }
    proof {
        assert(days_before_year(400) == DAYS_PER_CYCLE);
        assert(y < 400);
    }
    let is_long: bool = leap(y);
    let ghost left = rest;
    let mut m: i64 = 1;
    let mut len: i64 = 31;
    while m < 12 && rest >= len
        invariant
            1 <= m <= 12,
            0 <= y < 400,
            is_long == is_leap(y as int),
            len == month_len(y as int, m as int),
            0 <= rest <= left < year_len(y as int),
            left == days_before_month(y as int, m as int) + rest,
        decreases 12 - m,
    {
        rest = rest - len;
        m = m + 1;
        len = if m == 2 {
            if is_long {
                29
            } else {
                28
            }
        } else if m == 4 || m == 6 || m == 9 || m == 11 {
            30
        } else {
            31
        };
    }
    proof {
        reveal_with_fuel(days_before_month, 13);
        assert(rest < len);
        lemma_cycle(cycle as int, y as int);
        lemma_cycle_leap(cycle as int, y as int);
        lemma_month_same(400 * cycle + y, y as int, m as int);
    }
    (400 * cycle + y, m, rest + 1)
}

proof fn lemma_month_same(a: int, b: int, m: int)
    requires
        is_leap(a) == is_leap(b),
    ensures
        days_before_month(a, m) == days_before_month(b, m),
        month_len(a, m) == month_len(b, m),
    decreases m,
{
    if m > 1 {
        lemma_month_same(a, b, m - 1);
    }
}

proof fn lemma_years_rise(a: int, b: int)
    requires
        a <= b,
    ensures
        days_before_year(a) <= days_before_year(b),
    decreases b - a,
{
    if a < b {
        lemma_years_rise(a, b - 1);
        lemma_year_step(b - 1);
    }
}

proof fn lemma_months_rise(y: int, a: int, b: int)
    requires
        1 <= a < b,
    ensures
        days_before_month(y, a) + month_len(y, a) <= days_before_month(y, b),
    decreases b - a,
{
    if a < b - 1 {
        lemma_months_rise(y, a, b - 1);
    }
}

proof fn lemma_within_year(y: int, m: int, d: int)
    requires
        is_date(y, m, d),
    ensures
        0 <= days_before_month(y, m) + d - 1 < year_len(y),
{
    reveal_with_fuel(days_before_month, 13);
}

/// A day has one date.
pub proof fn lemma_one_date(y: int, m: int, d: int, y2: int, m2: int, d2: int)
    requires
        is_date(y, m, d),
        is_date(y2, m2, d2),
        day_number(y, m, d) == day_number(y2, m2, d2),
    ensures
        y == y2,
        m == m2,
        d == d2,
{
    lemma_within_year(y, m, d);
    lemma_within_year(y2, m2, d2);
    lemma_year_step(y);
    lemma_year_step(y2);
    if y < y2 {
        lemma_years_rise(y + 1, y2);
    }
    if y2 < y {
        lemma_years_rise(y2 + 1, y);
    }
    if m < m2 {
        lemma_months_rise(y, m, m2);
    }
    if m2 < m {
        lemma_months_rise(y, m2, m);
    }
}

/// The text of the date that is `days` days after 1970-01-01.
pub open spec fn day_text(days: int) -> Seq<char> {
    let (y, m, d) = choose|y: int, m: int, d: int| #[trigger] dates(days, y, m, d);
    date_text(y, m, d)
}

/// A date is that of a day.
pub open spec fn dates(days: int, y: int, m: int, d: int) -> bool {
    is_date(y, m, d) && day_number(y, m, d) == days
}

/// The text of a day is that of its date.
pub proof fn lemma_day_text(y: int, m: int, d: int)
    requires
        is_date(y, m, d),
    ensures
        day_text(day_number(y, m, d)) == date_text(y, m, d),
{
    let days = day_number(y, m, d);
    assert(dates(days, y, m, d));
    let (a, b, c) = choose|a: int, b: int, c: int| #[trigger] dates(days, a, b, c);
    lemma_one_date(a, b, c, y, m, d);
}

/// `days` days after 1970-01-01 as year, month and day of the month.
pub open spec fn date_text(y: int, m: int, d: int) -> Seq<char> {
    padded(y, 4) + "-"@ + padded(m, 2) + "-"@ + padded(d, 2)
}

/// The date `days` days after 1970-01-01.
pub fn format_date(days: i32) -> (r: String)
    ensures
        r@ == day_text(days as int),
        exists|y: int, m: int, d: int|
            is_date(y, m, d) && day_number(y, m, d) == days && r@ == #[trigger] date_text(y, m, d),
{
    let (y, m, d) = ymd_from_days(days);
    let r = padded_text(y, 4).concat("-").concat(padded_text(m, 2).as_str()).concat("-").concat(padded_text(d, 2).as_str());
    assert(r@ == date_text(y as int, m as int, d as int));
    proof {
        lemma_day_text(y as int, m as int, d as int);
    }
    r
}

/// Whole seconds as hours, minutes and seconds, and the microseconds where
/// there are any. The parts of a negative number of seconds are the quotients
/// and remainders that truncate toward zero.
pub open spec fn time_text(micros: int) -> Seq<char> {
    let s = micros / 1_000_000;
    let frac = micros % 1_000_000;
    let head = padded(truncated_quotient(s, 3600), 2) + ":"@ + padded(
        truncated_remainder(truncated_quotient(s, 60), 60),
        2,
    ) + ":"@ + padded(truncated_remainder(s, 60), 2);
    if frac == 0 {
        head
    } else {
        head + "."@ + padded(frac, 6)
    }
}

pub open spec fn truncated_quotient(n: int, d: int) -> int {
    if n >= 0 {
        n / d
    } else {
        -((-n) / d)
    }
}

pub open spec fn truncated_remainder(n: int, d: int) -> int {
    n - d * truncated_quotient(n, d)
}

fn quotient(n: i64, d: i64) -> (r: i64)
    requires
        0 < d,
        n > i64::MIN,
    ensures
        r == truncated_quotient(n as int, d as int),
        -n <= r <= n || n <= r <= -n,
{
    if n >= 0 {
        proof {
            assert(0 <= n / d <= n) by (nonlinear_arith)
                requires
                    n >= 0,
                    d > 0,
            ;
        }
        n / d
    } else {
        proof {
            let k = -n;
            assert(0 <= k / (d as int) <= k) by (nonlinear_arith)
                requires
                    k >= 0,
                    d > 0,
            ;
        }
        -((-n) / d)
    }
}

/// The time of day of `micros` microseconds.
pub fn format_time(micros: i64) -> (r: String)
    ensures
        r@ == time_text(micros as int),
{
    // Division that rounds toward minus infinity, in a wider type.
    let wide: i128 = micros as i128 + 10_000_000_000_000 * 1_000_000;
    let s: i64 = (wide / 1_000_000 - 10_000_000_000_000) as i64;
    let frac: i64 = (wide % 1_000_000) as i64;
    assert(s == micros as int / 1_000_000);
    assert(frac == micros as int % 1_000_000);
    let h: i64 = quotient(s, 3600);
    let whole_minutes: i64 = quotient(s, 60);
    let m: i64 = whole_minutes - 60 * quotient(whole_minutes, 60);
    let sec: i64 = s - 60 * whole_minutes;
    let head = padded_text(h, 2).concat(":").concat(padded_text(m, 2).as_str()).concat(":").concat(
        padded_text(sec, 2).as_str(),
    );
    if frac == 0 {
        head
    } else {
        head.concat(".").concat(padded_text(frac, 6).as_str())
    }
}

/// The microseconds of a day.
pub const DAY_MICROS: i64 = 86_400_000_000;

/// The date and time of day `micros` microseconds after 1970-01-01.
pub fn format_timestamp(micros: i64) -> (r: String)
    ensures
        r@ == day_text(micros as int / DAY_MICROS as int) + " "@ + time_text(micros as int % DAY_MICROS as int) + "Z"@,
        exists|y: int, m: int, d: int|
            is_date(y, m, d) && day_number(y, m, d) == micros as int / DAY_MICROS as int && r@ == #[trigger] date_text(y, m, d)
                + " "@ + time_text(micros as int % DAY_MICROS as int) + "Z"@,
{
    let wide: i128 = micros as i128 + 200_000_000 * DAY_MICROS as i128;
    let days: i32 = (wide / DAY_MICROS as i128 - 200_000_000) as i32;
    let tod: i64 = (wide % DAY_MICROS as i128) as i64;
    assert(days == micros as int / DAY_MICROS as int);
    assert(tod == micros as int % DAY_MICROS as int);
    let (y, m, d) = ymd_from_days(days);
    let date = padded_text(y, 4).concat("-").concat(padded_text(m, 2).as_str()).concat("-").concat(padded_text(d, 2).as_str());
    assert(date@ == date_text(y as int, m as int, d as int));
    proof {
        lemma_day_text(y as int, m as int, d as int);
    }
    date.concat(" ").concat(format_time(tod).as_str()).concat("Z")
}

} // verus!
