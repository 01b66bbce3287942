//! Record ids that the store gives out.

use crate::bytes;
use crate::error::{invalid, Error, ErrorView};
use crate::text;
use vstd::prelude::*;
use vstd::utf8::*;

verus! {

/// The digit that a byte stands for: the ten decimal digits, then the letters
/// without I, L, O and U, in either case.
pub open spec fn digit_of(b: u8) -> Option<nat> {
    let c = if 97 <= b <= 122 {
        b - 32
    } else {
        b as int
    };
    if 48 <= c <= 57 {
        Some((c - 48) as nat)
    } else if 65 <= c <= 72 {
        Some((c - 55) as nat)
    } else if 74 <= c <= 75 {
        Some((c - 56) as nat)
    } else if 77 <= c <= 78 {
        Some((c - 57) as nat)
    } else if 80 <= c <= 84 {
        Some((c - 58) as nat)
    } else if 86 <= c <= 90 {
        Some((c - 59) as nat)
    } else {
        None
    }
}

/// The byte of a digit, with capital letters.
pub open spec fn digit_byte(d: nat) -> u8 {
    (if d < 10 {
        d + 48
    } else if d < 18 {
        d + 55
    } else if d < 20 {
        d + 56
    } else if d < 22 {
        d + 57
    } else if d < 27 {
        d + 58
    } else {
        d + 59
    }) as u8
}

/// The number that digits write, of which 128 bits are kept.
pub open spec fn digits_value(s: Seq<u8>) -> Option<nat>
    decreases s.len(),
{
    if s.len() == 0 {
        Some(0)
    } else {
        match (digits_value(s.drop_last()), digit_of(s.last())) {
            (Some(n), Some(d)) => Some((n as int * 32 % (u128::MAX + 1) + d) as nat),
            _ => None,
        }
    }
}

/// `n` in `width` digits.
pub open spec fn digits(n: nat, width: nat) -> Seq<u8>
    decreases width,
{
    if width == 0 {
        Seq::empty()
    } else {
        digits(n / 32, (width - 1) as nat).push(digit_byte(n % 32))
    }
}

/// The number that a text stands for as a ULID: it has 26 digits in base 32.
pub open spec fn ulid_value(text: Seq<char>) -> Option<u128> {
    let s = encode_utf8(text);
    if s.len() != 26 {
        None
    } else {
        match digits_value(s) {
            Some(n) => Some(n as u128),
            None => None,
        }
    }
}

/// The text of a ULID: the number in 26 digits.
pub open spec fn ulid_text(value: u128) -> Seq<char> {
    text::ascii_chars(digits(value as nat, 26))
}

/// How many numbers `width` digits write.
spec fn span(width: nat) -> nat
    decreases width,
{
    if width == 0 {
        1
    } else {
        32 * span((width - 1) as nat)
    }
}

proof fn lemma_digits(n: nat, width: nat)
    requires
        n < span(width),
        n <= u128::MAX,
    ensures
        digits(n, width).len() == width,
        forall|i: int| 0 <= i < width ==> #[trigger] digits(n, width)[i] < 128,
        digits_value(digits(n, width)) == Some(n),
    decreases width,
{
    if width > 0 {
        lemma_digits(n / 32, (width - 1) as nat);
        let s = digits(n, width);
        assert(s.drop_last() =~= digits(n / 32, (width - 1) as nat));
        let d = n % 32;
        assert(digit_of(digit_byte(d)) == Some(d));
        assert(n / 32 * 32 + d == n);
    }
}

/// The text of a ULID is read back as the number.
pub proof fn lemma_text_round_trip(value: u128)
    ensures
        ulid_text(value).len() == 26,
        ulid_value(ulid_text(value)) == Some(value),
{
    let s = digits(value as nat, 26);
    assert(span(26) > u128::MAX) by {
        reveal_with_fuel(span, 27);
    }
    lemma_digits(value as nat, 26);
    let chars = ulid_text(value);
    assert(is_ascii_chars(chars));
    is_ascii_chars_encode_utf8(chars);
    assert(encode_utf8(chars) =~= s);
}

/// `ulid::Ulid::from_string`: the number behind a text, where it is the text of
/// a ULID.
#[verifier::external_body]
fn parse_ulid(text: &str) -> (r: Option<u128>)
    ensures
        r == ulid_value(text@),
{
    match ulid::Ulid::from_string(text) {
        Ok(found) => Some(found.0),
        Err(_) => None,
    }
}

/// `ulid::Ulid::to_string`: the text of a ULID, in capital letters.
#[verifier::external_body]
fn format_ulid(value: u128) -> (r: String)
    ensures
        r@ == ulid_text(value),
{
    ulid::Ulid(value).to_string()
}

/// `ulid::Ulid::increment`: the next number, unless the 80 random bits are all
/// ones.
#[verifier::external_body]
fn increment_ulid(value: u128) -> (r: Option<u128>)
    ensures
        r == incremented(value),
{
    match ulid::Ulid(value).increment() {
        Some(next) => Some(next.0),
        None => None,
    }
}

/// `ulid::Ulid::new`: a number made of the time and of chance. Nothing is known
/// of it.
#[verifier::external_body]
fn fresh_ulid() -> (r: u128) {
    ulid::Ulid::new().0
}

/// The number of values of the random bits.
pub open spec fn random_span() -> int {
    0x1_0000_0000_0000_0000_0000
}

pub open spec fn incremented(value: u128) -> Option<u128> {
    if value as int % random_span() == random_span() - 1 {
        None
    } else {
        Some((value + 1) as u128)
    }
}

/// The number of the next id: the candidate, or the one after the previous where
/// the candidate is not above it.
pub open spec fn next_value(previous: u128, candidate: u128) -> Option<u128> {
    if candidate > previous {
        Some(candidate)
    } else {
        incremented(previous)
    }
}

proof fn lemma_incremented(value: u128)
    ensures
        incremented(value) matches Some(n) ==> n == value + 1,
{
    if value == u128::MAX {
        assert(0xffff_ffff_ffff_ffff_ffff_ffff_ffff_ffff_int % random_span() == random_span() - 1);
    }
}

/// The source of new ids.
pub struct IdSource {
    /// The greatest number that was given out or seen.
    pub previous: u128,
}

impl IdSource {
    pub fn new() -> (r: IdSource)
        ensures
            r.previous == 0,
    {
        IdSource { previous: 0 }
    }

    /// Give out an id, for a candidate number.
    pub fn take(&mut self, candidate: u128) -> (r: Result<String, Error>)
        ensures
            match next_value(old(self).previous, candidate) {
                Some(n) => r is Ok && r->Ok_0@ == ulid_text(n) && final(self).previous == n,
                None => r is Err && r->Err_0@ == ErrorView::InvalidArgument("cannot generate id: ULID overflow"@)
                    && final(self).previous == old(self).previous,
            },
            r matches Ok(id) ==> final(self).previous > old(self).previous && ulid_value(id@) == Some(final(self).previous)
                && id@.len() == 26,
    {
        proof {
            lemma_incremented(self.previous);
        }
        let next: u128 = if candidate > self.previous {
            candidate
        } else {
            match increment_ulid(self.previous) {
                Some(n) => n,
                None => {
                    return Err(invalid("cannot generate id: ULID overflow"));
                },
            }
        };
        self.previous = next;
        proof {
            lemma_text_round_trip(next);
        }
        Ok(format_ulid(next))
    }

    /// Give out a new id. It stands above every id that was given out or seen.
    pub fn generate(&mut self) -> (r: Result<String, Error>)
        ensures
            r matches Ok(id) ==> final(self).previous > old(self).previous && ulid_value(id@) == Some(final(self).previous)
                && id@ == ulid_text(final(self).previous),
            r matches Err(e) ==> final(self).previous == old(self).previous && incremented(old(self).previous) is None && e@
                == ErrorView::InvalidArgument("cannot generate id: ULID overflow"@),
    {
        let candidate: u128 = fresh_ulid();
        self.take(candidate)
    }

    /// Take notice of an id that a caller chose.
    pub fn observe(&mut self, id: &str)
        ensures
            final(self).previous == noticed(old(self).previous, id@),
    {
        match parse_ulid(id) {
            Some(n) => {
                if n > self.previous {
                    self.previous = n;
                }
            },
            None => {},
        }
    }
}

/// The greatest number after an id was seen.
pub open spec fn noticed(previous: u128, id: Seq<char>) -> u128 {
    match ulid_value(id) {
        Some(n) => if n > previous {
            n
        } else {
            previous
        },
        None => previous,
    }
}

/// An id that is given out differs from every id that was seen before.
pub proof fn lemma_generated_is_new(previous: u128, seen: Seq<char>, later: u128, id: Seq<char>)
    requires
        noticed(previous, seen) < later,
        ulid_value(id) == Some(later),
    ensures
        id != seen,
{
}

proof fn lemma_digits_order(a: nat, b: nat, width: nat)
    requires
        a < b < span(width),
        b <= u128::MAX,
    ensures
        bytes::lex_lt(digits(a, width), digits(b, width)),
    decreases width,
{
    if width > 0 {
        let w = (width - 1) as nat;
        lemma_digits(a, width);
        lemma_digits(b, width);
        lemma_digits(a / 32, w);
        lemma_digits(b / 32, w);
        let (x, y) = (digits(a, width), digits(b, width));
        if a / 32 == b / 32 {
            assert(digit_byte(a % 32) < digit_byte(b % 32));
            assert(bytes::lex_lt_at(x, y, w as int));
        } else {
            lemma_digits_order(a / 32, b / 32, w);
            let (p, q) = (digits(a / 32, w), digits(b / 32, w));
            let k = choose|k: int| bytes::lex_lt_at(p, q, k);
            assert(bytes::lex_lt_at(x, y, k));
        }
    }
}

/// The texts of ULIDs stand in the order of their numbers, so that ids stand in
/// the order in which they were given out.
pub proof fn lemma_texts_in_order(a: u128, b: u128)
    requires
        a < b,
    ensures
        bytes::lex_lt(encode_utf8(ulid_text(a)), encode_utf8(ulid_text(b))),
{
    assert(span(26) > u128::MAX) by {
        reveal_with_fuel(span, 27);
    }
    lemma_digits(a as nat, 26);
    lemma_digits(b as nat, 26);
    lemma_digits_order(a as nat, b as nat, 26);
    let (x, y) = (ulid_text(a), ulid_text(b));
    assert(is_ascii_chars(x) && is_ascii_chars(y));
    is_ascii_chars_encode_utf8(x);
    is_ascii_chars_encode_utf8(y);
    assert(encode_utf8(x) =~= digits(a as nat, 26));
    assert(encode_utf8(y) =~= digits(b as nat, 26));
}

} // verus!
