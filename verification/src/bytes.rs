//! Byte strings: fixed-width integers, lexicographic order and UTF-8.

use vstd::prelude::*;
use vstd::utf8::*;

verus! {

/// The number of values that `width` bytes can hold.
pub open spec fn radix(width: nat) -> nat
    decreases width,
{
    if width == 0 {
        1
    } else {
        256 * radix((width - 1) as nat)
    }
}

/// The `width` low bytes of `n`, least significant first.
pub open spec fn le(n: nat, width: nat) -> Seq<u8>
    decreases width,
{
    if width == 0 {
        Seq::empty()
    } else {
        seq![(n % 256) as u8] + le(n / 256, (width - 1) as nat)
    }
}

/// The number that `s` writes, least significant byte first.
pub open spec fn le_value(s: Seq<u8>) -> nat
    decreases s.len(),
{
    if s.len() == 0 {
        0
    } else {
        s[0] as nat + 256 * le_value(s.subrange(1, s.len() as int))
    }
}

/// The `width` low bytes of `n`, most significant first.
pub open spec fn be(n: nat, width: nat) -> Seq<u8>
    decreases width,
{
    if width == 0 {
        Seq::empty()
    } else {
        be(n / 256, (width - 1) as nat).push((n % 256) as u8)
    }
}

/// The number that `s` writes, most significant byte first.
pub open spec fn be_value(s: Seq<u8>) -> nat
    decreases s.len(),
{
    if s.len() == 0 {
        0
    } else {
        256 * be_value(s.drop_last()) + s.last() as nat
    }
}

pub proof fn lemma_radix_small()
    ensures
        radix(1) == 0x100,
        radix(2) == 0x1_0000,
        radix(4) == 0x1_0000_0000,
        radix(8) == 0x1_0000_0000_0000_0000,
{
    reveal_with_fuel(radix, 9);
}

pub proof fn lemma_radix_monotone(a: nat, b: nat)
    requires
        a <= b,
    ensures
        1 <= radix(a) <= radix(b),
    decreases b,
{
    if a < b {
        lemma_radix_monotone(a, (b - 1) as nat);
    } else if a > 0 {
        lemma_radix_monotone((a - 1) as nat, (b - 1) as nat);
    }
}

pub broadcast proof fn lemma_le_len(n: nat, width: nat)
    ensures
        #[trigger] le(n, width).len() == width,
    decreases width,
{
    if width > 0 {
        lemma_le_len(n / 256, (width - 1) as nat);
    }
}

pub broadcast proof fn lemma_be_len(n: nat, width: nat)
    ensures
        #[trigger] be(n, width).len() == width,
    decreases width,
{
    if width > 0 {
        lemma_be_len(n / 256, (width - 1) as nat);
    }
}

/// Reading a little-endian number gives back what was written.
pub proof fn lemma_le_round_trip(n: nat, width: nat)
    requires
        n < radix(width),
    ensures
        le_value(le(n, width)) == n,
    decreases width,
{
    if width > 0 {
        let rest = le(n / 256, (width - 1) as nat);
        lemma_le_len(n / 256, (width - 1) as nat);
        lemma_le_round_trip(n / 256, (width - 1) as nat);
        assert(le(n, width).subrange(1, width as int) =~= rest);
    }
}

/// Reading a big-endian number gives back what was written.
pub proof fn lemma_be_round_trip(n: nat, width: nat)
    requires
        n < radix(width),
    ensures
        be_value(be(n, width)) == n,
    decreases width,
{
    if width > 0 {
        let head = be(n / 256, (width - 1) as nat);
        lemma_be_round_trip(n / 256, (width - 1) as nat);
        assert(be(n, width).drop_last() =~= head);
    }
}

pub proof fn lemma_le_value_bound(s: Seq<u8>)
    ensures
        le_value(s) < radix(s.len()),
    decreases s.len(),
{
    if s.len() > 0 {
        lemma_le_value_bound(s.subrange(1, s.len() as int));
    }
}

pub proof fn lemma_be_value_bound(s: Seq<u8>)
    ensures
        be_value(s) < radix(s.len()),
    decreases s.len(),
{
    if s.len() > 0 {
        lemma_be_value_bound(s.drop_last());
    }
}

/// Writing the number that a byte string holds gives back the byte string.
pub proof fn lemma_le_of_value(s: Seq<u8>)
    ensures
        le(le_value(s), s.len()) == s,
    decreases s.len(),
{
    if s.len() > 0 {
        let rest = s.subrange(1, s.len() as int);
        lemma_le_of_value(rest);
        let n = le_value(s);
        assert(n / 256 == le_value(rest));
        assert(n % 256 == s[0] as nat);
        assert(le(n, s.len()) =~= s);
    }
}

/// The same for the other byte order.
pub proof fn lemma_be_of_value(s: Seq<u8>)
    ensures
        be(be_value(s), s.len()) == s,
    decreases s.len(),
{
    if s.len() > 0 {
        lemma_be_of_value(s.drop_last());
        let n = be_value(s);
        assert(n / 256 == be_value(s.drop_last()));
        assert(n % 256 == s.last() as nat);
        assert(be(n, s.len()) =~= s);
    } else {
        assert(be(be_value(s), s.len()) =~= s);
    }
}

/// Append `value` as `width` little-endian bytes.
pub fn push_le(buf: &mut Vec<u8>, value: u64, width: usize)
    requires
        width <= 8,
    ensures
        final(buf)@ == old(buf)@ + le(value as nat, width as nat),
{
    let mut rest: u64 = value;
    let mut i: usize = 0;
    assert(buf@ + le(rest as nat, width as nat) =~= old(buf)@ + le(value as nat, width as nat));
    while i < width
        invariant
            i <= width,
            buf@ + le(rest as nat, (width - i) as nat) == old(buf)@ + le(value as nat, width as nat),
        decreases width - i,
    {
        let ghost before = buf@;
        let low: u8 = (rest % 256) as u8;
        buf.push(low);
        assert(le(rest as nat, (width - i) as nat) == seq![low] + le((rest / 256) as nat, (width - i - 1) as nat));
        assert(before + le(rest as nat, (width - i) as nat) =~= before.push(low) + le(
            (rest / 256) as nat,
            (width - i - 1) as nat,
        ));
        rest = rest / 256;
        i = i + 1;
    }
    assert(buf@ + le(rest as nat, 0) =~= buf@);
}

/// The little-endian number in the `width` bytes at `pos`, if they are there.
pub fn read_le(buf: &[u8], pos: usize, width: usize) -> (r: Option<u64>)
    requires
        width <= 8,
    ensures
        r is Some <==> pos + width <= buf@.len(),
        r matches Some(v) ==> v == le_value(buf@.subrange(pos as int, pos + width)),
        r matches Some(v) ==> v < radix(width as nat),
{
    if pos > buf.len() || buf.len() - pos < width {
        return None;
    }
    let total: usize = buf.len();
    let mut acc: u64 = 0;
    let mut i: usize = 0;
    let ghost end = pos + width;
    while i < width
        invariant
            i <= width <= 8,
            end == pos + width,
            end <= total == buf@.len(),
            acc == le_value(buf@.subrange(end - i, end)),
            acc < radix(i as nat),
        decreases width - i,
    {
        let byte: u8 = buf[pos + (width - 1 - i)];
        proof {
            let s = buf@.subrange(end - i - 1, end);
            assert(s.subrange(1, s.len() as int) =~= buf@.subrange(end - i, end));
            assert(s[0] == byte);
            lemma_radix_monotone((i + 1) as nat, 8);
            lemma_radix_small();
            assert(radix((i + 1) as nat) == 256 * radix(i as nat));
        }
        acc = acc * 256 + byte as u64;
        i = i + 1;
    }
    assert(buf@.subrange(end - width, end) =~= buf@.subrange(pos as int, pos + width));
    Some(acc)
}

/// Append `value` as `width` big-endian bytes.
pub fn push_be(buf: &mut Vec<u8>, value: u64, width: usize)
    requires
        width <= 8,
    ensures
        final(buf)@ == old(buf)@ + be(value as nat, width as nat),
{
    let mut tmp: Vec<u8> = Vec::new();
    let mut rest: u64 = value;
    let mut i: usize = 0;
    assert(be(rest as nat, width as nat) + tmp@.reverse() =~= be(value as nat, width as nat));
    while i < width
        invariant
            i <= width,
            tmp@.len() == i,
            be(rest as nat, (width - i) as nat) + tmp@.reverse() == be(value as nat, width as nat),
        decreases width - i,
    {
        let low: u8 = (rest % 256) as u8;
        let ghost before = tmp@;
        tmp.push(low);
        proof {
            let head = be((rest / 256) as nat, (width - i - 1) as nat);
            assert(be(rest as nat, (width - i) as nat) == head.push(low));
            assert(before.push(low).reverse() =~= seq![low] + before.reverse());
            assert(head.push(low) + before.reverse() =~= head + before.push(low).reverse());
        }
        rest = rest / 256;
        i = i + 1;
    }
    assert(be(rest as nat, 0) + tmp@.reverse() =~= tmp@.reverse());
    let mut j: usize = width;
    while j > 0
        invariant
            j <= width,
            tmp@.len() == width,
            buf@ == old(buf)@ + tmp@.reverse().subrange(0, width - j),
        decreases j,
    {
        j = j - 1;
        buf.push(tmp[j]);
        assert(tmp@.reverse().subrange(0, width - j) =~= tmp@.reverse().subrange(0, width - j - 1).push(
            tmp@[j as int],
        ));
    }
    assert(tmp@.reverse().subrange(0, width as int) =~= tmp@.reverse());
}

/// The big-endian number in the `width` bytes at `pos`, if they are there.
pub fn read_be(buf: &[u8], pos: usize, width: usize) -> (r: Option<u64>)
    requires
        width <= 8,
    ensures
        r is Some <==> pos + width <= buf@.len(),
        r matches Some(v) ==> v == be_value(buf@.subrange(pos as int, pos + width)),
        r matches Some(v) ==> v < radix(width as nat),
{
    if pos > buf.len() || buf.len() - pos < width {
        return None;
    }
    let total: usize = buf.len();
    let mut acc: u64 = 0;
    let mut i: usize = 0;
    while i < width
        invariant
            i <= width <= 8,
            pos + width <= total == buf@.len(),
            acc == be_value(buf@.subrange(pos as int, pos + i)),
            acc < radix(i as nat),
        decreases width - i,
    {
        let byte: u8 = buf[pos + i];
        proof {
            let s = buf@.subrange(pos as int, pos + i + 1);
            assert(s.drop_last() =~= buf@.subrange(pos as int, pos + i));
            assert(s.last() == byte);
            lemma_radix_monotone((i + 1) as nat, 8);
            lemma_radix_small();
            assert(radix((i + 1) as nat) == 256 * radix(i as nat));
        }
        acc = acc * 256 + byte as u64;
        i = i + 1;
    }
    Some(acc)
}

/// Append all bytes of `tail`.
pub fn push_all(buf: &mut Vec<u8>, tail: &[u8])
    ensures
        final(buf)@ == old(buf)@ + tail@,
{
    let mut i: usize = 0;
    while i < tail.len()
        invariant
            i <= tail@.len(),
            buf@ == old(buf)@ + tail@.subrange(0, i as int),
        decreases tail@.len() - i,
    {
        buf.push(tail[i]);
        assert(tail@.subrange(0, i + 1) =~= tail@.subrange(0, i as int).push(tail@[i as int]));
        i = i + 1;
    }
    assert(tail@.subrange(0, tail@.len() as int) =~= tail@);
}

/// A copy of `data`.
pub fn copy_of(data: &[u8]) -> (r: Vec<u8>)
    ensures
        r@ == data@,
{
    let mut out: Vec<u8> = Vec::new();
    push_all(&mut out, data);
    assert(out@ =~= data@);
    out
}

/// A copy of the bytes of `data` from `start` up to `end`.
pub fn copy_range(data: &[u8], start: usize, end: usize) -> (r: Vec<u8>)
    requires
        start <= end <= data@.len(),
    ensures
        r@ == data@.subrange(start as int, end as int),
{
    let mut out: Vec<u8> = Vec::new();
    let mut i: usize = start;
    while i < end
        invariant
            start <= i <= end <= data@.len(),
            out@ == data@.subrange(start as int, i as int),
        decreases end - i,
    {
        out.push(data[i]);
        assert(data@.subrange(start as int, i + 1) =~= data@.subrange(start as int, i as int).push(data@[i as int]));
        i = i + 1;
    }
    out
}

// ---- Lexicographic order ----------------------------------------------------

/// `a` and `b` agree before `k`, and there `a` ends or holds the smaller byte.
pub open spec fn lex_lt_at(a: Seq<u8>, b: Seq<u8>, k: int) -> bool {
    &&& 0 <= k <= a.len()
    &&& k < b.len()
    &&& forall|i: int| 0 <= i < k ==> a[i] == b[i]
    &&& k == a.len() || a[k] < b[k]
}

/// `a` stands before `b` in byte order.
pub open spec fn lex_lt(a: Seq<u8>, b: Seq<u8>) -> bool {
    exists|k: int| lex_lt_at(a, b, k)
}

pub open spec fn lex_le(a: Seq<u8>, b: Seq<u8>) -> bool {
    a == b || lex_lt(a, b)
}

/// How one byte string stands to another.
#[derive(Clone, Copy, PartialEq, Eq, Structural, Debug)]
pub enum Place {
    Before,
    Same,
    After,
}

pub open spec fn place_of(a: Seq<u8>, b: Seq<u8>) -> Place {
    if a == b {
        Place::Same
    } else if lex_lt(a, b) {
        Place::Before
    } else {
        Place::After
    }
}

pub proof fn lemma_lex_irreflexive(a: Seq<u8>)
    ensures
        !lex_lt(a, a),
{
}

pub proof fn lemma_lex_transitive(a: Seq<u8>, b: Seq<u8>, c: Seq<u8>)
    requires
        lex_lt(a, b),
        lex_lt(b, c),
    ensures
        lex_lt(a, c),
{
    let j: int = choose|k: int| lex_lt_at(a, b, k);
    let k: int = choose|k: int| lex_lt_at(b, c, k);
    let m: int = if j <= k { j } else { k };
    assert(lex_lt_at(a, c, m));
}

proof fn lemma_lex_total_from(a: Seq<u8>, b: Seq<u8>, k: int)
    requires
        0 <= k <= a.len(),
        k <= b.len(),
        forall|i: int| 0 <= i < k ==> a[i] == b[i],
    ensures
        a == b || lex_lt(a, b) || lex_lt(b, a),
    decreases a.len() - k,
{
    if k == a.len() {
        if k == b.len() {
            assert(a =~= b);
        } else {
            assert(lex_lt_at(a, b, k));
        }
    } else if k == b.len() {
        assert(lex_lt_at(b, a, k));
    } else if a[k] < b[k] {
        assert(lex_lt_at(a, b, k));
    } else if b[k] < a[k] {
        assert(lex_lt_at(b, a, k));
    } else {
        lemma_lex_total_from(a, b, k + 1);
    }
}

/// Of two byte strings exactly one stands before the other, or they are equal.
pub proof fn lemma_lex_trichotomy(a: Seq<u8>, b: Seq<u8>)
    ensures
        a == b || lex_lt(a, b) || lex_lt(b, a),
        !(lex_lt(a, b) && lex_lt(b, a)),
        a == b ==> !lex_lt(a, b),
{
    lemma_lex_total_from(a, b, 0);
    if lex_lt(a, b) && lex_lt(b, a) {
        lemma_lex_transitive(a, b, a);
        lemma_lex_irreflexive(a);
    }
}

/// Compare two byte strings.
pub fn place(a: &[u8], b: &[u8]) -> (r: Place)
    ensures
        r == place_of(a@, b@),
        r == Place::After <==> lex_lt(b@, a@),
{
    proof {
        lemma_lex_trichotomy(a@, b@);
    }
    let mut k: usize = 0;
    while k < a.len() && k < b.len()
        invariant
            k <= a@.len(),
            k <= b@.len(),
            forall|i: int| 0 <= i < k ==> a@[i] == b@[i],
            a@ == b@ || lex_lt(a@, b@) || lex_lt(b@, a@),
            !(lex_lt(a@, b@) && lex_lt(b@, a@)),
            a@ == b@ ==> !lex_lt(a@, b@),
        decreases a@.len() - k,
    {
        if a[k] < b[k] {
            assert(lex_lt_at(a@, b@, k as int));
            return Place::Before;
        }
        if b[k] < a[k] {
            assert(lex_lt_at(b@, a@, k as int));
            return Place::After;
        }
        k = k + 1;
    }
    if a.len() == b.len() {
        assert(a@ =~= b@);
        Place::Same
    } else if k == a.len() {
        assert(lex_lt_at(a@, b@, k as int));
        Place::Before
    } else {
        assert(lex_lt_at(b@, a@, k as int));
        Place::After
    }
}

/// Whether two byte strings are equal.
pub fn same_bytes(a: &[u8], b: &[u8]) -> (r: bool)
    ensures
        r == (a@ == b@),
{
    match place(a, b) {
        Place::Same => true,
        _ => false,
    }
}

/// Whether `data` begins with `prefix`.
pub fn starts_with(data: &[u8], prefix: &[u8]) -> (r: bool)
    ensures
        r == prefix@.is_prefix_of(data@),
{
    if data.len() < prefix.len() {
        return false;
    }
    let mut k: usize = 0;
    while k < prefix.len()
        invariant
            k <= prefix@.len() <= data@.len(),
            forall|i: int| 0 <= i < k ==> prefix@[i] == data@[i],
        decreases prefix@.len() - k,
    {
        if data[k] != prefix[k] {
            assert(data@.subrange(0, prefix@.len() as int)[k as int] != prefix@[k as int]);
            return false;
        }
        k = k + 1;
    }
    assert(prefix@ =~= data@.subrange(0, prefix@.len() as int));
    true
}

/// A prefix never stands after what it begins.
pub proof fn lemma_prefix_le(p: Seq<u8>, s: Seq<u8>)
    requires
        p.is_prefix_of(s),
    ensures
        lex_le(p, s),
{
    if p.len() == s.len() {
        assert(p =~= s);
    } else {
        assert(lex_lt_at(p, s, p.len() as int));
    }
}

/// Byte strings with one prefix stand together: whatever lies between two of
/// them has it too.
pub proof fn lemma_prefix_convex(p: Seq<u8>, a: Seq<u8>, b: Seq<u8>, c: Seq<u8>)
    requires
        p.is_prefix_of(a),
        p.is_prefix_of(c),
        lex_le(a, b),
        lex_le(b, c),
    ensures
        p.is_prefix_of(b),
{
    if a != b && b != c {
        let j: int = choose|k: int| lex_lt_at(a, b, k);
        let k: int = choose|k: int| lex_lt_at(b, c, k);
        assert(forall|i: int| 0 <= i < p.len() ==> a.subrange(0, p.len() as int)[i] == a[i]);
        assert(forall|i: int| 0 <= i < p.len() ==> c.subrange(0, p.len() as int)[i] == c[i]);
        if j < p.len() {
            assert(a[j] == p[j] && c[j] == p[j]);
            if k < j {
                assert(a[k] == p[k] && c[k] == p[k]);
            }
            assert(false);
        }
        assert forall|i: int| 0 <= i < p.len() implies i < b.len() && b[i] == p[i] by {
            assert(a.subrange(0, p.len() as int)[i] == p[i]);
        }
        assert(p.len() <= b.len()) by {
            if p.len() > 0 {
                assert(p.len() - 1 < b.len());
            }
        }
        assert(p =~= b.subrange(0, p.len() as int));
    }
}

/// A shared prefix does not change how two byte strings stand.
pub proof fn lemma_lex_cancel_prefix(p: Seq<u8>, a: Seq<u8>, b: Seq<u8>)
    ensures
        lex_lt(p + a, p + b) <==> lex_lt(a, b),
{
    if lex_lt(a, b) {
        let k: int = choose|k: int| lex_lt_at(a, b, k);
        assert(lex_lt_at(p + a, p + b, k + p.len()));
    }
    if lex_lt(p + a, p + b) {
        let k: int = choose|k: int| lex_lt_at(p + a, p + b, k);
        if k < p.len() {
            assert((p + a)[k] == (p + b)[k]);
        }
        let j: int = k - p.len();
        assert forall|i: int| 0 <= i < j implies a[i] == b[i] by {
            assert((p + a)[i + p.len()] == (p + b)[i + p.len()]);
        }
        if j < a.len() {
            assert((p + a)[k] == a[j]);
            assert((p + b)[k] == b[j]);
        }
        assert(lex_lt_at(a, b, j));
    }
}

// ---- UTF-8 ------------------------------------------------------------------

/// Calls `String::from_utf8`. The bytes become a string exactly when they are
/// valid UTF-8, and the string is then the text that they encode.
#[verifier::external_body]
fn utf8_text(bytes: Vec<u8>) -> (r: Option<String>)
    ensures
        r is Some <==> valid_utf8(bytes@),
        r matches Some(s) ==> s@ == decode_utf8(bytes@),
{
    String::from_utf8(bytes).ok()
}

/// The text that `bytes` encode, if they are valid UTF-8.
pub fn text_from_utf8(bytes: &[u8]) -> (r: Option<String>)
    ensures
        r is Some <==> valid_utf8(bytes@),
        r matches Some(s) ==> s@ == decode_utf8(bytes@) && encode_utf8(s@) == bytes@,
{
    let copy = copy_of(bytes);
    let out = utf8_text(copy);
    proof {
        if valid_utf8(bytes@) {
            decode_utf8_encode_utf8(bytes@);
        }
    }
    out
}

/// Texts are equal exactly when their encodings are.
pub broadcast proof fn lemma_utf8_injective(a: Seq<char>, b: Seq<char>)
    ensures
        #[trigger] encode_utf8(a) == #[trigger] encode_utf8(b) ==> a == b,
{
    encode_utf8_decode_utf8(a);
    encode_utf8_decode_utf8(b);
}

/// Only the empty text has no bytes.
pub proof fn lemma_empty_text(s: Seq<char>)
    ensures
        encode_utf8(s).len() == 0 <==> s.len() == 0,
{
    let e = Seq::<char>::empty();
    assert(encode_utf8(e) =~= Seq::<u8>::empty());
    if encode_utf8(s).len() == 0 {
        assert(encode_utf8(s) =~= encode_utf8(e));
        lemma_utf8_injective(s, e);
    }
    if s.len() == 0 {
        assert(s =~= e);
    }
}

/// The byte length of `s`.
pub fn byte_len(s: &str) -> (r: usize)
    ensures
        r == encode_utf8(s@).len(),
{
    s.as_bytes().len()
}

/// Whether two texts are equal.
pub fn same_text(a: &str, b: &str) -> (r: bool)
    ensures
        r == (a@ == b@),
{
    let r = same_bytes(a.as_bytes(), b.as_bytes());
    proof {
        lemma_utf8_injective(a@, b@);
    }
    r
}

} // verus!
