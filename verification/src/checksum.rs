//! Checksums of byte strings.

use vstd::prelude::*;

verus! {

/// One bit of a division by the polynomial, low bits first.
pub open spec fn bit_step(c: u32) -> u32 {
    if c & 1 == 1 {
        (c >> 1) ^ 0xEDB8_8320
    } else {
        c >> 1
    }
}

/// `n` bits of it.
pub open spec fn bit_steps(c: u32, n: nat) -> u32
    decreases n,
{
    if n == 0 {
        c
    } else {
        bit_step(bit_steps(c, (n - 1) as nat))
    }
}

/// The remainder after the bytes, from all ones on.
pub open spec fn remainder(data: Seq<u8>) -> u32
    decreases data.len(),
{
    if data.len() == 0 {
        0xFFFF_FFFF
    } else {
        bit_steps(remainder(data.drop_last()) ^ (data.last() as u32), 8)
    }
}

/// The CRC-32 (IEEE) checksum of a byte string.
#[verifier::opaque]
pub open spec fn crc32(data: Seq<u8>) -> u32 {
    remainder(data) ^ 0xFFFF_FFFF
}

/// Calls `crc32fast::hash`, which computes the CRC-32 (IEEE) checksum: the
/// remainder of the bytes by the reflected polynomial `0xEDB88320`, begun and
/// ended with all bits flipped.
#[verifier::external_body]
fn crc32_of(data: &[u8]) -> (r: u32)
    ensures
        r == crc32(data@),
{
    crc32fast::hash(data)
}

/// The CRC-32 checksum of `data`.
pub fn checksum(data: &[u8]) -> (r: u32)
    ensures
        r == crc32(data@),
{
    crc32_of(data)
}

// ---- What the checksum finds ------------------------------------------------

proof fn lemma_bit_step(a: u32, b: u32)
    requires
        a != b,
    ensures
        bit_step(a) != bit_step(b),
{
    assert((if a & 1 == 1 { (a >> 1) ^ 0xEDB8_8320u32 } else { a >> 1 }) != (if b & 1 == 1 { (b >> 1) ^ 0xEDB8_8320u32 } else { b >> 1 })) by (bit_vector)
        requires
            a != b,
    ;
}

proof fn lemma_bit_steps(a: u32, b: u32, n: nat)
    requires
        a != b,
    ensures
        bit_steps(a, n) != bit_steps(b, n),
    decreases n,
{
    if n > 0 {
        lemma_bit_steps(a, b, (n - 1) as nat);
        lemma_bit_step(bit_steps(a, (n - 1) as nat), bit_steps(b, (n - 1) as nat));
    }
}

/// The two are equally long and differ in one byte alone.
pub open spec fn one_byte_apart(a: Seq<u8>, b: Seq<u8>, at: int) -> bool {
    &&& a.len() == b.len()
    &&& 0 <= at < a.len()
    &&& a[at] != b[at]
    &&& forall|i: int| 0 <= i < a.len() && i != at ==> #[trigger] a[i] == b[i]
}

proof fn lemma_remainders(a: Seq<u8>, b: Seq<u8>, at: int)
    requires
        one_byte_apart(a, b, at),
    ensures
        remainder(a) != remainder(b),
    decreases a.len(),
{
    let x = a.drop_last();
    let y = b.drop_last();
    let p = remainder(x);
    let q = remainder(y);
    let m = a.last() as u32;
    let n = b.last() as u32;
    if at == a.len() - 1 {
        assert(x =~= y);
        assert(p ^ m != p ^ n) by (bit_vector)
            requires
                m != n,
        ;
        lemma_bit_steps(p ^ m, q ^ n, 8);
    } else {
        assert(one_byte_apart(x, y, at)) by {
            assert forall|i: int| 0 <= i < x.len() && i != at implies #[trigger] x[i] == y[i] by {
                assert(a[i] == b[i]);
            }
        }
        lemma_remainders(x, y, at);
        assert(a[a.len() - 1] == b[a.len() - 1]);
        assert(p ^ m != q ^ m) by (bit_vector)
            requires
                p != q,
        ;
        lemma_bit_steps(p ^ m, q ^ n, 8);
    }
}

/// A change within one byte, of one bit or of more, changes the checksum.
pub proof fn lemma_changed_byte(a: Seq<u8>, b: Seq<u8>, at: int)
    requires
        one_byte_apart(a, b, at),
    ensures
        crc32(a) != crc32(b),
{
    reveal(crc32);
    lemma_remainders(a, b, at);
    let p = remainder(a);
    let q = remainder(b);
    assert(p ^ 0xFFFF_FFFFu32 != q ^ 0xFFFF_FFFFu32) by (bit_vector)
        requires
            p != q,
    ;
}

} // verus!
