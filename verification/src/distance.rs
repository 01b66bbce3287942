//! Integer distance kernels over quantized vectors.
//!
//! Several independent lane accumulators let the compiler emit wide arithmetic;
//! the integer result does not depend on the order of the additions.

use vstd::prelude::*;

verus! {

pub const INT_LANES: usize = 16;

/// An `i32` lane accumulating the products of this many elements cannot
/// overflow before it is folded into an `i64`.
pub const INT_BLOCK: usize = 8192;

/// The largest product of two components.
pub const MAX_PRODUCT: i64 = 16384;

/// The sum of the products of the components from `lo` up to `hi`.
pub open spec fn dot_range(a: Seq<i8>, b: Seq<i8>, lo: int, hi: int) -> int
    decreases hi - lo,
{
    if hi <= lo {
        0
    } else {
        dot_range(a, b, lo, hi - 1) + a[hi - 1] * b[hi - 1]
    }
}

/// The exact dot product over the common prefix.
pub open spec fn dot(a: Seq<i8>, b: Seq<i8>) -> int {
    dot_range(a, b, 0, common_len(a.len(), b.len()) as int)
}

pub open spec fn common_len(a: nat, b: nat) -> nat {
    if a <= b {
        a
    } else {
        b
    }
}

/// The signed component that a byte holds.
pub open spec fn signed(byte: u8) -> int {
    if byte < 128 {
        byte as int
    } else {
        byte - 256
    }
}

spec fn lane_sum(acc: Seq<i32>) -> int
    decreases acc.len(),
{
    if acc.len() == 0 {
        0
    } else {
        lane_sum(acc.drop_last()) + acc.last()
    }
}

proof fn lemma_lane_update(acc: Seq<i32>, l: int, v: i32)
    requires
        0 <= l < acc.len(),
    ensures
        lane_sum(acc.update(l, v)) == lane_sum(acc) - acc[l] + v,
    decreases acc.len(),
{
    let t = acc.update(l, v);
    if l == acc.len() - 1 {
        assert(t.drop_last() =~= acc.drop_last());
    } else {
        lemma_lane_update(acc.drop_last(), l, v);
        assert(t.drop_last() =~= acc.drop_last().update(l, v));
    }
}

proof fn lemma_lane_zero(acc: Seq<i32>)
    requires
        forall|i: int| 0 <= i < acc.len() ==> acc[i] == 0,
    ensures
        lane_sum(acc) == 0,
    decreases acc.len(),
{
    if acc.len() > 0 {
        lemma_lane_zero(acc.drop_last());
    }
}

proof fn lemma_product_bound(x: i8, y: i8)
    ensures
        -MAX_PRODUCT <= x * y <= MAX_PRODUCT,
{
    assert(-16384 <= x * y <= 16384) by (nonlinear_arith)
        requires
            -128 <= x <= 127,
            -128 <= y <= 127,
    ;
}

proof fn lemma_range_bound(a: Seq<i8>, b: Seq<i8>, lo: int, hi: int)
    requires
        0 <= lo <= hi <= a.len(),
        hi <= b.len(),
    ensures
        -MAX_PRODUCT * (hi - lo) <= dot_range(a, b, lo, hi) <= MAX_PRODUCT * (hi - lo),
    decreases hi - lo,
{
    if lo < hi {
        lemma_range_bound(a, b, lo, hi - 1);
        lemma_product_bound(a[hi - 1], b[hi - 1]);
    }
}

proof fn lemma_range_join(a: Seq<i8>, b: Seq<i8>, lo: int, mid: int, hi: int)
    requires
        lo <= mid <= hi,
    ensures
        dot_range(a, b, lo, hi) == dot_range(a, b, lo, mid) + dot_range(a, b, mid, hi),
    decreases hi - mid,
{
    if mid < hi {
        lemma_range_join(a, b, lo, mid, hi - 1);
    }
}

/// The length of the common prefix of two slices.
pub fn common<T, U>(a: &[T], b: &[U]) -> (r: usize)
    ensures
        r == common_len(a@.len(), b@.len()),
{
    if a.len() <= b.len() {
        a.len()
    } else {
        b.len()
    }
}

/// The bytes as signed quantized components.
pub fn bytes_as_i8(bytes: &[u8]) -> (r: Vec<i8>)
    ensures
        r@.len() == bytes@.len(),
        forall|i: int| 0 <= i < r@.len() ==> #[trigger] r@[i] == signed(bytes@[i]),
{
    let mut out: Vec<i8> = Vec::new();
    let mut i: usize = 0;
    while i < bytes.len()
        invariant
            i <= bytes@.len(),
            out@.len() == i,
            forall|j: int| 0 <= j < i ==> #[trigger] out@[j] == signed(bytes@[j]),
        decreases bytes@.len() - i,
    {
        let byte: u8 = bytes[i];
        let wide: i16 = if byte < 128 {
            byte as i16
        } else {
            byte as i16 - 256
        };
        out.push(wide as i8);
        i = i + 1;
    }
    out
}

/// The dot product of one block, accumulated in lanes.
fn dot_block(a: &[i8], b: &[i8], lo: usize, hi: usize) -> (r: i64)
    requires
        lo <= hi <= a@.len(),
        hi <= b@.len(),
        hi - lo <= INT_BLOCK,
    ensures
        r == dot_range(a@, b@, lo as int, hi as int),
{
    let mut acc: [i32; 16] = [0; 16];
    let mut pos: usize = lo;
    proof {
        lemma_lane_zero(acc@);
    }
    while hi - pos >= INT_LANES
        invariant
            lo <= pos <= hi <= a@.len(),
            hi <= b@.len(),
            hi - lo <= INT_BLOCK,
            acc@.len() == INT_LANES,
            lane_sum(acc@) == dot_range(a@, b@, lo as int, pos as int),
            forall|l: int| 0 <= l < INT_LANES ==> -MAX_PRODUCT * (pos - lo) <= #[trigger] acc@[l] <= MAX_PRODUCT * (pos - lo),
        decreases hi - pos,
    {
        let mut lane: usize = 0;
        while lane < INT_LANES
            invariant
                lane <= INT_LANES,
                lo <= pos,
                pos + INT_LANES <= hi <= a@.len(),
                hi <= b@.len(),
                hi - lo <= INT_BLOCK,
                acc@.len() == INT_LANES,
                lane_sum(acc@) == dot_range(a@, b@, lo as int, pos + lane),
                forall|l: int| 0 <= l < INT_LANES ==> -MAX_PRODUCT * (pos + lane - lo) <= #[trigger] acc@[l] <= MAX_PRODUCT * (pos
                    + lane - lo),
            decreases INT_LANES - lane,
        {
            let x: i8 = a[pos + lane];
            let y: i8 = b[pos + lane];
            proof {
                lemma_product_bound(x, y);
            }
            let product: i32 = x as i32 * y as i32;
            let next: i32 = acc[lane] + product;
            proof {
                lemma_lane_update(acc@, lane as int, next);
            }
            acc[lane] = next;
            lane = lane + 1;
        }
        pos = pos + INT_LANES;
    }
    let mut tail: i64 = 0;
    let ghost fold_at = pos;
    while pos < hi
        invariant
            lo <= fold_at <= pos <= hi <= a@.len(),
            hi <= b@.len(),
            hi - lo <= INT_BLOCK,
            tail == dot_range(a@, b@, fold_at as int, pos as int),
        decreases hi - pos,
    {
        let x: i8 = a[pos];
        let y: i8 = b[pos];
        proof {
            lemma_product_bound(x, y);
            lemma_range_bound(a@, b@, fold_at as int, pos as int);
        }
        let product: i64 = x as i64 * y as i64;
        tail = tail + product;
        pos = pos + 1;
    }
    let mut sum: i64 = 0;
    let mut lane: usize = 0;
    while lane < INT_LANES
        invariant
            lane <= INT_LANES,
            acc@.len() == INT_LANES,
            sum == lane_sum(acc@.subrange(0, lane as int)),
            -0x8000_0000 * lane <= sum <= 0x8000_0000 * lane,
        decreases INT_LANES - lane,
    {
        proof {
            let s = acc@.subrange(0, lane + 1);
            assert(s.drop_last() =~= acc@.subrange(0, lane as int));
            assert(s.last() == acc@[lane as int]);
        }
        sum = sum + acc[lane] as i64;
        lane = lane + 1;
    }
    proof {
        assert(acc@.subrange(0, INT_LANES as int) =~= acc@);
        lemma_range_join(a@, b@, lo as int, fold_at as int, hi as int);
        lemma_range_bound(a@, b@, fold_at as int, hi as int);
    }
    sum + tail
}

/// Exact integer dot product over the common prefix of two quantized vectors.
pub fn dot_i8(a: &[i8], b: &[i8]) -> (r: i64)
    requires
        common_len(a@.len(), b@.len()) * MAX_PRODUCT <= i64::MAX,
    ensures
        r == dot(a@, b@),
{
    let len: usize = common(a, b);
    let mut total: i64 = 0;
    let mut pos: usize = 0;
    while pos < len
        invariant
            pos <= len == common_len(a@.len(), b@.len()),
            len * MAX_PRODUCT <= i64::MAX,
            total == dot_range(a@, b@, 0, pos as int),
        decreases len - pos,
    {
        let end: usize = if len - pos > INT_BLOCK {
            pos + INT_BLOCK
        } else {
            len
        };
        let part: i64 = dot_block(a, b, pos, end);
        proof {
            lemma_range_join(a@, b@, 0, pos as int, end as int);
            lemma_range_bound(a@, b@, 0, end as int);
        }
        total = total + part;
        pos = end;
    }
    total
}

/// The dot product does not depend on the order of the two vectors.
pub proof fn lemma_dot_symmetric(a: Seq<i8>, b: Seq<i8>)
    ensures
        dot(a, b) == dot(b, a),
{
    lemma_range_symmetric(a, b, 0, common_len(a.len(), b.len()) as int);
}

proof fn lemma_range_symmetric(a: Seq<i8>, b: Seq<i8>, lo: int, hi: int)
    ensures
        dot_range(a, b, lo, hi) == dot_range(b, a, lo, hi),
    decreases hi - lo,
{
    if lo < hi {
        lemma_range_symmetric(a, b, lo, hi - 1);
        let x = a[hi - 1];
        let y = b[hi - 1];
        assert(x * y == y * x) by (nonlinear_arith);
    }
}

} // verus!
