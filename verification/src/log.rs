//! The file of the write-ahead log: frames, one for each commit.
//!
//! A frame is the length of its body in eight bytes, the checksum of the body in
//! four, and the body. Numbers are little-endian. A crash can leave the last
//! frame torn: reading stops before the first frame that is not whole.

use crate::bytes::{self, push_all, push_le, read_le};
use crate::checksum::{self, checksum};
use vstd::prelude::*;

verus! {

/// What stands before the body of a frame.
pub const FRAME_HEAD: usize = 12;

/// A body in its frame.
pub open spec fn frame_bytes(body: Seq<u8>) -> Seq<u8> {
    bytes::le(body.len(), 8) + bytes::le(checksum::crc32(body) as nat, 4) + body
}

/// Put the body of a log record in its frame.
pub fn frame(body: &[u8]) -> (r: Vec<u8>)
    ensures
        r@ == frame_bytes(body@),
{
    let mut out: Vec<u8> = Vec::new();
    push_le(&mut out, body.len() as u64, 8);
    push_le(&mut out, checksum(body) as u64, 4);
    push_all(&mut out, body);
    assert(out@ =~= frame_bytes(body@));
    out
}

/// Where the body of the frame at `pos` ends, by its length.
pub open spec fn body_end(data: Seq<u8>, pos: int) -> int {
    pos + FRAME_HEAD + bytes::le_value(data.subrange(pos, pos + 8))
}

/// Whether a whole frame begins at `pos`.
pub open spec fn frame_at(data: Seq<u8>, pos: int) -> bool {
    &&& pos + FRAME_HEAD <= data.len()
    &&& body_end(data, pos) <= data.len()
    &&& bytes::le_value(data.subrange(pos + 8, pos + FRAME_HEAD)) == checksum::crc32(
        data.subrange(pos + FRAME_HEAD, body_end(data, pos)),
    )
}

/// The bodies of the frames from `pos` on, up to the first that is not whole,
/// and where they end.
pub open spec fn frames_from(data: Seq<u8>, pos: int) -> (Seq<Seq<u8>>, int)
    decreases data.len() - pos,
{
    if pos < 0 || !frame_at(data, pos) {
        (Seq::empty(), pos)
    } else {
        let rest = frames_from(data, body_end(data, pos));
        (seq![data.subrange(pos + FRAME_HEAD, body_end(data, pos))] + rest.0, rest.1)
    }
}

/// Where a body stands in the file.
pub struct BodyRange {
    pub start: usize,
    pub end: usize,
}

/// What a scan of the file found.
pub struct LogScan {
    pub bodies: Vec<BodyRange>,
    /// The length of the whole frames.
    pub valid_len: usize,
    /// Nothing stands behind them.
    pub clean: bool,
}

pub open spec fn within(data: Seq<u8>, b: BodyRange) -> bool {
    b.start <= b.end <= data.len()
}

/// The bodies that a scan found.
pub open spec fn bodies_in(data: Seq<u8>, r: LogScan) -> Seq<Seq<u8>> {
    ranges_in(data, r.bodies@)
}

pub open spec fn ranges_in(data: Seq<u8>, s: Seq<BodyRange>) -> Seq<Seq<u8>> {
    Seq::new(s.len(), |i: int| data.subrange(s[i].start as int, s[i].end as int))
}

/// The body of the frame at `pos`, if the frame is whole.
fn read_frame(data: &[u8], pos: usize) -> (r: Option<BodyRange>)
    requires
        pos <= data@.len(),
    ensures
        r is Some <==> frame_at(data@, pos as int),
        r matches Some(b) ==> b.start == pos + FRAME_HEAD && b.end == body_end(data@, pos as int) && within(data@, b),
{
    let total: usize = data.len();
    if total - pos < FRAME_HEAD {
        return None;
    }
    let len: u64 = match read_le(data, pos, 8) {
        Some(n) => n,
        None => {
            return None;
        },
    };
    let stored: u64 = match read_le(data, pos + 8, 4) {
        Some(n) => n,
        None => {
            return None;
        },
    };
    let start: usize = pos + FRAME_HEAD;
    if len > (total - start) as u64 {
        return None;
    }
    let end: usize = start + len as usize;
    let body = bytes::copy_range(data, start, end);
    if checksum(body.as_slice()) as u64 != stored {
        return None;
    }
    Some(BodyRange { start, end })
}

/// Find the whole frames at the beginning of the file.
pub fn scan_log(data: &[u8]) -> (r: LogScan)
    ensures
        bodies_in(data@, r) == frames_from(data@, 0).0,
        r.valid_len == frames_from(data@, 0).1,
        r.clean == (r.valid_len == data@.len()),
        r.valid_len <= data@.len(),
        forall|i: int| 0 <= i < r.bodies@.len() ==> within(data@, #[trigger] r.bodies@[i]),
{
    let total: usize = data.len();
    let mut bodies: Vec<BodyRange> = Vec::new();
    let mut pos: usize = 0;
    let mut going: bool = true;
    let ghost whole = frames_from(data@, 0);
    assert(ranges_in(data@, bodies@) + whole.0 =~= whole.0);
    while going
        invariant
            total == data@.len(),
            pos <= total,
            whole == frames_from(data@, 0),
            forall|i: int| 0 <= i < bodies@.len() ==> within(data@, #[trigger] bodies@[i]),
            going ==> whole.0 == ranges_in(data@, bodies@) + frames_from(data@, pos as int).0 && whole.1 == frames_from(
                data@,
                pos as int,
            ).1,
            !going ==> whole.0 == ranges_in(data@, bodies@) && whole.1 == pos,
        decreases total - pos, (if going { 1int } else { 0int }),
    {
        match read_frame(data, pos) {
            Some(b) => {
                let next: usize = b.end;
                let ghost before = ranges_in(data@, bodies@);
                let ghost body = data@.subrange(b.start as int, b.end as int);
                bodies.push(b);
                proof {
                    assert(ranges_in(data@, bodies@) =~= before.push(body));
                    let rest = frames_from(data@, next as int);
                    assert(before + (seq![body] + rest.0) =~= before.push(body) + rest.0);
                }
                pos = next;
            },
            None => {
                assert(ranges_in(data@, bodies@) + Seq::<Seq<u8>>::empty() =~= ranges_in(data@, bodies@));
                going = false;
            },
        }
    }
    LogScan { bodies, valid_len: pos, clean: pos == total }
}

// ---- What a crash leaves ----------------------------------------------------

/// The frames of the bodies, one after another.
pub open spec fn log_bytes(bodies: Seq<Seq<u8>>) -> Seq<u8>
    decreases bodies.len(),
{
    if bodies.len() == 0 {
        Seq::empty()
    } else {
        log_bytes(bodies.drop_last()) + frame_bytes(bodies.last())
    }
}

/// A whole frame is read wherever it stands.
proof fn lemma_frame_read(prefix: Seq<u8>, body: Seq<u8>, rest: Seq<u8>)
    requires
        body.len() <= u64::MAX,
    ensures
        ({
            let data = prefix + frame_bytes(body) + rest;
            let at = prefix.len() as int;
            &&& frame_at(data, at)
            &&& body_end(data, at) == at + frame_bytes(body).len()
            &&& data.subrange(at + FRAME_HEAD, body_end(data, at)) == body
        }),
{
    let data = prefix + frame_bytes(body) + rest;
    let at = prefix.len() as int;
    let crc = checksum::crc32(body) as nat;
    bytes::lemma_radix_small();
    bytes::lemma_le_len(body.len(), 8);
    bytes::lemma_le_len(crc, 4);
    bytes::lemma_le_round_trip(body.len(), 8);
    bytes::lemma_le_round_trip(crc, 4);
    assert(data.subrange(at, at + 8) =~= bytes::le(body.len(), 8));
    assert(data.subrange(at + 8, at + 12) =~= bytes::le(crc, 4));
    assert(data.subrange(at + 12, at + 12 + body.len()) =~= body);
}

/// A frame that was cut short is not whole.
proof fn lemma_frame_torn(prefix: Seq<u8>, body: Seq<u8>, n: int)
    requires
        body.len() <= u64::MAX,
        0 <= n < frame_bytes(body).len(),
    ensures
        !frame_at(prefix + frame_bytes(body).subrange(0, n), prefix.len() as int),
{
    let whole = frame_bytes(body);
    let data = prefix + whole.subrange(0, n);
    let at = prefix.len() as int;
    bytes::lemma_radix_small();
    bytes::lemma_le_len(body.len(), 8);
    bytes::lemma_le_len(checksum::crc32(body) as nat, 4);
    bytes::lemma_le_round_trip(body.len(), 8);
    if n >= FRAME_HEAD {
        assert(data.subrange(at, at + 8) =~= bytes::le(body.len(), 8));
    }
}

proof fn lemma_log_prefix(bodies: Seq<Seq<u8>>, i: int, tail: Seq<u8>)
    requires
        0 <= i <= bodies.len(),
        forall|k: int| 0 <= k < bodies.len() ==> (#[trigger] bodies[k]).len() <= u64::MAX,
        !frame_at(log_bytes(bodies) + tail, log_bytes(bodies).len() as int),
    ensures
        ({
            let data = log_bytes(bodies) + tail;
            let at = log_bytes(bodies.subrange(0, i)).len() as int;
            frames_from(data, at) == (bodies.subrange(i, bodies.len() as int), log_bytes(bodies).len() as int)
        }),
    decreases bodies.len() - i,
{
    let n = bodies.len() as int;
    let data = log_bytes(bodies) + tail;
    let head = bodies.subrange(0, i);
    let at = log_bytes(head).len() as int;
    if i == n {
        assert(head =~= bodies);
        assert(bodies.subrange(i, n) =~= Seq::<Seq<u8>>::empty());
    } else {
        lemma_log_prefix(bodies, i + 1, tail);
        let more = bodies.subrange(0, i + 1);
        assert(more.drop_last() =~= head);
        assert(more.last() == bodies[i]);
        let rest = log_rest(bodies, i + 1) + tail;
        lemma_log_parts(bodies, i + 1);
        assert(data =~= log_bytes(head) + frame_bytes(bodies[i]) + rest);
        lemma_frame_read(log_bytes(head), bodies[i], rest);
        assert(seq![bodies[i]] + bodies.subrange(i + 1, n) =~= bodies.subrange(i, n));
    }
}

/// The frames from the `i`th on.
spec fn log_rest(bodies: Seq<Seq<u8>>, i: int) -> Seq<u8> {
    log_bytes(bodies).subrange(log_bytes(bodies.subrange(0, i)).len() as int, log_bytes(bodies).len() as int)
}

proof fn lemma_log_parts(bodies: Seq<Seq<u8>>, i: int)
    requires
        0 <= i <= bodies.len(),
    ensures
        log_bytes(bodies.subrange(0, i)).len() <= log_bytes(bodies).len(),
        log_bytes(bodies) == log_bytes(bodies.subrange(0, i)) + log_rest(bodies, i),
    decreases bodies.len(),
{
    let head = log_bytes(bodies.subrange(0, i));
    if i == bodies.len() {
        assert(bodies.subrange(0, i) =~= bodies);
        assert(log_bytes(bodies) =~= head + log_rest(bodies, i));
    } else {
        let t = bodies.drop_last();
        assert(t.subrange(0, i) =~= bodies.subrange(0, i));
        lemma_log_parts(t, i);
        assert(log_bytes(bodies) =~= head + log_rest(bodies, i));
    }
}

/// After a crash in the middle of a write the log has every record before it,
/// and nothing of the one that was written: a commit is there completely or not
/// at all.
pub proof fn lemma_torn_tail(bodies: Seq<Seq<u8>>, last: Seq<u8>, n: int)
    requires
        forall|k: int| 0 <= k < bodies.len() ==> (#[trigger] bodies[k]).len() <= u64::MAX,
        last.len() <= u64::MAX,
        0 <= n < frame_bytes(last).len(),
    ensures
        frames_from(log_bytes(bodies) + frame_bytes(last).subrange(0, n), 0) == (bodies, log_bytes(bodies).len() as int),
{
    let tail = frame_bytes(last).subrange(0, n);
    lemma_frame_torn(log_bytes(bodies), last, n);
    lemma_log_prefix(bodies, 0, tail);
    assert(bodies.subrange(0, 0) =~= Seq::<Seq<u8>>::empty());
    assert(bodies.subrange(0, bodies.len() as int) =~= bodies);
}

/// A record whose body was changed within one byte is not read, nor anything
/// behind it.
pub proof fn lemma_changed_record(bodies: Seq<Seq<u8>>, body: Seq<u8>, other: Seq<u8>, at: int, rest: Seq<u8>)
    requires
        forall|k: int| 0 <= k < bodies.len() ==> (#[trigger] bodies[k]).len() <= u64::MAX,
        body.len() <= u64::MAX,
        checksum::one_byte_apart(body, other, at),
    ensures
        frames_from(
            log_bytes(bodies) + (bytes::le(body.len(), 8) + bytes::le(checksum::crc32(body) as nat, 4) + other + rest),
            0,
        ) == (bodies, log_bytes(bodies).len() as int),
{
    let crc = checksum::crc32(body) as nat;
    let tail = bytes::le(body.len(), 8) + bytes::le(crc, 4) + other + rest;
    let data = log_bytes(bodies) + tail;
    let p = log_bytes(bodies).len() as int;
    bytes::lemma_radix_small();
    bytes::lemma_le_len(body.len(), 8);
    bytes::lemma_le_len(crc, 4);
    bytes::lemma_le_round_trip(body.len(), 8);
    bytes::lemma_le_round_trip(crc, 4);
    assert(data.subrange(p, p + 8) =~= bytes::le(body.len(), 8));
    assert(data.subrange(p + 8, p + 12) =~= bytes::le(crc, 4));
    assert(data.subrange(p + 12, p + 12 + body.len()) =~= other);
    checksum::lemma_changed_byte(body, other, at);
    lemma_log_prefix(bodies, 0, tail);
    assert(bodies.subrange(0, 0) =~= Seq::<Seq<u8>>::empty());
    assert(bodies.subrange(0, bodies.len() as int) =~= bodies);
}

/// What was framed is read back, in order, to the end of the file.
pub proof fn lemma_log_round_trip(bodies: Seq<Seq<u8>>)
    requires
        forall|k: int| 0 <= k < bodies.len() ==> (#[trigger] bodies[k]).len() <= u64::MAX,
    ensures
        frames_from(log_bytes(bodies), 0) == (bodies, log_bytes(bodies).len() as int),
{
    let none = Seq::<u8>::empty();
    assert(log_bytes(bodies) + none =~= log_bytes(bodies));
    lemma_log_prefix(bodies, 0, none);
    assert(bodies.subrange(0, 0) =~= Seq::<Seq<u8>>::empty());
    assert(bodies.subrange(0, bodies.len() as int) =~= bodies);
}

} // verus!
