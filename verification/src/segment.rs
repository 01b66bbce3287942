//! Segment files: immutable lists of record versions.
//!
//! An entry is a kind byte, the version in eight bytes, the table and the id
//! behind two-byte lengths, the payload behind a four-byte length, and the
//! checksum of all that. Numbers are little-endian.

use crate::bytes;
use crate::checksum;
use crate::error::{corrupt, Error, ErrorView};
use crate::model;
use crate::record::{self, decode_record, Blobs, Record, RecordView};
use crate::text::{self, decimal_text};
use crate::value;
use crate::version::{KindView, VKind, VersionEntry};
use std::sync::Arc;
use vstd::prelude::*;
use vstd::string::*;
use vstd::utf8::*;

verus! {

pub const KIND_PUT: u8 = 1;

pub const KIND_TOMBSTONE: u8 = 2;

/// A segment that is open for reading.
#[derive(Debug)]
pub struct Segment {
    pub id: u32,
    pub image: Arc<Vec<u8>>,
}

#[verifier::ext_equal]
pub struct SegmentView {
    pub id: u32,
    pub image: Seq<u8>,
}

impl View for Segment {
    type V = SegmentView;

    open spec fn view(&self) -> SegmentView {
        SegmentView { id: self.id, image: self.image@ }
    }
}

/// The segment of an id, the last one if there are several.
pub open spec fn image_of(segments: Seq<SegmentView>, id: u32) -> Option<Seq<u8>>
    decreases segments.len(),
{
    if segments.len() == 0 {
        None
    } else if segments.last().id == id {
        Some(segments.last().image)
    } else {
        image_of(segments.drop_last(), id)
    }
}

pub fn find_segment(segments: &Vec<Segment>, id: u32) -> (r: Option<&Segment>)
    ensures
        r matches Some(s) ==> image_of(model::views(segments@), id) == Some(s.image@),
        r is None ==> image_of(model::views(segments@), id) is None,
{
    let ghost all = model::views(segments@);
    let mut i: usize = segments.len();
    assert(all.subrange(0, all.len() as int) =~= all);
    while i > 0
        invariant
            i <= segments@.len(),
            all == model::views(segments@),
            image_of(all, id) == image_of(all.subrange(0, i as int), id),
        decreases i,
    {
        proof {
            let t = all.subrange(0, i as int);
            assert(t.drop_last() =~= all.subrange(0, i - 1));
            assert(t.last() == segments@[i - 1]@);
        }
        if segments[i - 1].id == id {
            return Some(&segments[i - 1]);
        }
        i = i - 1;
    }
    None
}

// ---- Payloads ---------------------------------------------------------------

pub open spec fn missing_segment(id: u32) -> ErrorView {
    ErrorView::Corrupt("missing segment "@ + text::decimal(id as nat))
}

/// The payload that a version stands for; a tombstone has none.
pub open spec fn payload_of(segments: Seq<SegmentView>, kind: KindView) -> Result<Option<Seq<u8>>, ErrorView> {
    match kind {
        KindView::MemPut(p) => Ok(Some(p)),
        KindView::SegPut { segment, payload_offset, payload_len } => match image_of(segments, segment) {
            None => Err(missing_segment(segment)),
            Some(image) => if payload_offset + payload_len > image.len() {
                Err(ErrorView::Io("failed to fill whole buffer"@))
            } else {
                Ok(Some(image.subrange(payload_offset as int, payload_offset + payload_len)))
            },
        },
        _ => Ok(None),
    }
}

/// The record that a version stands for.
pub open spec fn record_of(segments: Seq<SegmentView>, blobs: Map<Seq<u8>, Seq<u8>>, kind: KindView) -> Result<RecordView, ErrorView> {
    match payload_of(segments, kind) {
        Err(e) => Err(e),
        Ok(None) => Err(ErrorView::Corrupt("attempted to read a tombstone"@)),
        Ok(Some(p)) => record::decoded(p, blobs),
    }
}

/// Read the payload that a version stands for.
pub fn payload_bytes(segments: &Vec<Segment>, kind: &VKind) -> (r: Result<Option<Vec<u8>>, Error>)
    ensures
        match payload_of(model::views(segments@), kind@) {
            Ok(None) => r is Ok && r->Ok_0 is None,
            Ok(Some(p)) => r matches Ok(Some(v)) && v@ == p,
            Err(e) => r is Err && r->Err_0@ == e,
        },
{
    match kind {
        VKind::MemPut(p) => Ok(Some(bytes::copy_of(p.as_slice()))),
        VKind::SegPut { segment, payload_offset, payload_len } => {
            match find_segment(segments, *segment) {
                None => {
                    let n = decimal_text(*segment as u64);
                    Err(Error::Corrupt("missing segment ".to_owned().concat(n.as_str())))
                },
                Some(found) => {
                    let size: u64 = found.image.len() as u64;
                    let want: u64 = *payload_len as u64;
                    if want > size || *payload_offset > size - want {
                        Err(Error::Io("failed to fill whole buffer".to_owned()))
                    } else {
                        let start: usize = *payload_offset as usize;
                        Ok(Some(bytes::copy_range(found.image.as_slice(), start, start + *payload_len as usize)))
                    }
                },
            }
        },
        VKind::MemTombstone => Ok(None),
        VKind::SegTombstone => Ok(None),
    }
}

/// Read the record that a version stands for.
pub fn read_record_kind(blobs: &Blobs, segments: &Vec<Segment>, kind: &VKind) -> (r: Result<Record, Error>)
    requires
        blobs.wf(),
    ensures
        match record_of(model::views(segments@), blobs@, kind@) {
            Ok(rec) => r is Ok && r->Ok_0.wf() && r->Ok_0@ == rec,
            Err(e) => r is Err && r->Err_0@ == e,
        },
{
    match payload_bytes(segments, kind) {
        Err(e) => Err(e),
        Ok(None) => Err(corrupt("attempted to read a tombstone")),
        Ok(Some(p)) => decode_record(p.as_slice(), blobs),
    }
}

// ---- Sizes ------------------------------------------------------------------

pub open spec fn payload_size(kind: KindView) -> int {
    match kind {
        KindView::MemPut(p) => p.len() as int,
        KindView::SegPut { payload_len, .. } => payload_len as int,
        _ => 0,
    }
}

/// The bytes of an entry in a segment.
pub open spec fn entry_size(table: Seq<u8>, id: Seq<u8>, payload: int) -> int {
    1 + 8 + 2 + table.len() + 2 + id.len() + 4 + payload + 4
}

pub open spec fn capped64(n: int) -> int {
    if n > u64::MAX {
        u64::MAX as int
    } else {
        n
    }
}

/// The bytes that a version occupies in its segment; one that is in no segment
/// occupies none.
pub fn segment_entry_bytes(table: &str, id: &str, entry: &VersionEntry) -> (r: u64)
    ensures
        r == (if entry@.kind.is_resident() {
            0
        } else {
            capped64(entry_size(encode_utf8(table@), encode_utf8(id@), payload_size(entry@.kind)))
        }),
{
    match &entry.kind {
        VKind::MemPut(_) => 0,
        VKind::MemTombstone => 0,
        _ => obsolete_entry_bytes_estimate(table, id, entry),
    }
}

/// The bytes that a superseded version occupies, or will after the next
/// checkpoint.
pub fn obsolete_entry_bytes_estimate(table: &str, id: &str, entry: &VersionEntry) -> (r: u64)
    ensures
        r == capped64(entry_size(encode_utf8(table@), encode_utf8(id@), payload_size(entry@.kind))),
{
    let payload: u64 = match &entry.kind {
        VKind::MemPut(p) => p.len() as u64,
        VKind::SegPut { payload_len, .. } => *payload_len as u64,
        _ => 0,
    };
    payload.saturating_add(bytes::byte_len(table) as u64).saturating_add(bytes::byte_len(id) as u64).saturating_add(
        1 + 8 + 2 + 2 + 4 + 4,
    )
}

// ---- Entries ----------------------------------------------------------------

/// One entry of a segment; `payload` is where it stands in the file.
#[verifier::ext_equal]
pub struct EntryView {
    pub tombstone: bool,
    pub version: u64,
    pub table: Seq<u8>,
    pub id: Seq<u8>,
    pub payload_offset: int,
    pub payload: Seq<u8>,
}

pub struct SegEntry {
    pub tombstone: bool,
    pub version: u64,
    pub table: Vec<u8>,
    pub id: Vec<u8>,
    pub payload_offset: usize,
    pub payload_len: usize,
}

/// What an entry holds, in the data it was read from.
pub open spec fn entry_in(data: Seq<u8>, e: SegEntry) -> EntryView {
    EntryView {
        tombstone: e.tombstone,
        version: e.version,
        table: e.table@,
        id: e.id@,
        payload_offset: e.payload_offset as int,
        payload: data.subrange(e.payload_offset as int, e.payload_offset + e.payload_len),
    }
}

/// The payload stands in the data, and the lengths are those of stored fields.
pub open spec fn within(data: Seq<u8>, e: SegEntry) -> bool {
    &&& e.payload_offset + e.payload_len <= data.len()
    &&& e.payload_len <= u32::MAX
    &&& e.table@.len() <= u16::MAX
}

/// The entry without its checksum.
pub open spec fn entry_head(tombstone: bool, version: u64, table: Seq<u8>, id: Seq<u8>, payload: Seq<u8>) -> Seq<u8> {
    seq![
        if tombstone {
            KIND_TOMBSTONE
        } else {
            KIND_PUT
        },
    ] + bytes::le(version as nat, 8) + bytes::le(table.len(), 2) + table + bytes::le(id.len(), 2) + id + bytes::le(payload.len(), 4)
        + payload
}

/// The bytes of an entry.
pub open spec fn segment_entry(tombstone: bool, version: u64, table: Seq<u8>, id: Seq<u8>, payload: Seq<u8>) -> Seq<u8> {
    let head = entry_head(tombstone, version, table, id, payload);
    head + bytes::le(checksum::crc32(head) as nat, 4)
}

pub open spec fn truncated() -> Seq<char> {
    "truncated segment entry"@
}

/// The number in `width` bytes from `at` on.
pub open spec fn number_at(data: Seq<u8>, at: int, width: int) -> nat {
    bytes::le_value(data.subrange(at, at + width))
}

/// The entry that begins at `pos`, and where its checksum begins; or what is
/// wrong with it.
pub open spec fn entry_at(data: Seq<u8>, pos: int, segment: u32) -> Result<(EntryView, int), Seq<char>> {
    let end = value::end_message();
    if pos + 1 > data.len() {
        Err(end)
    } else if data[pos] != KIND_PUT && data[pos] != KIND_TOMBSTONE {
        Err("segment "@ + text::decimal(segment as nat) + ": unknown entry kind "@ + text::decimal(data[pos] as nat))
    } else if pos + 9 > data.len() {
        Err(end)
    } else if pos + 11 > data.len() {
        Err(end)
    } else {
        let t0 = pos + 11;
        let t1 = t0 + number_at(data, pos + 9, 2);
        if t1 > data.len() {
            Err(truncated())
        } else if t1 + 2 > data.len() {
            Err(end)
        } else {
            let i0 = t1 + 2;
            let i1 = i0 + number_at(data, t1, 2);
            if i1 > data.len() {
                Err(truncated())
            } else if i1 + 4 > data.len() {
                Err(end)
            } else {
                let p0 = i1 + 4;
                let p1 = p0 + number_at(data, i1, 4);
                if data[pos] == KIND_TOMBSTONE && p1 != p0 {
                    Err("tombstone with payload"@)
                } else if p1 > data.len() {
                    Err(truncated())
                } else {
                    Ok(
                        (
                            EntryView {
                                tombstone: data[pos] == KIND_TOMBSTONE,
                                version: number_at(data, pos + 1, 8) as u64,
                                table: data.subrange(t0, t1),
                                id: data.subrange(i0, i1),
                                payload_offset: p0,
                                payload: data.subrange(p0, p1),
                            },
                            p1,
                        ),
                    )
                }
            }
        }
    }
}

/// The bytes from `pos` on, as many as `len`, and where they end.
pub fn take_segment_slice(data: &[u8], pos: usize, len: usize) -> (r: Result<usize, Error>)
    requires
        pos <= data@.len(),
    ensures
        r is Ok <==> pos + len <= data@.len(),
        r matches Ok(end) ==> end == pos + len,
        r matches Err(e) ==> e@ == ErrorView::Corrupt(truncated()),
{
    if len > data.len() - pos {
        Err(corrupt("truncated segment entry"))
    } else {
        Ok(pos + len)
    }
}

fn number(data: &[u8], pos: usize, width: usize) -> (r: Result<u64, Error>)
    requires
        pos <= data@.len(),
        width <= 8,
    ensures
        r is Ok <==> pos + width <= data@.len(),
        r matches Ok(n) ==> n == number_at(data@, pos as int, width as int),
        r matches Err(e) ==> e@ == ErrorView::Corrupt(value::end_message()),
{
    if width > data.len() - pos {
        return Err(corrupt("unexpected end of record"));
    }
    match bytes::read_le(data, pos, width) {
        Some(n) => Ok(n),
        None => {
            assert(false);
            Err(corrupt("unexpected end of record"))
        },
    }
}

/// Read the entry that begins at `pos`; the second part is where its checksum
/// begins.
pub fn read_entry(data: &[u8], pos: usize, segment: u32) -> (r: Result<(SegEntry, usize), Error>)
    requires
        pos <= data@.len(),
    ensures
        match entry_at(data@, pos as int, segment) {
            Ok((e, end)) => r is Ok && entry_in(data@, r->Ok_0.0) == e && r->Ok_0.1 == end && end <= data@.len()
                && r->Ok_0.0.payload_offset + r->Ok_0.0.payload_len == end && end > pos && within(data@, r->Ok_0.0),
            Err(m) => r is Err && r->Err_0@ == ErrorView::Corrupt(m),
        },
{
    proof {
        bytes::lemma_radix_small();
    }
    let total: usize = data.len();
    if pos >= total {
        return Err(corrupt("unexpected end of record"));
    }
    let kind: u8 = data[pos];
    if kind != KIND_PUT && kind != KIND_TOMBSTONE {
        let a = decimal_text(segment as u64);
        let b = decimal_text(kind as u64);
        return Err(
            Error::Corrupt(
                "segment ".to_owned().concat(a.as_str()).concat(": unknown entry kind ").concat(b.as_str()),
            ),
        );
    }
    let version: u64 = match number(data, pos + 1, 8) {
        Ok(n) => n,
        Err(e) => {
            return Err(e);
        },
    };
    let table_len: u64 = match number(data, pos + 9, 2) {
        Ok(n) => n,
        Err(e) => {
            return Err(e);
        },
    };
    proof {
        bytes::lemma_le_value_bound(data@.subrange(pos + 9, pos + 11));
        bytes::lemma_le_value_bound(data@.subrange(pos + 1, pos + 9));
    }
    let t0: usize = pos + 11;
    let t1: usize = match take_segment_slice(data, t0, table_len as usize) {
        Ok(end) => end,
        Err(e) => {
            return Err(e);
        },
    };
    let id_len: u64 = match number(data, t1, 2) {
        Ok(n) => n,
        Err(e) => {
            return Err(e);
        },
    };
    proof {
        bytes::lemma_le_value_bound(data@.subrange(t1 as int, t1 + 2));
    }
    let i0: usize = t1 + 2;
    let i1: usize = match take_segment_slice(data, i0, id_len as usize) {
        Ok(end) => end,
        Err(e) => {
            return Err(e);
        },
    };
    let payload_len: u64 = match number(data, i1, 4) {
        Ok(n) => n,
        Err(e) => {
            return Err(e);
        },
    };
    proof {
        bytes::lemma_le_value_bound(data@.subrange(i1 as int, i1 + 4));
    }
    if kind == KIND_TOMBSTONE && payload_len != 0 {
        return Err(corrupt("tombstone with payload"));
    }
    let p0: usize = i1 + 4;
    let p1: usize = match take_segment_slice(data, p0, payload_len as usize) {
        Ok(end) => end,
        Err(e) => {
            return Err(e);
        },
    };
    let entry = SegEntry {
        tombstone: kind == KIND_TOMBSTONE,
        version,
        table: bytes::copy_range(data, t0, t1),
        id: bytes::copy_range(data, i0, i1),
        payload_offset: p0,
        payload_len: payload_len as usize,
    };
    Ok((entry, p1))
}

/// Append an entry to a segment that is being written; the result is where its
/// payload begins.
pub fn append_entry(buf: &mut Vec<u8>, tombstone: bool, version: u64, table: &[u8], id: &[u8], payload: &[u8]) -> (r: usize)
    requires
        table@.len() <= u16::MAX,
        id@.len() <= u16::MAX,
        payload@.len() <= u32::MAX,
    ensures
        final(buf)@ == old(buf)@ + segment_entry(tombstone, version, table@, id@, payload@),
        r == old(buf)@.len() + 17 + table@.len() + id@.len(),
        final(buf)@.subrange(r as int, r + payload@.len()) == payload@,
{
    proof {
        bytes::lemma_radix_small();
    }
    broadcast use bytes::lemma_le_len;

    let ghost before = buf@;
    let mut head: Vec<u8> = Vec::new();
    head.push(
        if tombstone {
            KIND_TOMBSTONE
        } else {
            KIND_PUT
        },
    );
    bytes::push_le(&mut head, version, 8);
    bytes::push_le(&mut head, table.len() as u64, 2);
    bytes::push_all(&mut head, table);
    bytes::push_le(&mut head, id.len() as u64, 2);
    bytes::push_all(&mut head, id);
    bytes::push_le(&mut head, payload.len() as u64, 4);
    let ghost front = head@;
    bytes::push_all(&mut head, payload);
    assert(head@ =~= entry_head(tombstone, version, table@, id@, payload@));
    let crc: u32 = checksum::checksum(head.as_slice());
    let start: usize = buf.len();
    bytes::push_all(buf, head.as_slice());
    let at: usize = buf.len() - payload.len();
    bytes::push_le(buf, crc as u64, 4);
    proof {
        assert(buf@ =~= before + segment_entry(tombstone, version, table@, id@, payload@));
        assert(at == before.len() + front.len());
        assert(buf@.subrange(at as int, at + payload@.len()) =~= payload@);
    }
    at
}

/// An entry can be read back from where it was written.
pub proof fn lemma_entry_round_trip(
    prefix: Seq<u8>,
    tombstone: bool,
    version: u64,
    table: Seq<u8>,
    id: Seq<u8>,
    payload: Seq<u8>,
    suffix: Seq<u8>,
    segment: u32,
)
    requires
        table.len() <= u16::MAX,
        id.len() <= u16::MAX,
        payload.len() <= u32::MAX,
        tombstone ==> payload.len() == 0,
    ensures
        ({
            let data = prefix + segment_entry(tombstone, version, table, id, payload) + suffix;
            let at = prefix.len() as int;
            let head = entry_head(tombstone, version, table, id, payload);
            &&& entry_at(data, at, segment) == Ok::<(EntryView, int), Seq<char>>(
                (
                    EntryView { tombstone, version, table, id, payload_offset: at + 17 + table.len() + id.len(), payload },
                    at + head.len(),
                ),
            )
            &&& data.subrange(at, at + head.len()) == head
            &&& at + head.len() + 4 <= data.len()
            &&& number_at(data, at + head.len(), 4) == checksum::crc32(head)
        }),
{
    let head = entry_head(tombstone, version, table, id, payload);
    let data = prefix + segment_entry(tombstone, version, table, id, payload) + suffix;
    let at = prefix.len() as int;
    bytes::lemma_radix_small();
    bytes::lemma_le_len(version as nat, 8);
    bytes::lemma_le_len(table.len(), 2);
    bytes::lemma_le_len(id.len(), 2);
    bytes::lemma_le_len(payload.len(), 4);
    bytes::lemma_le_len(checksum::crc32(head) as nat, 4);
    bytes::lemma_le_round_trip(version as nat, 8);
    bytes::lemma_le_round_trip(table.len(), 2);
    bytes::lemma_le_round_trip(id.len(), 2);
    bytes::lemma_le_round_trip(payload.len(), 4);
    bytes::lemma_le_round_trip(checksum::crc32(head) as nat, 4);
    let t0 = at + 11;
    let t1 = t0 + table.len();
    let i0 = t1 + 2;
    let i1 = i0 + id.len();
    let p0 = i1 + 4;
    let p1 = p0 + payload.len();
    assert(head.len() == p1 - at);
    assert(data[at] == head[0]);
    assert(data.subrange(at + 1, at + 9) =~= bytes::le(version as nat, 8));
    assert(data.subrange(at + 9, at + 11) =~= bytes::le(table.len(), 2));
    assert(data.subrange(t0, t1) =~= table);
    assert(data.subrange(t1, t1 + 2) =~= bytes::le(id.len(), 2));
    assert(data.subrange(i0, i1) =~= id);
    assert(data.subrange(i1, i1 + 4) =~= bytes::le(payload.len(), 4));
    assert(data.subrange(p0, p1) =~= payload);
    assert(data.subrange(at, at + head.len()) =~= head);
    assert(data.subrange(p1, p1 + 4) =~= bytes::le(checksum::crc32(head) as nat, 4));
}

// ---- Reading a whole segment ------------------------------------------------

/// Whether a whole entry with a right checksum begins at `pos`.
pub open spec fn sound_at(data: Seq<u8>, pos: int, segment: u32) -> bool {
    entry_at(data, pos, segment) matches Ok((_, end)) && end + 4 <= data.len() && number_at(data, end, 4) == checksum::crc32(
        data.subrange(pos, end),
    )
}

/// Where the entry after the one at `pos` begins.
pub open spec fn after_entry(data: Seq<u8>, pos: int, segment: u32) -> int {
    entry_at(data, pos, segment)->Ok_0.1 + 4
}

/// The entries from `pos` on, up to the first that is not sound, and where
/// they end.
pub open spec fn entries_from(data: Seq<u8>, pos: int, segment: u32) -> (Seq<EntryView>, int)
    decreases data.len() - pos,
{
    if pos >= data.len() || !sound_at(data, pos, segment) || after_entry(data, pos, segment) <= pos {
        (Seq::empty(), pos)
    } else {
        let rest = entries_from(data, after_entry(data, pos, segment), segment);
        (seq![entry_at(data, pos, segment)->Ok_0.0] + rest.0, rest.1)
    }
}

pub struct SegmentScan {
    pub entries: Vec<SegEntry>,
    pub valid_len: usize,
    pub clean: bool,
}

pub open spec fn entries_in(data: Seq<u8>, s: Seq<SegEntry>) -> Seq<EntryView> {
    Seq::new(s.len(), |i: int| entry_in(data, s[i]))
}

/// Read the entries of a segment, checking each checksum, up to the first that
/// is not sound.
pub fn scan_segment(data: &[u8], segment: u32) -> (r: SegmentScan)
    ensures
        entries_in(data@, r.entries@) == entries_from(data@, 0, segment).0,
        r.valid_len == entries_from(data@, 0, segment).1,
        r.clean == (r.valid_len == data@.len()),
        r.valid_len <= data@.len(),
        forall|i: int| 0 <= i < r.entries@.len() ==> within(data@, #[trigger] r.entries@[i]),
{
    let total: usize = data.len();
    let mut entries: Vec<SegEntry> = Vec::new();
    let mut pos: usize = 0;
    let mut going: bool = true;
    let ghost whole = entries_from(data@, 0, segment);
    assert(entries_in(data@, entries@) + entries_from(data@, 0, segment).0 =~= whole.0);
    while going
        invariant
            total == data@.len(),
            pos <= total,
            forall|i: int| 0 <= i < entries@.len() ==> within(data@, #[trigger] entries@[i]),
            whole == entries_from(data@, 0, segment),
            going ==> whole.0 == entries_in(data@, entries@) + entries_from(data@, pos as int, segment).0 && whole.1 == entries_from(
                data@,
                pos as int,
                segment,
            ).1,
            !going ==> whole.0 == entries_in(data@, entries@) && whole.1 == pos,
        decreases total - pos, (if going { 1int } else { 0int }),
    {
        let mut next: Option<(SegEntry, usize)> = None;
        if pos < total {
            match read_entry(data, pos, segment) {
                Ok((e, end)) => {
                    if total - end >= 4 {
                        let body = bytes::copy_range(data, pos, end);
                        let crc: u32 = checksum::checksum(body.as_slice());
                        match number(data, end, 4) {
                            Ok(stored) => {
                                if stored == crc as u64 {
                                    next = Some((e, end + 4));
                                }
                            },
                            Err(_) => {},
                        }
                    }
                },
                Err(_) => {},
            }
        }
        match next {
            Some((e, end)) => {
                let ghost before = entries_in(data@, entries@);
                let ghost ev = entry_in(data@, e);
                entries.push(e);
                proof {
                    assert(entries_in(data@, entries@) =~= before.push(ev));
                    let rest = entries_from(data@, end as int, segment);
                    assert(before + (seq![ev] + rest.0) =~= before.push(ev) + rest.0);
                }
                pos = end;
            },
            None => {
                assert(entries_in(data@, entries@) + Seq::<EntryView>::empty() =~= entries_in(data@, entries@));
                going = false;
            },
        }
    }
    SegmentScan { entries, valid_len: pos, clean: pos == total }
}

} // verus!
