//! Record versions, and the keys and entries of the primary index.

use crate::bytes::{self, push_all, push_be, push_le, read_be, read_le, text_from_utf8};
use crate::cow::share;
use crate::error::{corrupt, invalid, Error, ErrorView};
use crate::order::Datum;
use std::sync::Arc;
use vstd::prelude::*;
use vstd::utf8::*;

verus! {

/// Where one committed record version lives.
#[derive(Debug)]
pub enum VKind {
    /// Committed through the log, not yet in a segment.
    MemPut(Arc<Vec<u8>>),
    SegPut { segment: u32, payload_offset: u64, payload_len: u32 },
    MemTombstone,
    SegTombstone,
}

#[derive(Debug)]
pub struct VersionEntry {
    pub version: u64,
    pub kind: VKind,
}

#[verifier::ext_equal]
pub enum KindView {
    MemPut(Seq<u8>),
    SegPut { segment: u32, payload_offset: u64, payload_len: u32 },
    MemTombstone,
    SegTombstone,
}

#[verifier::ext_equal]
pub struct VersionView {
    pub version: u64,
    pub kind: KindView,
}

impl View for VKind {
    type V = KindView;

    open spec fn view(&self) -> KindView {
        match self {
            VKind::MemPut(payload) => KindView::MemPut(payload@),
            VKind::SegPut { segment, payload_offset, payload_len } => KindView::SegPut {
                segment: *segment,
                payload_offset: *payload_offset,
                payload_len: *payload_len,
            },
            VKind::MemTombstone => KindView::MemTombstone,
            VKind::SegTombstone => KindView::SegTombstone,
        }
    }
}

impl View for VersionEntry {
    type V = VersionView;

    open spec fn view(&self) -> VersionView {
        VersionView { version: self.version, kind: self.kind@ }
    }
}

impl Datum for VersionEntry {
    open spec fn valid(&self) -> bool {
        true
    }

    fn duplicate(&self) -> (r: Self) {
        let kind = match &self.kind {
            VKind::MemPut(payload) => VKind::MemPut(share(payload)),
            VKind::SegPut { segment, payload_offset, payload_len } => VKind::SegPut {
                segment: *segment,
                payload_offset: *payload_offset,
                payload_len: *payload_len,
            },
            VKind::MemTombstone => VKind::MemTombstone,
            VKind::SegTombstone => VKind::SegTombstone,
        };
        VersionEntry { version: self.version, kind }
    }
}

impl KindView {
    pub open spec fn is_tombstone(self) -> bool {
        self is MemTombstone || self is SegTombstone
    }

    /// Whether the version is only in memory and in the log.
    pub open spec fn is_resident(self) -> bool {
        self is MemPut || self is MemTombstone
    }
}

impl VersionEntry {
    pub fn is_tombstone(&self) -> (r: bool)
        ensures
            r == self@.kind.is_tombstone(),
    {
        match self.kind {
            VKind::MemTombstone => true,
            VKind::SegTombstone => true,
            _ => false,
        }
    }

    /// Whether the version is only in memory and in the log.
    pub fn is_resident(&self) -> (r: bool)
        ensures
            r == self@.kind.is_resident(),
    {
        match self.kind {
            VKind::MemPut(_) => true,
            VKind::MemTombstone => true,
            _ => false,
        }
    }
}

// ---- Keys -------------------------------------------------------------------

/// What the primary keys of a table begin with.
pub open spec fn table_prefix(table: Seq<u8>) -> Seq<u8> {
    bytes::be(table.len(), 4) + table
}

/// The primary key of a record: the table behind its length, then the id.
pub open spec fn key_of(table: Seq<u8>, id: Seq<u8>) -> Seq<u8> {
    table_prefix(table) + id
}

pub fn primary_table_prefix(table: &str) -> (r: Vec<u8>)
    requires
        encode_utf8(table@).len() <= u32::MAX,
    ensures
        r@ == table_prefix(encode_utf8(table@)),
{
    let mut key: Vec<u8> = Vec::new();
    push_be(&mut key, bytes::byte_len(table) as u64, 4);
    push_all(&mut key, table.as_bytes());
    assert(key@ =~= table_prefix(encode_utf8(table@)));
    key
}

/// Write the primary key of a record over what `key` holds.
pub fn encode_primary_key_into(table: &str, id: &str, key: &mut Vec<u8>)
    requires
        encode_utf8(table@).len() <= u32::MAX,
    ensures
        final(key)@ == key_of(encode_utf8(table@), encode_utf8(id@)),
{
    key.clear();
    push_be(key, bytes::byte_len(table) as u64, 4);
    push_all(key, table.as_bytes());
    push_all(key, id.as_bytes());
    assert(key@ =~= key_of(encode_utf8(table@), encode_utf8(id@)));
}

/// The primary key of a record.
pub fn primary_key(table: &str, id: &str) -> (r: Vec<u8>)
    requires
        encode_utf8(table@).len() <= u32::MAX,
    ensures
        r@ == key_of(encode_utf8(table@), encode_utf8(id@)),
{
    let mut key: Vec<u8> = Vec::new();
    encode_primary_key_into(table, id, &mut key);
    key
}

/// The table and the id that a primary key names, or what is wrong with it.
pub open spec fn key_parts(key: Seq<u8>) -> Result<(Seq<u8>, Seq<u8>), Seq<char>> {
    if key.len() < 4 {
        Err("primary index: truncated key"@)
    } else {
        let n = bytes::be_value(key.subrange(0, 4));
        if 4 + n > key.len() {
            Err("primary index: invalid table length"@)
        } else {
            let table = key.subrange(4, (4 + n) as int);
            let id = key.subrange((4 + n) as int, key.len() as int);
            if !valid_utf8(table) {
                Err("primary index: invalid table utf8"@)
            } else if !valid_utf8(id) {
                Err("primary index: invalid id utf8"@)
            } else {
                Ok((table, id))
            }
        }
    }
}

/// The table and the id that a primary key names.
pub fn decode_primary_key(key: &[u8]) -> (r: Result<(String, String), Error>)
    ensures
        r is Ok <==> key_parts(key@) is Ok,
        r matches Ok(p) ==> Ok::<(Seq<u8>, Seq<u8>), Seq<char>>((encode_utf8(p.0@), encode_utf8(p.1@))) == key_parts(key@),
        r matches Err(e) ==> e@ == ErrorView::Corrupt(key_parts(key@)->Err_0),
{
    proof {
        bytes::lemma_radix_small();
    }
    let n: u64 = match read_be(key, 0, 4) {
        Some(n) => n,
        None => {
            return Err(corrupt("primary index: truncated key"));
        },
    };
    if n > (key.len() - 4) as u64 {
        return Err(corrupt("primary index: invalid table length"));
    }
    let end: usize = 4 + n as usize;
    let table = match text_from_utf8(bytes::copy_range(key, 4, end).as_slice()) {
        Some(s) => s,
        None => {
            return Err(corrupt("primary index: invalid table utf8"));
        },
    };
    let id = match text_from_utf8(bytes::copy_range(key, end, key.len()).as_slice()) {
        Some(s) => s,
        None => {
            return Err(corrupt("primary index: invalid id utf8"));
        },
    };
    Ok((table, id))
}

/// A primary key names the table and the id that it was made of.
pub proof fn lemma_key_round_trip(table: Seq<char>, id: Seq<char>)
    requires
        encode_utf8(table).len() <= u32::MAX,
    ensures
        key_parts(key_of(encode_utf8(table), encode_utf8(id))) == Ok::<(Seq<u8>, Seq<u8>), Seq<char>>(
            (encode_utf8(table), encode_utf8(id)),
        ),
{
    let t = encode_utf8(table);
    let i = encode_utf8(id);
    let key = key_of(t, i);
    bytes::lemma_radix_small();
    bytes::lemma_be_len(t.len(), 4);
    bytes::lemma_be_round_trip(t.len(), 4);
    assert(key.subrange(0, 4) =~= bytes::be(t.len(), 4));
    assert(key.subrange(4, (4 + t.len()) as int) =~= t);
    assert(key.subrange((4 + t.len()) as int, key.len() as int) =~= i);
    encode_utf8_valid_utf8(table);
    encode_utf8_valid_utf8(id);
}

/// Records of one table stand in the order of their ids.
pub proof fn lemma_key_order(table: Seq<u8>, a: Seq<u8>, b: Seq<u8>)
    ensures
        bytes::lex_lt(key_of(table, a), key_of(table, b)) <==> bytes::lex_lt(a, b),
        key_of(table, a) == key_of(table, b) <==> a == b,
{
    bytes::lemma_lex_cancel_prefix(table_prefix(table), a, b);
    let p = table_prefix(table).len() as int;
    if key_of(table, a) == key_of(table, b) {
        assert(key_of(table, a).subrange(p, key_of(table, a).len() as int) =~= a);
        assert(key_of(table, b).subrange(p, key_of(table, b).len() as int) =~= b);
    }
}

/// No key belongs to two tables.
pub proof fn lemma_key_table(t: Seq<u8>, u: Seq<u8>, id: Seq<u8>)
    requires
        t.len() <= u32::MAX,
        u.len() <= u32::MAX,
        table_prefix(t).is_prefix_of(key_of(u, id)),
    ensures
        t == u,
{
    let key = key_of(u, id);
    bytes::lemma_radix_small();
    bytes::lemma_be_len(t.len(), 4);
    bytes::lemma_be_len(u.len(), 4);
    bytes::lemma_be_round_trip(t.len(), 4);
    bytes::lemma_be_round_trip(u.len(), 4);
    assert(table_prefix(t) =~= key.subrange(0, table_prefix(t).len() as int));
    assert(key.subrange(0, 4) =~= bytes::be(u.len(), 4));
    assert(table_prefix(t).subrange(0, 4) =~= bytes::be(t.len(), 4));
    assert(table_prefix(t).subrange(0, 4) =~= key.subrange(0, 4));
    assert(t =~= table_prefix(t).subrange(4, (4 + t.len()) as int));
    assert(u =~= key.subrange(4, (4 + u.len()) as int));
}

/// Two keys with one table and one id are the same, and no others are.
pub proof fn lemma_key_injective(t: Seq<u8>, i: Seq<u8>, u: Seq<u8>, j: Seq<u8>)
    requires
        t.len() <= u32::MAX,
        u.len() <= u32::MAX,
    ensures
        key_of(t, i) == key_of(u, j) <==> t == u && i == j,
{
    if key_of(t, i) == key_of(u, j) {
        assert(table_prefix(t).is_prefix_of(key_of(u, j))) by {
            assert(key_of(t, i).subrange(0, table_prefix(t).len() as int) =~= table_prefix(t));
        }
        lemma_key_table(t, u, j);
        lemma_key_order(t, i, j);
    }
}

// ---- Entries ----------------------------------------------------------------

/// The stored form of a version that lives in a segment.
pub open spec fn entry_bytes(v: VersionView) -> Seq<u8> {
    match v.kind {
        KindView::SegPut { segment, payload_offset, payload_len } => bytes::be(v.version as nat, 8) + seq![0u8] + bytes::le(
            segment as nat,
            4,
        ) + bytes::le(payload_offset as nat, 8) + bytes::le(payload_len as nat, 4),
        _ => bytes::be(v.version as nat, 8) + seq![1u8],
    }
}

/// The version that a stored entry holds, or what is wrong with it.
pub open spec fn entry_of(data: Seq<u8>) -> Result<VersionView, Seq<char>> {
    if data.len() < 9 {
        Err("primary index: truncated entry"@)
    } else {
        let version = bytes::be_value(data.subrange(0, 8)) as u64;
        if data[8] == 0 && data.len() == 25 {
            Ok(
                VersionView {
                    version,
                    kind: KindView::SegPut {
                        segment: bytes::le_value(data.subrange(9, 13)) as u32,
                        payload_offset: bytes::le_value(data.subrange(13, 21)) as u64,
                        payload_len: bytes::le_value(data.subrange(21, 25)) as u32,
                    },
                },
            )
        } else if data[8] == 1 && data.len() == 9 {
            Ok(VersionView { version, kind: KindView::SegTombstone })
        } else {
            Err("primary index: invalid entry"@)
        }
    }
}

pub open spec fn resident_message() -> Seq<char> {
    "primary index base cannot contain memtable entries"@
}

/// Store a version; only one that lives in a segment can be.
pub fn encode_primary_entry(entry: &VersionEntry) -> (r: Result<Vec<u8>, Error>)
    ensures
        r is Err <==> entry@.kind.is_resident(),
        r matches Ok(data) ==> data@ == entry_bytes(entry@),
        r matches Err(e) ==> e@ == ErrorView::InvalidArgument(resident_message()),
{
    let mut out: Vec<u8> = Vec::new();
    push_be(&mut out, entry.version, 8);
    match &entry.kind {
        VKind::SegPut { segment, payload_offset, payload_len } => {
            out.push(0);
            push_le(&mut out, *segment as u64, 4);
            push_le(&mut out, *payload_offset, 8);
            push_le(&mut out, *payload_len as u64, 4);
        },
        VKind::SegTombstone => {
            out.push(1);
        },
        _ => {
            return Err(invalid("primary index base cannot contain memtable entries"));
        },
    }
    assert(out@ =~= entry_bytes(entry@));
    Ok(out)
}

/// Read a stored version.
pub fn decode_primary_entry(data: &[u8]) -> (r: Result<VersionEntry, Error>)
    ensures
        r is Ok <==> entry_of(data@) is Ok,
        r matches Ok(v) ==> Ok::<VersionView, Seq<char>>(v@) == entry_of(data@),
        r matches Err(e) ==> e@ == ErrorView::Corrupt(entry_of(data@)->Err_0),
{
    proof {
        bytes::lemma_radix_small();
    }
    if data.len() < 9 {
        return Err(corrupt("primary index: truncated entry"));
    }
    let version: u64 = match read_be(data, 0, 8) {
        Some(n) => n,
        None => 0,
    };
    if data[8] == 0 && data.len() == 25 {
        let segment: u64 = match read_le(data, 9, 4) {
            Some(n) => n,
            None => 0,
        };
        let payload_offset: u64 = match read_le(data, 13, 8) {
            Some(n) => n,
            None => 0,
        };
        let payload_len: u64 = match read_le(data, 21, 4) {
            Some(n) => n,
            None => 0,
        };
        Ok(
            VersionEntry {
                version,
                kind: VKind::SegPut { segment: segment as u32, payload_offset, payload_len: payload_len as u32 },
            },
        )
    } else if data[8] == 1 && data.len() == 9 {
        Ok(VersionEntry { version, kind: VKind::SegTombstone })
    } else {
        Err(corrupt("primary index: invalid entry"))
    }
}

/// Reading a stored version gives back what was stored.
pub proof fn lemma_entry_round_trip(v: VersionView)
    requires
        !v.kind.is_resident(),
    ensures
        entry_of(entry_bytes(v)) == Ok::<VersionView, Seq<char>>(v),
{
    let data = entry_bytes(v);
    bytes::lemma_radix_small();
    bytes::lemma_be_len(v.version as nat, 8);
    bytes::lemma_be_round_trip(v.version as nat, 8);
    assert(data.subrange(0, 8) =~= bytes::be(v.version as nat, 8));
    match v.kind {
        KindView::SegPut { segment, payload_offset, payload_len } => {
            bytes::lemma_le_len(segment as nat, 4);
            bytes::lemma_le_len(payload_offset as nat, 8);
            bytes::lemma_le_len(payload_len as nat, 4);
            bytes::lemma_le_round_trip(segment as nat, 4);
            bytes::lemma_le_round_trip(payload_offset as nat, 8);
            bytes::lemma_le_round_trip(payload_len as nat, 4);
            assert(data.subrange(9, 13) =~= bytes::le(segment as nat, 4));
            assert(data.subrange(13, 21) =~= bytes::le(payload_offset as nat, 8));
            assert(data.subrange(21, 25) =~= bytes::le(payload_len as nat, 4));
        },
        _ => {},
    }
}

} // verus!
