//! The stored form of a record.
//!
//! A payload is a two-byte field count, then per field a column name behind its
//! two-byte length and a tagged value. It describes itself, so that a change of
//! schema does not invalidate what was stored before.

use crate::bytes::{self, push_all, push_le, read_le, same_bytes, text_from_utf8};
use crate::ddl::{Rewrite, RewriteView};
use crate::error::{corrupt, Error, ErrorView};
use crate::value::{self, skip_value, BlobRef, Stored, StoredView, TAG_NULL};
use vstd::prelude::*;
use vstd::utf8::*;

verus! {

/// A field by its name and the bytes of its value.
pub type RawField = (Seq<u8>, Seq<u8>);

pub open spec fn name_message() -> Seq<char> {
    "invalid utf8 in column name"@
}

/// The field name at `pos` and where it ends, or why there is none.
pub open spec fn name_at(buf: Seq<u8>, pos: int) -> Result<(Seq<u8>, int), Seq<char>> {
    if pos + 2 > buf.len() {
        Err(value::end_message())
    } else {
        let n = bytes::le_value(buf.subrange(pos, pos + 2));
        if pos + 2 + n > buf.len() {
            Err(value::end_message())
        } else {
            Ok((buf.subrange(pos + 2, pos + 2 + n), pos + 2 + n))
        }
    }
}

/// The same, where the name must be text.
pub open spec fn text_name_at(buf: Seq<u8>, pos: int) -> Result<(Seq<u8>, int), Seq<char>> {
    match name_at(buf, pos) {
        Err(m) => Err(m),
        Ok((name, next)) => if valid_utf8(name) {
            Ok((name, next))
        } else {
            Err(name_message())
        },
    }
}

/// The number of fields that a payload announces.
pub open spec fn count_of(buf: Seq<u8>) -> Result<nat, Seq<char>> {
    if buf.len() < 2 {
        Err(value::end_message())
    } else {
        Ok(bytes::le_value(buf.subrange(0, 2)))
    }
}

/// The `count` fields from `pos` on, or what is wrong with the first bad one.
pub open spec fn fields_from(buf: Seq<u8>, pos: int, count: nat) -> Result<Seq<RawField>, Seq<char>>
    decreases count,
{
    if count == 0 {
        Ok(Seq::empty())
    } else {
        match text_name_at(buf, pos) {
            Err(m) => Err(m),
            Ok((name, at)) => match value::field_end(buf, at) {
                Err(m) => Err(m),
                Ok(end) => match fields_from(buf, end, (count - 1) as nat) {
                    Err(m) => Err(m),
                    Ok(rest) => Ok(seq![(name, buf.subrange(at, end))] + rest),
                },
            },
        }
    }
}

/// The fields of a payload, or what is wrong with it.
pub open spec fn fields_of(buf: Seq<u8>) -> Result<Seq<RawField>, Seq<char>> {
    match count_of(buf) {
        Err(m) => Err(m),
        Ok(n) => fields_from(buf, 2, n),
    }
}

/// The stored form of one field.
pub open spec fn field_bytes(f: RawField) -> Seq<u8> {
    bytes::le(f.0.len(), 2) + f.0 + f.1
}

pub open spec fn body_bytes(fields: Seq<RawField>) -> Seq<u8>
    decreases fields.len(),
{
    if fields.len() == 0 {
        Seq::empty()
    } else {
        body_bytes(fields.drop_last()) + field_bytes(fields.last())
    }
}

/// The payload that holds the given fields.
pub open spec fn payload_bytes(fields: Seq<RawField>) -> Seq<u8> {
    bytes::le(fields.len(), 2) + body_bytes(fields)
}

/// The fields without `remove`, with `rename.0` under the name `rename.1`.
pub open spec fn rewritten(
    fields: Seq<RawField>,
    rename: Option<(Seq<u8>, Seq<u8>)>,
    remove: Option<Seq<u8>>,
) -> Seq<RawField>
    decreases fields.len(),
{
    if fields.len() == 0 {
        Seq::empty()
    } else {
        let head = rewritten(fields.drop_last(), rename, remove);
        let f = fields.last();
        if remove == Some(f.0) {
            head
        } else {
            head.push((renamed(f.0, rename), f.1))
        }
    }
}

pub open spec fn renamed(name: Seq<u8>, rename: Option<(Seq<u8>, Seq<u8>)>) -> Seq<u8> {
    match rename {
        Some((from, to)) => if from == name {
            to
        } else {
            name
        },
        None => name,
    }
}

/// A field found in a payload: its name and where its value stands.
pub struct Field {
    pub name: Vec<u8>,
    pub start: usize,
    pub end: usize,
}

pub open spec fn raw_of(buf: Seq<u8>, f: Field) -> RawField {
    (f.name@, buf.subrange(f.start as int, f.end as int))
}

pub open spec fn raws(buf: Seq<u8>, fields: Seq<Field>) -> Seq<RawField> {
    Seq::new(fields.len(), |i: int| raw_of(buf, fields[i]))
}

/// Read the number of fields.
pub fn read_count(buf: &[u8]) -> (r: Result<usize, Error>)
    ensures
        r is Ok <==> count_of(buf@) is Ok,
        r matches Ok(n) ==> Ok::<nat, Seq<char>>(n as nat) == count_of(buf@) && n <= u16::MAX && buf@.len() >= 2,
        r matches Err(e) ==> e@ == ErrorView::Corrupt(count_of(buf@)->Err_0),
{
    proof {
        bytes::lemma_radix_small();
    }
    match read_le(buf, 0, 2) {
        Some(n) => Ok(n as usize),
        None => Err(corrupt("unexpected end of record")),
    }
}

/// Read one length-prefixed column name as bytes.
pub fn read_field_name(buf: &[u8], pos: usize) -> (r: Result<(Vec<u8>, usize), Error>)
    ensures
        r is Ok <==> name_at(buf@, pos as int) is Ok,
        r matches Ok(p) ==> Ok::<(Seq<u8>, int), Seq<char>>((p.0@, p.1 as int)) == name_at(buf@, pos as int) && p.1 <= buf@.len()
            && pos + 2 <= p.1,
        r matches Err(e) ==> e@ == ErrorView::Corrupt(name_at(buf@, pos as int)->Err_0),
{
    proof {
        bytes::lemma_radix_small();
    }
    match read_le(buf, pos, 2) {
        None => Err(corrupt("unexpected end of record")),
        Some(n) => {
            let total: usize = buf.len();
            assert(pos + 2 <= total);
            let at: usize = pos + 2;
            if n > (total - at) as u64 {
                Err(corrupt("unexpected end of record"))
            } else {
                let end: usize = at + n as usize;
                Ok((bytes::copy_range(buf, at, end), end))
            }
        },
    }
}

/// Read one length-prefixed column name.
pub fn read_payload_name(buf: &[u8], pos: usize) -> (r: Result<(String, usize), Error>)
    ensures
        r is Ok <==> text_name_at(buf@, pos as int) is Ok,
        r matches Ok(p) ==> Ok::<(Seq<u8>, int), Seq<char>>((encode_utf8(p.0@), p.1 as int)) == text_name_at(buf@, pos as int)
            && p.1 <= buf@.len() && pos + 2 <= p.1,
        r matches Err(e) ==> e@ == ErrorView::Corrupt(text_name_at(buf@, pos as int)->Err_0),
{
    match read_field_name(buf, pos) {
        Err(e) => Err(e),
        Ok((name, next)) => match text_from_utf8(name.as_slice()) {
            Some(s) => Ok((s, next)),
            None => Err(corrupt("invalid utf8 in column name")),
        },
    }
}

proof fn lemma_body_concat(a: Seq<RawField>, b: Seq<RawField>)
    ensures
        body_bytes(a + b) == body_bytes(a) + body_bytes(b),
    decreases b.len(),
{
    if b.len() == 0 {
        assert(a + b =~= a);
        assert(body_bytes(a) + body_bytes(b) =~= body_bytes(a));
    } else {
        lemma_body_concat(a, b.drop_last());
        assert((a + b).drop_last() =~= a + b.drop_last());
        assert(body_bytes(a + b) =~= body_bytes(a) + body_bytes(b));
    }
}

/// The bytes of a field before others.
pub proof fn lemma_body_front(f: RawField, rest: Seq<RawField>)
    ensures
        body_bytes(seq![f] + rest) == field_bytes(f) + body_bytes(rest),
{
    lemma_body_concat(seq![f], rest);
    assert(seq![f].drop_last() =~= Seq::<RawField>::empty());
    assert(body_bytes(seq![f].drop_last()) =~= Seq::<u8>::empty());
    assert(body_bytes(seq![f]) =~= field_bytes(f));
}

/// Find the fields of a payload.
pub fn scan_fields(buf: &[u8]) -> (r: Result<Vec<Field>, Error>)
    ensures
        r is Ok <==> fields_of(buf@) is Ok,
        r matches Ok(fields) ==> {
            &&& fields_of(buf@) == Ok::<Seq<RawField>, Seq<char>>(raws(buf@, fields@))
            &&& fields@.len() <= u16::MAX
            &&& forall|i: int|
                0 <= i < fields@.len() ==> (#[trigger] fields@[i]).start <= fields@[i].end <= buf@.len() && valid_utf8(
                    fields@[i].name@,
                ) && fields@[i].name@.len() <= u16::MAX
        },
        r matches Err(e) ==> e@ == ErrorView::Corrupt(fields_of(buf@)->Err_0),
{
    let count: usize = match read_count(buf) {
        Ok(n) => n,
        Err(e) => {
            return Err(e);
        },
    };
    let mut fields: Vec<Field> = Vec::new();
    let mut pos: usize = 2;
    let ghost whole = fields_from(buf@, 2, count as nat);
    assert(raws(buf@, fields@) =~= Seq::<RawField>::empty());
    while fields.len() < count
        invariant
            fields@.len() <= count <= u16::MAX,
            pos <= buf@.len(),
            whole == fields_of(buf@),
            match fields_from(buf@, pos as int, (count - fields@.len()) as nat) {
                Ok(rest) => whole == Ok::<Seq<RawField>, Seq<char>>(raws(buf@, fields@) + rest),
                Err(m) => whole == Err::<Seq<RawField>, Seq<char>>(m),
            },
            forall|i: int|
                0 <= i < fields@.len() ==> (#[trigger] fields@[i]).start <= fields@[i].end <= buf@.len() && valid_utf8(
                    fields@[i].name@,
                ) && fields@[i].name@.len() <= u16::MAX,
        decreases count - fields@.len(),
    {
        let (name, at) = match read_payload_name(buf, pos) {
            Ok(p) => p,
            Err(e) => {
                return Err(e);
            },
        };
        let end: usize = match skip_value(buf, at) {
            Ok(end) => end,
            Err(e) => {
                return Err(e);
            },
        };
        let ghost before = raws(buf@, fields@);
        let raw_name = bytes::copy_of(name.as_str().as_bytes());
        let f = Field { name: raw_name, start: at, end };
        proof {
            encode_utf8_valid_utf8(name@);
            bytes::lemma_radix_small();
            bytes::lemma_le_value_bound(buf@.subrange(pos as int, pos + 2));
        }
        fields.push(f);
        proof {
            let raw = raw_of(buf@, f);
            assert(raws(buf@, fields@) =~= before.push(raw));
            match fields_from(buf@, end as int, (count - fields@.len()) as nat) {
                Ok(rest) => {
                    assert(before + (seq![raw] + rest) =~= before.push(raw) + rest);
                },
                Err(_) => {},
            }
        }
        pos = end;
    }
    assert(raws(buf@, fields@) + Seq::<RawField>::empty() =~= raws(buf@, fields@));
    Ok(fields)
}

pub open spec fn rename_bytes(rename: Option<(&str, &str)>) -> Option<(Seq<u8>, Seq<u8>)> {
    match rename {
        Some((from, to)) => Some((encode_utf8(from@), encode_utf8(to@))),
        None => None,
    }
}

pub open spec fn remove_bytes(remove: Option<&str>) -> Option<Seq<u8>> {
    match remove {
        Some(name) => Some(encode_utf8(name@)),
        None => None,
    }
}

/// Rebuild a payload with one field renamed and/or one field removed. Values
/// are copied byte for byte.
pub fn rewrite_payload_columns(payload: &[u8], rename: Option<(&str, &str)>, remove: Option<&str>) -> (r: Result<
    Vec<u8>,
    Error,
>)
    requires
        rename matches Some((_, to)) ==> encode_utf8(to@).len() <= u16::MAX,
    ensures
        r is Ok <==> fields_of(payload@) is Ok,
        r matches Ok(out) ==> out@ == payload_bytes(
            rewritten(fields_of(payload@)->Ok_0, rename_bytes(rename), remove_bytes(remove)),
        ),
        r matches Err(e) ==> e@ == ErrorView::Corrupt(fields_of(payload@)->Err_0),
{
    let fields = match scan_fields(payload) {
        Ok(fields) => fields,
        Err(e) => {
            return Err(e);
        },
    };
    let ghost all = raws(payload@, fields@);
    let ghost ren = rename_bytes(rename);
    let ghost rem = remove_bytes(remove);
    let mut body: Vec<u8> = Vec::new();
    let mut kept: u64 = 0;
    let mut i: usize = 0;
    assert(all.subrange(0, 0) =~= Seq::<RawField>::empty());
    while i < fields.len()
        invariant
            i <= fields@.len() <= u16::MAX,
            kept <= i,
            all == raws(payload@, fields@),
            ren == rename_bytes(rename),
            rem == remove_bytes(remove),
            rename matches Some((_, to)) ==> encode_utf8(to@).len() <= u16::MAX,
            kept == rewritten(all.subrange(0, i as int), ren, rem).len(),
            body@ == body_bytes(rewritten(all.subrange(0, i as int), ren, rem)),
            forall|j: int|
                0 <= j < fields@.len() ==> (#[trigger] fields@[j]).start <= fields@[j].end <= payload@.len() && fields@[j].name@.len()
                    <= u16::MAX,
        decreases fields@.len() - i,
    {
        let f = &fields[i];
        let ghost before = rewritten(all.subrange(0, i as int), ren, rem);
        proof {
            let s = all.subrange(0, i + 1);
            assert(s.drop_last() =~= all.subrange(0, i as int));
            assert(s.last() == raw_of(payload@, *f));
        }
        let dropped: bool = match remove {
            Some(name) => same_bytes(name.as_bytes(), f.name.as_slice()),
            None => false,
        };
        if !dropped {
            let out_name: &[u8] = match rename {
                Some((from, to)) => if same_bytes(from.as_bytes(), f.name.as_slice()) {
                    to.as_bytes()
                } else {
                    f.name.as_slice()
                },
                None => f.name.as_slice(),
            };
            let value = bytes::copy_range(payload, f.start, f.end);
            let ghost body_before = body@;
            push_le(&mut body, out_name.len() as u64, 2);
            push_all(&mut body, out_name);
            push_all(&mut body, value.as_slice());
            kept = kept + 1;
            proof {
                let g = (out_name@, value@);
                let after = rewritten(all.subrange(0, i + 1), ren, rem);
                assert(after == before.push(g));
                assert(after.drop_last() =~= before);
                assert(body@ =~= body_before + field_bytes(g));
            }
        }
        i = i + 1;
    }
    assert(all.subrange(0, i as int) =~= all);
    let mut out: Vec<u8> = Vec::new();
    push_le(&mut out, kept, 2);
    push_all(&mut out, body.as_slice());
    assert(out@ =~= payload_bytes(rewritten(all, ren, rem)));
    Ok(out)
}

/// What a rewrite makes of a payload of `table`.
pub open spec fn transformed(rw: RewriteView, table: Seq<char>, payload: Seq<u8>) -> Result<Seq<u8>, Seq<char>> {
    match rw {
        RewriteView::RenameColumn { table: t, from, to } => if t == table {
            match fields_of(payload) {
                Ok(fields) => Ok(
                    payload_bytes(rewritten(fields, Some((encode_utf8(from), encode_utf8(to))), None)),
                ),
                Err(m) => Err(m),
            }
        } else {
            Ok(payload)
        },
        RewriteView::DropColumn { table: t, column } => if t == table {
            match fields_of(payload) {
                Ok(fields) => Ok(payload_bytes(rewritten(fields, None, Some(encode_utf8(column))))),
                Err(m) => Err(m),
            }
        } else {
            Ok(payload)
        },
        _ => Ok(payload),
    }
}

pub open spec fn rewrite_fits(rw: RewriteView) -> bool {
    rw matches RewriteView::RenameColumn { to, .. } ==> encode_utf8(to).len() <= u16::MAX
}

/// Apply a rewrite to one record payload.
pub fn transform_payload(rw: &Rewrite<'_>, table: &str, payload: Vec<u8>) -> (r: Result<Vec<u8>, Error>)
    requires
        rewrite_fits(rw@),
    ensures
        r is Ok <==> transformed(rw@, table@, payload@) is Ok,
        r matches Ok(out) ==> Ok::<Seq<u8>, Seq<char>>(out@) == transformed(rw@, table@, payload@),
        r matches Err(e) ==> e@ == ErrorView::Corrupt(transformed(rw@, table@, payload@)->Err_0),
{
    match *rw {
        Rewrite::RenameColumn { table: t, from, to } => {
            if bytes::same_text(t, table) {
                rewrite_payload_columns(payload.as_slice(), Some((from, to)), None)
            } else {
                Ok(payload)
            }
        },
        Rewrite::DropColumn { table: t, column } => {
            if bytes::same_text(t, table) {
                rewrite_payload_columns(payload.as_slice(), None, Some(column))
            } else {
                Ok(payload)
            }
        },
        _ => Ok(payload),
    }
}

/// Whether the fields from `pos` on hold no value for a column: the field is
/// absent or null. Reading stops at the field.
pub open spec fn fill_from(buf: Seq<u8>, pos: int, count: nat, column: Seq<u8>) -> Result<bool, Seq<char>>
    decreases count,
{
    if count == 0 {
        Ok(true)
    } else {
        match text_name_at(buf, pos) {
            Err(m) => Err(m),
            Ok((name, at)) => if name == column {
                if at >= buf.len() {
                    Err(value::end_message())
                } else {
                    Ok(buf[at] == TAG_NULL)
                }
            } else {
                match value::field_end(buf, at) {
                    Err(m) => Err(m),
                    Ok(end) => fill_from(buf, end, (count - 1) as nat, column),
                }
            },
        }
    }
}

pub open spec fn needs_fill(buf: Seq<u8>, column: Seq<u8>) -> Result<bool, Seq<char>> {
    match count_of(buf) {
        Err(m) => Err(m),
        Ok(n) => fill_from(buf, 2, n, column),
    }
}

/// Whether a payload has no value for a column. Only the value's tag is read,
/// so nothing large is decoded.
pub fn encoded_column_needs_fill(payload: &[u8], column: &str) -> (r: Result<bool, Error>)
    ensures
        r is Ok <==> needs_fill(payload@, encode_utf8(column@)) is Ok,
        r matches Ok(b) ==> Ok::<bool, Seq<char>>(b) == needs_fill(payload@, encode_utf8(column@)),
        r matches Err(e) ==> e@ == ErrorView::Corrupt(needs_fill(payload@, encode_utf8(column@))->Err_0),
{
    let count: usize = match read_count(payload) {
        Ok(n) => n,
        Err(e) => {
            return Err(e);
        },
    };
    let ghost target = needs_fill(payload@, encode_utf8(column@));
    let mut pos: usize = 2;
    let mut left: usize = count;
    while left > 0
        invariant
            pos <= payload@.len(),
            target == needs_fill(payload@, encode_utf8(column@)),
            target == fill_from(payload@, pos as int, left as nat, encode_utf8(column@)),
        decreases left,
    {
        let (name, at) = match read_payload_name(payload, pos) {
            Ok(p) => p,
            Err(e) => {
                return Err(e);
            },
        };
        if same_bytes(name.as_str().as_bytes(), column.as_bytes()) {
            if at >= payload.len() {
                return Err(corrupt("unexpected end of record"));
            }
            return Ok(payload[at] == TAG_NULL);
        }
        pos = match skip_value(payload, at) {
            Ok(end) => end,
            Err(e) => {
                return Err(e);
            },
        };
        left = left - 1;
    }
    Ok(true)
}

/// The references to out-of-line blobs in the fields from `pos` on.
pub open spec fn refs_from(buf: Seq<u8>, pos: int, count: nat) -> Result<Seq<StoredView>, Seq<char>>
    decreases count,
{
    if count == 0 {
        Ok(Seq::empty())
    } else {
        match name_at(buf, pos) {
            Err(m) => Err(m),
            Ok((name, at)) => match value::field_end(buf, at) {
                Err(m) => Err(m),
                Ok(end) => match ref_in(buf, at, end) {
                    Err(m) => Err(m),
                    Ok(found) => match refs_from(buf, end, (count - 1) as nat) {
                        Err(m) => Err(m),
                        Ok(rest) => Ok(found + rest),
                    },
                },
            },
        }
    }
}

/// The reference that a field holds, if it holds one.
pub open spec fn ref_in(buf: Seq<u8>, at: int, end: int) -> Result<Seq<StoredView>, Seq<char>> {
    if buf[at] == value::TAG_BLOB_REF {
        match value::field_value(buf, at, end) {
            Ok(v) => Ok(seq![v]),
            Err(m) => Err(m),
        }
    } else {
        Ok(Seq::empty())
    }
}

pub open spec fn blob_refs(buf: Seq<u8>) -> Result<Seq<StoredView>, Seq<char>> {
    match count_of(buf) {
        Err(m) => Err(m),
        Ok(n) => refs_from(buf, 2, n),
    }
}

pub open spec fn ref_view(r: BlobRef) -> StoredView {
    StoredView::External { name: r.name@, len: r.len, crc: r.crc }
}

pub open spec fn ref_views(s: Seq<BlobRef>) -> Seq<StoredView> {
    Seq::new(s.len(), |i: int| ref_view(s[i]))
}

/// Collect the out-of-line blob references inside a payload without reading
/// any other value.
pub fn scan_payload_blob_refs(payload: &[u8]) -> (r: Result<Vec<BlobRef>, Error>)
    ensures
        r is Ok <==> blob_refs(payload@) is Ok,
        r matches Ok(found) ==> Ok::<Seq<StoredView>, Seq<char>>(ref_views(found@)) == blob_refs(payload@),
        r matches Err(e) ==> e@ == ErrorView::Corrupt(blob_refs(payload@)->Err_0),
{
    let count: usize = match read_count(payload) {
        Ok(n) => n,
        Err(e) => {
            return Err(e);
        },
    };
    let ghost target = blob_refs(payload@);
    let mut out: Vec<BlobRef> = Vec::new();
    let mut pos: usize = 2;
    let mut left: usize = count;
    proof {
        match refs_from(payload@, 2, count as nat) {
            Ok(rest) => {
                assert(ref_views(out@) + rest =~= rest);
            },
            Err(_) => {},
        }
    }
    while left > 0
        invariant
            pos <= payload@.len(),
            target == blob_refs(payload@),
            match refs_from(payload@, pos as int, left as nat) {
                Ok(rest) => target == Ok::<Seq<StoredView>, Seq<char>>(ref_views(out@) + rest),
                Err(m) => target == Err::<Seq<StoredView>, Seq<char>>(m),
            },
        decreases left,
    {
        let (name, at) = match read_field_name(payload, pos) {
            Ok(p) => p,
            Err(e) => {
                return Err(e);
            },
        };
        let end: usize = match skip_value(payload, at) {
            Ok(end) => end,
            Err(e) => {
                return Err(e);
            },
        };
        let ghost before = ref_views(out@);
        if payload[at] == value::TAG_BLOB_REF {
            match value::read_value(payload, at) {
                Ok((Stored::External(found), _)) => {
                    out.push(found);
                    proof {
                        assert(ref_views(out@) =~= before.push(ref_view(found)));
                        match refs_from(payload@, end as int, (left - 1) as nat) {
                            Ok(rest) => {
                                assert(before + (seq![ref_view(found)] + rest) =~= ref_views(out@) + rest);
                            },
                            Err(_) => {},
                        }
                    }
                },
                Ok((Stored::Value(_), _)) => {
                    assert(false);
                },
                Err(e) => {
                    return Err(e);
                },
            }
        } else {
            proof {
                match refs_from(payload@, end as int, (left - 1) as nat) {
                    Ok(rest) => {
                        assert(before + (Seq::<StoredView>::empty() + rest) =~= before + rest);
                    },
                    Err(_) => {},
                }
            }
        }
        pos = end;
        left = left - 1;
    }
    assert(ref_views(out@) + Seq::<StoredView>::empty() =~= ref_views(out@));
    Ok(out)
}

// ---- Laws -------------------------------------------------------------------

/// A field that a payload can hold: a name that is short enough, and bytes that
/// are one whole stored value.
pub open spec fn whole_field(f: RawField) -> bool {
    &&& f.0.len() <= u16::MAX
    &&& valid_utf8(f.0)
    &&& value::field_end(f.1, 0) == Ok::<int, Seq<char>>(f.1.len() as int)
}

/// A whole stored value is found wherever it stands.
pub proof fn lemma_field_end_shift(prefix: Seq<u8>, v: Seq<u8>, suffix: Seq<u8>)
    requires
        value::field_end(v, 0) == Ok::<int, Seq<char>>(v.len() as int),
    ensures
        value::field_end(prefix + v + suffix, prefix.len() as int) == Ok::<int, Seq<char>>((prefix.len() + v.len()) as int),
{
    let buf = prefix + v + suffix;
    let p = prefix.len() as int;
    assert(buf[p] == v[0]);
    if v.len() >= 5 {
        assert(buf.subrange(p + 1, p + 5) =~= v.subrange(1, 5));
    }
    if v.len() >= 3 {
        assert(buf.subrange(p + 1, p + 3) =~= v.subrange(1, 3));
    }
}

proof fn lemma_fields_from(prefix: Seq<u8>, fields: Seq<RawField>, suffix: Seq<u8>)
    requires
        forall|i: int| 0 <= i < fields.len() ==> whole_field(#[trigger] fields[i]),
    ensures
        fields_from(prefix + body_bytes(fields) + suffix, prefix.len() as int, fields.len()) == Ok::<Seq<RawField>, Seq<char>>(
            fields,
        ),
    decreases fields.len(),
{
    let buf = prefix + body_bytes(fields) + suffix;
    if fields.len() == 0 {
        assert(fields =~= Seq::<RawField>::empty());
    } else {
        let f = fields[0];
        let rest = fields.subrange(1, fields.len() as int);
        let p = prefix.len() as int;
        assert(fields =~= seq![f] + rest);
        lemma_body_front(f, rest);
        bytes::lemma_radix_small();
        bytes::lemma_le_len(f.0.len(), 2);
        bytes::lemma_le_round_trip(f.0.len(), 2);
        let at = p + 2 + f.0.len();
        let end = at + f.1.len();
        let head = prefix + bytes::le(f.0.len(), 2) + f.0;
        let tail = body_bytes(rest) + suffix;
        assert(buf =~= head + f.1 + tail);
        assert(buf.subrange(p, p + 2) =~= bytes::le(f.0.len(), 2));
        assert(buf.subrange(p + 2, at) =~= f.0);
        lemma_field_end_shift(head, f.1, tail);
        assert(buf.subrange(at, end) =~= f.1);
        assert(whole_field(fields[0]));
        assert forall|i: int| 0 <= i < rest.len() implies whole_field(#[trigger] rest[i]) by {
            assert(rest[i] == fields[i + 1]);
        }
        lemma_fields_from(head + f.1, rest, suffix);
        assert(buf =~= head + f.1 + body_bytes(rest) + suffix);
    }
}

/// Reading a payload gives back the fields that it was made of.
pub proof fn lemma_payload_round_trip(fields: Seq<RawField>)
    requires
        fields.len() <= u16::MAX,
        forall|i: int| 0 <= i < fields.len() ==> whole_field(#[trigger] fields[i]),
    ensures
        fields_of(payload_bytes(fields)) == Ok::<Seq<RawField>, Seq<char>>(fields),
{
    let buf = payload_bytes(fields);
    bytes::lemma_radix_small();
    bytes::lemma_le_len(fields.len(), 2);
    bytes::lemma_le_round_trip(fields.len(), 2);
    assert(buf.subrange(0, 2) =~= bytes::le(fields.len(), 2));
    let none = Seq::<u8>::empty();
    assert(buf =~= bytes::le(fields.len(), 2) + body_bytes(fields) + none);
    lemma_fields_from(bytes::le(fields.len(), 2), fields, none);
}

pub open spec fn no_field(fields: Seq<RawField>, name: Seq<u8>) -> bool {
    forall|i: int| 0 <= i < fields.len() ==> (#[trigger] fields[i]).0 != name
}

pub proof fn lemma_fields_renamed(fields: Seq<RawField>, from: Seq<u8>, to: Seq<u8>)
    ensures
        rewritten(fields, Some((from, to)), None).len() == fields.len(),
        forall|i: int|
            0 <= i < fields.len() ==> #[trigger] rewritten(fields, Some((from, to)), None)[i] == (
                renamed(fields[i].0, Some((from, to))),
                fields[i].1,
            ),
    decreases fields.len(),
{
    if fields.len() > 0 {
        lemma_fields_renamed(fields.drop_last(), from, to);
    }
}

/// Renaming a field there and back gives the payload again, where no field had
/// the other name.
pub proof fn lemma_rename_back(fields: Seq<RawField>, from: Seq<u8>, to: Seq<u8>)
    requires
        fields.len() <= u16::MAX,
        forall|i: int| 0 <= i < fields.len() ==> whole_field(#[trigger] fields[i]),
        no_field(fields, to),
        to.len() <= u16::MAX,
        valid_utf8(to),
    ensures
        ({
            let there = payload_bytes(rewritten(fields, Some((from, to)), None));
            &&& fields_of(there) is Ok
            &&& payload_bytes(rewritten(fields_of(there)->Ok_0, Some((to, from)), None)) == payload_bytes(fields)
        }),
{
    let there = rewritten(fields, Some((from, to)), None);
    lemma_fields_renamed(fields, from, to);
    assert forall|i: int| 0 <= i < there.len() implies whole_field(#[trigger] there[i]) by {
        assert(whole_field(fields[i]));
    }
    lemma_payload_round_trip(there);
    lemma_fields_renamed(there, to, from);
    assert(rewritten(there, Some((to, from)), None) =~= fields) by {
        assert forall|i: int| 0 <= i < fields.len() implies #[trigger] rewritten(there, Some((to, from)), None)[i] == fields[i] by {
            assert(there[i] == (renamed(fields[i].0, Some((from, to))), fields[i].1));
            assert(fields[i].0 != to);
        }
    }
}

/// A rewrite that names neither a field to rename nor one to remove keeps the
/// fields.
pub proof fn lemma_rewrite_nothing(fields: Seq<RawField>)
    ensures
        rewritten(fields, None, None) == fields,
    decreases fields.len(),
{
    if fields.len() > 0 {
        lemma_rewrite_nothing(fields.drop_last());
        assert(rewritten(fields, None, None) =~= fields);
    } else {
        assert(rewritten(fields, None, None) =~= fields);
    }
}

/// Renaming a column that no field has, or removing one, changes nothing; so a
/// rewrite that has been applied to a payload can be applied again.
pub proof fn lemma_rewrite_absent(fields: Seq<RawField>, rename: Option<(Seq<u8>, Seq<u8>)>, remove: Option<Seq<u8>>)
    requires
        forall|i: int| 0 <= i < fields.len() ==> renamed((#[trigger] fields[i]).0, rename) == fields[i].0 && remove != Some(
            fields[i].0,
        ),
    ensures
        rewritten(fields, rename, remove) == fields,
    decreases fields.len(),
{
    if fields.len() > 0 {
        let head = fields.drop_last();
        assert forall|i: int| 0 <= i < head.len() implies renamed((#[trigger] head[i]).0, rename) == head[i].0 && remove != Some(
            head[i].0,
        ) by {
            assert(head[i] == fields[i]);
        }
        lemma_rewrite_absent(head, rename, remove);
        assert(fields.last() == fields[fields.len() - 1]);
        assert(rewritten(fields, rename, remove) =~= fields);
    } else {
        assert(rewritten(fields, rename, remove) =~= fields);
    }
}

} // verus!
