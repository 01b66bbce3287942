//! Opening a database: from the files that the manifest names to the committed
//! state.

use crate::apply;
use crate::bytes::{self, push_all, push_be, text_from_utf8};
use crate::cow::CowMap;
use crate::error::{Error, ErrorView};
use crate::ids::{self, IdSource};
use crate::levels::SegmentMeta;
use crate::model;
use crate::paged::{self, PagedIndex, Row};
use crate::primary::{PrimaryDelta, PrimaryIdx, RunMetaView, Versions, PRIMARY_BASE_LEVEL};
use crate::publish::{self, contains_id, PreviousView};
use crate::record;
use crate::schema::{self, Catalog, TableSchema, TableView};
use crate::segment::{self, scan_segment, EntryView, SegmentScan};
use crate::staged::StagedView;
use crate::state::{Mark, State};
use crate::text::{self, decimal_text};
use crate::version::{self, encode_primary_entry, KindView, VKind, VersionEntry, VersionView};
use crate::visit::{self, Group, GroupView};
use crate::wal::{self, WalChangeView, WalMarkView, WalRecord, WalView};
use std::sync::Arc;
use vstd::prelude::*;
use vstd::slice::slice_subrange;
use vstd::string::*;
use vstd::utf8::*;

verus! {

// ---- Segments ---------------------------------------------------------------

/// What was read of a segment's file: its bytes, or why it cannot be read.
pub struct SegFile {
    pub name: String,
    pub data: Result<Arc<Vec<u8>>, String>,
}

pub open spec fn least(a: int, b: int) -> int {
    if a < b {
        a
    } else {
        b
    }
}

/// The part of a file that the manifest speaks of.
pub open spec fn part_of(meta: SegmentMeta, f: SegFile) -> Seq<u8> {
    let d = f.data->Ok_0@;
    d.subrange(0, least(meta.len as int, d.len() as int))
}

/// The sound entries of a file; one that cannot be read has none.
pub open spec fn sound_entries(meta: SegmentMeta, f: SegFile) -> Seq<EntryView> {
    match f.data {
        Ok(_) => segment::entries_from(part_of(meta, f), 0, meta.id).0,
        Err(_) => Seq::empty(),
    }
}

/// The file holds all that the manifest says, and every entry of it is sound.
pub open spec fn is_whole(meta: SegmentMeta, f: SegFile) -> bool {
    &&& f.data is Ok
    &&& f.data->Ok_0@.len() >= meta.len
    &&& segment::entries_from(part_of(meta, f), 0, meta.id).1 == meta.len
}

/// What is wrong with a file that is not whole.
pub open spec fn file_error(meta: SegmentMeta, f: SegFile) -> ErrorView {
    match f.data {
        Err(m) => ErrorView::Io(m@),
        Ok(d) => if d@.len() < meta.len {
            ErrorView::Corrupt(
                "segment "@ + f.name@ + " shorter than manifest ("@ + text::decimal(d@.len()) + " < "@ + text::decimal(
                    meta.len as nat,
                ) + ")"@,
            )
        } else {
            ErrorView::Corrupt("segment "@ + f.name@ + " failed validation"@)
        },
    }
}

pub open spec fn all_whole(metas: Seq<SegmentMeta>, files: Seq<SegFile>, n: int) -> bool {
    forall|i: int| 0 <= i < n ==> is_whole(metas[i], #[trigger] files[i])
}

fn scan_file(meta: &SegmentMeta, f: &SegFile) -> (r: SegmentScan)
    requires
        f.data is Ok,
    ensures
        ({
            let part = part_of(*meta, *f);
            &&& segment::entries_in(part, r.entries@) == segment::entries_from(part, 0, meta.id).0
            &&& r.valid_len == segment::entries_from(part, 0, meta.id).1
            &&& r.valid_len <= part.len()
            &&& part.len() == least(meta.len as int, f.data->Ok_0@.len() as int)
            &&& forall|i: int| 0 <= i < r.entries@.len() ==> segment::within(part, #[trigger] r.entries@[i])
        }),
{
    match &f.data {
        Ok(d) => {
            let total: usize = d.len();
            let end: usize = if meta.len < total as u64 {
                meta.len as usize
            } else {
                total
            };
            let part = slice_subrange(d.as_slice(), 0, end);
            assert(part@ =~= part_of(*meta, *f));
            scan_segment(part, meta.id)
        },
        Err(_) => {
            assert(false);
            SegmentScan { entries: Vec::new(), valid_len: 0, clean: true }
        },
    }
}

/// Check the files of a writable database; the error is that of the first one
/// that is not whole.
pub fn check_segments(metas: &Vec<SegmentMeta>, files: &Vec<SegFile>) -> (r: Result<(), Error>)
    requires
        metas@.len() == files@.len(),
    ensures
        r is Ok <==> all_whole(metas@, files@, files@.len() as int),
        r matches Err(e) ==> exists|i: int|
            0 <= i < files@.len() && all_whole(metas@, files@, i) && !is_whole(metas@[i], #[trigger] files@[i]) && e@ == file_error(
                metas@[i],
                files@[i],
            ),
{
    let mut i: usize = 0;
    while i < files.len()
        invariant
            metas@.len() == files@.len(),
            i <= files@.len(),
            all_whole(metas@, files@, i as int),
        decreases files@.len() - i,
    {
        let meta = &metas[i];
        let f = &files[i];
        let fault: Option<Error> = match &f.data {
            Err(m) => Some(Error::Io(m.clone())),
            Ok(d) => {
                let total: usize = d.len();
                if (total as u64) < meta.len {
                    let a = decimal_text(total as u64);
                    let b = decimal_text(meta.len);
                    Some(
                        Error::Corrupt(
                            "segment ".to_owned().concat(f.name.as_str()).concat(" shorter than manifest (").concat(
                                a.as_str(),
                            ).concat(" < ").concat(b.as_str()).concat(")"),
                        ),
                    )
                } else {
                    let scan = scan_file(meta, f);
                    if scan.valid_len as u64 != meta.len {
                        Some(Error::Corrupt("segment ".to_owned().concat(f.name.as_str()).concat(" failed validation")))
                    } else {
                        None
                    }
                }
            },
        };
        match fault {
            Some(e) => {
                assert(!is_whole(metas@[i as int], files@[i as int]));
                assert(e@ == file_error(metas@[i as int], files@[i as int]));
                return Err(e);
            },
            None => {},
        }
        i = i + 1;
    }
    Ok(())
}

/// Whether every file is whole.
pub fn segments_whole(metas: &Vec<SegmentMeta>, files: &Vec<SegFile>) -> (r: bool)
    requires
        metas@.len() == files@.len(),
    ensures
        r == all_whole(metas@, files@, files@.len() as int),
{
    match check_segments(metas, files) {
        Ok(_) => true,
        Err(_) => false,
    }
}

// ---- The versions in the segments -------------------------------------------

/// A version under its key.
pub struct Found {
    pub key: Vec<u8>,
    pub entry: VersionEntry,
}

#[verifier::ext_equal]
pub struct FoundView {
    pub key: Seq<u8>,
    pub entry: VersionView,
}

impl View for Found {
    type V = FoundView;

    open spec fn view(&self) -> FoundView {
        FoundView { key: self.key@, entry: self.entry@ }
    }
}

/// The entry is one that its table counts. While a schema change waits to be
/// finished every entry counts, for its table may have another name already.
pub open spec fn counts(tables: Seq<TableView>, pending: bool, e: EntryView) -> bool {
    ||| pending
    ||| valid_utf8(e.table) && (schema::table_of(tables, decode_utf8(e.table)) matches Some(t) && (t.epoch == 0 || e.version
        > t.epoch))
}

/// The version that an entry of a segment is.
pub open spec fn found_view(segment: u32, e: EntryView) -> FoundView {
    FoundView {
        key: version::key_of(e.table, e.id),
        entry: VersionView {
            version: e.version,
            kind: if e.tombstone {
                KindView::SegTombstone
            } else {
                KindView::SegPut { segment, payload_offset: e.payload_offset as u64, payload_len: e.payload.len() as u32 }
            },
        },
    }
}

/// The versions among the first `n` entries of a segment that count.
pub open spec fn found_in(list: Seq<EntryView>, tables: Seq<TableView>, pending: bool, segment: u32, n: int) -> Seq<FoundView>
    decreases n,
{
    if n <= 0 {
        Seq::empty()
    } else if counts(tables, pending, list[n - 1]) {
        found_in(list, tables, pending, segment, n - 1).push(found_view(segment, list[n - 1]))
    } else {
        found_in(list, tables, pending, segment, n - 1)
    }
}

/// The versions in the first `n` segments that count.
pub open spec fn found_all(metas: Seq<SegmentMeta>, files: Seq<SegFile>, tables: Seq<TableView>, pending: bool, n: int) -> Seq<FoundView>
    decreases n,
{
    if n <= 0 {
        Seq::empty()
    } else {
        let list = sound_entries(metas[n - 1], files[n - 1]);
        found_all(metas, files, tables, pending, n - 1) + found_in(list, tables, pending, metas[n - 1].id, list.len() as int)
    }
}

/// The memory that a version costs while it is resident.
pub open spec fn found_cost(s: Seq<FoundView>) -> int
    decreases s.len(),
{
    if s.len() == 0 {
        0
    } else {
        found_cost(s.drop_last()) + (s.last().key.len() - 4) + 160
    }
}

fn key_bytes(table: &Vec<u8>, id: &Vec<u8>) -> (r: Vec<u8>)
    requires
        table@.len() <= u32::MAX,
    ensures
        r@ == version::key_of(table@, id@),
{
    let mut key: Vec<u8> = Vec::new();
    push_be(&mut key, table.len() as u64, 4);
    push_all(&mut key, table.as_slice());
    push_all(&mut key, id.as_slice());
    assert(key@ =~= version::key_of(table@, id@));
    key
}

fn entry_counts(catalog: &Catalog, pending: bool, table: &Vec<u8>, version: u64) -> (r: bool)
    ensures
        forall|e: EntryView| e.table == table@ && e.version == version ==> r == #[trigger] counts(catalog@, pending, e),
{
    if pending {
        return true;
    }
    match text_from_utf8(table.as_slice()) {
        None => false,
        Some(name) => match catalog.table(name.as_str()) {
            None => false,
            Some(t) => t.epoch == 0 || version > t.epoch,
        },
    }
}

/// The text of an error that memory set a limit to.
pub open spec fn over_limit(before: Seq<char>, limit: usize, after: Seq<char>) -> ErrorView {
    ErrorView::MemoryLimit(before + text::decimal(limit as nat) + after)
}

/// How much of a limit is used: the sum, and the most it may be.
#[derive(Clone, Copy)]
struct Room {
    used: usize,
    limit: Option<usize>,
}

spec fn room_ok(room: Room, cost: int) -> bool {
    &&& room.used == record::capped(cost)
    &&& cost >= 0
    &&& room.limit matches Some(l) ==> room.used <= l
}

/// Take the versions of one segment; none of them where they do not fit.
fn collect_segment(meta: &SegmentMeta, f: &SegFile, catalog: &Catalog, pending: bool, room: &mut Room, out: &mut Vec<Found>) -> (r: bool)
    requires
        room_ok(*old(room), found_cost(model::views(old(out)@))),
        f.data is Ok,
    ensures
        ({
            let list = sound_entries(*meta, *f);
            let all = model::views(old(out)@) + found_in(list, catalog@, pending, meta.id, list.len() as int);
            &&& final(room).limit == old(room).limit
            &&& r ==> model::views(final(out)@) == all && room_ok(*final(room), found_cost(all))
            &&& r <==> (old(room).limit matches Some(l) ==> record::capped(found_cost(all)) <= l)
        }),
{
    let scan = scan_file(meta, f);
    let ghost part = part_of(*meta, *f);
    let ghost list = sound_entries(*meta, *f);
    let ghost start = model::views(out@);
    let ghost n = list.len() as int;
    assert(list == segment::entries_in(part, scan.entries@));
    let mut i: usize = 0;
    assert(start + Seq::<FoundView>::empty() =~= start);
    while i < scan.entries.len()
        invariant
            f.data is Ok,
            part == part_of(*meta, *f),
            list == segment::entries_in(part, scan.entries@),
            n == list.len(),
            i <= scan.entries@.len(),
            forall|k: int| 0 <= k < scan.entries@.len() ==> segment::within(part, #[trigger] scan.entries@[k]),
            room.limit == old(room).limit,
            model::views(out@) == start + found_in(list, catalog@, pending, meta.id, i as int),
            room_ok(*room, found_cost(model::views(out@))),
            list == sound_entries(*meta, *f),
            start == model::views(old(out)@),
        decreases scan.entries@.len() - i,
    {
        let e = &scan.entries[i];
        assert(list[i as int] == segment::entry_in(part, *e));
        assert(segment::within(part, scan.entries@[i as int]));
        if entry_counts(catalog, pending, &e.table, e.version) {
            assert(counts(catalog@, pending, list[i as int]));
            let key = key_bytes(&e.table, &e.id);
            let entry = VersionEntry {
                version: e.version,
                kind: if e.tombstone {
                    VKind::SegTombstone
                } else {
                    VKind::SegPut { segment: meta.id, payload_offset: e.payload_offset as u64, payload_len: e.payload_len as u32 }
                },
            };
            let ghost before = model::views(out@);
            let ghost fv = found_view(meta.id, list[i as int]);
            room.used = room.used.saturating_add(e.table.len()).saturating_add(e.id.len()).saturating_add(160);
            let found = Found { key, entry };
            assert(found@ == fv);
            out.push(found);
            proof {
                let now = model::views(out@);
                assert(now =~= before.push(fv));
                assert(now.drop_last() =~= before);
                assert(now =~= start + found_in(list, catalog@, pending, meta.id, i + 1));
                bytes::lemma_be_len(e.table@.len(), 4);
                assert(room.used == record::capped(found_cost(now)));
            }
            let over: bool = match room.limit {
                Some(l) => room.used > l,
                None => false,
            };
            if over {
                proof {
                    lemma_cost_grows(list, catalog@, pending, meta.id, start, i + 1, n);
                }
                return false;
            }
        } else {
            assert(!counts(catalog@, pending, list[i as int]));
        }
        i = i + 1;
    }
    true
}

proof fn lemma_cost_grows(list: Seq<EntryView>, tables: Seq<TableView>, pending: bool, segment: u32, start: Seq<FoundView>, a: int, b: int)
    requires
        0 <= a <= b,
    ensures
        found_cost(start + found_in(list, tables, pending, segment, a)) <= found_cost(
            start + found_in(list, tables, pending, segment, b),
        ),
    decreases b - a,
{
    if a < b {
        lemma_cost_grows(list, tables, pending, segment, start, a, b - 1);
        let s = start + found_in(list, tables, pending, segment, b - 1);
        let t = start + found_in(list, tables, pending, segment, b);
        if counts(tables, pending, list[b - 1]) {
            assert(t.drop_last() =~= s);
            bytes::lemma_be_len(list[b - 1].table.len(), 4);
        }
    }
}

proof fn lemma_more_cost(a: Seq<FoundView>, b: Seq<FoundView>)
    requires
        forall|i: int| 0 <= i < b.len() ==> (#[trigger] b[i]).key.len() >= 4,
    ensures
        found_cost(a) <= found_cost(a + b),
    decreases b.len(),
{
    if b.len() > 0 {
        lemma_more_cost(a, b.drop_last());
        assert((a + b).drop_last() =~= a + b.drop_last());
    } else {
        assert(a + b =~= a);
    }
}

/// Keys have at least the length of the table's name.
pub proof fn lemma_found_keys(metas: Seq<SegmentMeta>, files: Seq<SegFile>, tables: Seq<TableView>, pending: bool, n: int)
    ensures
        forall|i: int|
            0 <= i < found_all(metas, files, tables, pending, n).len() ==> (#[trigger] found_all(metas, files, tables, pending, n)[i]).key.len()
                >= 4,
    decreases n,
{
    if n > 0 {
        lemma_found_keys(metas, files, tables, pending, n - 1);
        let list = sound_entries(metas[n - 1], files[n - 1]);
        lemma_found_in_keys(list, tables, pending, metas[n - 1].id, list.len() as int);
    }
}

proof fn lemma_found_in_keys(list: Seq<EntryView>, tables: Seq<TableView>, pending: bool, segment: u32, n: int)
    ensures
        forall|i: int|
            0 <= i < found_in(list, tables, pending, segment, n).len() ==> (#[trigger] found_in(list, tables, pending, segment, n)[i]).key.len()
                >= 4,
    decreases n,
{
    if n > 0 {
        lemma_found_in_keys(list, tables, pending, segment, n - 1);
        bytes::lemma_be_len(list[n - 1].table.len(), 4);
    }
}

proof fn lemma_all_cost_grows(metas: Seq<SegmentMeta>, files: Seq<SegFile>, tables: Seq<TableView>, pending: bool, a: int, b: int)
    requires
        0 <= a <= b,
    ensures
        found_cost(found_all(metas, files, tables, pending, a)) <= found_cost(found_all(metas, files, tables, pending, b)),
    decreases b - a,
{
    if a < b {
        lemma_all_cost_grows(metas, files, tables, pending, a, b - 1);
        let list = sound_entries(metas[b - 1], files[b - 1]);
        lemma_found_in_keys(list, tables, pending, metas[b - 1].id, list.len() as int);
        lemma_more_cost(
            found_all(metas, files, tables, pending, b - 1),
            found_in(list, tables, pending, metas[b - 1].id, list.len() as int),
        );
    }
}

/// Take the versions of all segments that count; nothing where they cost more
/// than the limit.
pub fn collect_found(
    metas: &Vec<SegmentMeta>,
    files: &Vec<SegFile>,
    catalog: &Catalog,
    pending: bool,
    limit: Option<usize>,
) -> (r: Option<Vec<Found>>)
    requires
        metas@.len() == files@.len(),
    ensures
        ({
            let all = found_all(metas@, files@, catalog@, pending, files@.len() as int);
            &&& r is Some <==> (limit matches Some(l) ==> record::capped(found_cost(all)) <= l)
            &&& r matches Some(found) ==> model::views(found@) == all
        }),
{
    let ghost n = files@.len() as int;
    let mut out: Vec<Found> = Vec::new();
    let mut room = Room { used: 0, limit };
    let mut i: usize = 0;
    assert(model::views(out@) =~= Seq::<FoundView>::empty());
    while i < files.len()
        invariant
            metas@.len() == files@.len(),
            n == files@.len(),
            i <= files@.len(),
            room.limit == limit,
            model::views(out@) == found_all(metas@, files@, catalog@, pending, i as int),
            room_ok(room, found_cost(model::views(out@))),
        decreases files@.len() - i,
    {
        let meta = &metas[i];
        let f = &files[i];
        match &f.data {
            Err(_) => {
                proof {
                    let all = found_all(metas@, files@, catalog@, pending, i as int);
                    assert(sound_entries(metas@[i as int], files@[i as int]) =~= Seq::<EntryView>::empty());
                    assert(all + Seq::<FoundView>::empty() =~= all);
                }
            },
            Ok(_) => {
                if !collect_segment(meta, f, catalog, pending, &mut room, &mut out) {
                    proof {
                        lemma_all_cost_grows(metas@, files@, catalog@, pending, i + 1, n);
                    }
                    return None;
                }
            },
        }
        i = i + 1;
    }
    Some(out)
}

// ---- The primary index ------------------------------------------------------

pub open spec fn found_rows(s: Seq<FoundView>) -> Seq<(Seq<u8>, Seq<u8>)> {
    Seq::new(s.len(), |i: int| (s[i].key, version::entry_bytes(s[i].entry)))
}

/// Versions pushed under their keys, one after another.
pub open spec fn pushed(delta: Map<Seq<u8>, Seq<VersionView>>, s: Seq<FoundView>) -> Map<Seq<u8>, Seq<VersionView>>
    decreases s.len(),
{
    if s.len() == 0 {
        delta
    } else {
        apply::push_entry(pushed(delta, s.drop_last()), s.last().key, s.last().entry)
    }
}

/// No version is resident.
pub open spec fn all_stored(s: Seq<FoundView>) -> bool {
    forall|i: int| 0 <= i < s.len() ==> !(#[trigger] s[i]).entry.kind.is_resident()
}

/// What stands in segments is not resident.
pub proof fn lemma_found_stored(metas: Seq<SegmentMeta>, files: Seq<SegFile>, tables: Seq<TableView>, pending: bool, n: int)
    ensures
        all_stored(found_all(metas, files, tables, pending, n)),
    decreases n,
{
    if n > 0 {
        lemma_found_stored(metas, files, tables, pending, n - 1);
        let list = sound_entries(metas[n - 1], files[n - 1]);
        lemma_found_in_stored(list, tables, pending, metas[n - 1].id, list.len() as int);
    }
}

proof fn lemma_found_in_stored(list: Seq<EntryView>, tables: Seq<TableView>, pending: bool, segment: u32, n: int)
    ensures
        all_stored(found_in(list, tables, pending, segment, n)),
    decreases n,
{
    if n > 0 {
        lemma_found_in_stored(list, tables, pending, segment, n - 1);
    }
}

/// One run with all versions.
fn build_run(found: &Vec<Found>, generation: u64) -> (r: PagedIndex)
    requires
        all_stored(model::views(found@)),
    ensures
        r.wf(),
        r.version() == generation,
        r.rows().to_multiset() == found_rows(model::views(found@)).to_multiset(),
{
    let ghost v = model::views(found@);
    let mut rows: Vec<Row> = Vec::new();
    let mut i: usize = 0;
    assert(paged::row_views(rows@) =~= found_rows(v).subrange(0, 0));
    while i < found.len()
        invariant
            v == model::views(found@),
            all_stored(v),
            i <= found@.len(),
            paged::row_views(rows@) == found_rows(v).subrange(0, i as int),
        decreases found@.len() - i,
    {
        let f = &found[i];
        assert(v[i as int] == f@);
        match encode_primary_entry(&f.entry) {
            Ok(value) => {
                let ghost before = paged::row_views(rows@);
                rows.push(Row { key: bytes::copy_of(f.key.as_slice()), value });
                assert(paged::row_views(rows@) =~= before.push((f@.key, version::entry_bytes(f@.entry))));
                assert(paged::row_views(rows@) =~= found_rows(v).subrange(0, i + 1));
            },
            Err(_) => {
                assert(false);
            },
        }
        i = i + 1;
    }
    assert(found_rows(v).subrange(0, i as int) =~= found_rows(v));
    PagedIndex::from_rows(paged::sort_rows(&rows), generation)
}

/// All versions, resident.
fn build_delta(found: Vec<Found>) -> (r: PrimaryDelta)
    ensures
        r.wf(),
        r@ == pushed(Map::empty(), model::views(found@)),
{
    let ghost v = model::views(found@);
    let mut waiting: Vec<Found> = Vec::new();
    let mut left = found;
    while left.len() > 0
        invariant
            left@.len() + waiting@.len() == v.len(),
            forall|k: int| 0 <= k < left@.len() ==> (#[trigger] left@[k])@ == v[k],
            forall|k: int| 0 <= k < waiting@.len() ==> (#[trigger] waiting@[k])@ == v[v.len() - 1 - k],
        decreases left@.len(),
    {
        match left.pop() {
            Some(f) => {
                waiting.push(f);
            },
            None => {},
        }
    }
    let mut delta: PrimaryDelta = CowMap::new();
    let ghost mut n: int = 0;
    assert(v.subrange(0, 0) =~= Seq::<FoundView>::empty());
    while waiting.len() > 0
        invariant
            delta.wf(),
            n + waiting@.len() == v.len(),
            0 <= n,
            forall|k: int| 0 <= k < waiting@.len() ==> (#[trigger] waiting@[k])@ == v[v.len() - 1 - k],
            delta@ == pushed(Map::empty(), v.subrange(0, n)),
        decreases waiting@.len(),
    {
        match waiting.pop() {
            None => {},
            Some(f) => {
                assert(f@ == v[n]);
                let Found { key, entry } = f;
                let ghost before = delta@;
                {
                    let fresh = Versions { list: Vec::new() };
                    assert(fresh@ =~= Seq::<VersionView>::empty());
                    let slot = delta.get_or_insert(key, fresh);
                    let ghost old_list = slot@;
                    slot.list.push(entry);
                    assert(slot@ =~= old_list.push(entry@));
                }
                proof {
                    let t = v.subrange(0, n + 1);
                    assert(t.drop_last() =~= v.subrange(0, n));
                    assert(t.last() == v[n]);
                    n = n + 1;
                }
            },
        }
    }
    assert(v.subrange(0, n) =~= v);
    delta
}

/// How the primary index comes about.
pub struct PrimarySource {
    pub read_only: bool,
    /// A schema change waits to be finished.
    pub pending_ddl: bool,
    /// What the index has to be of.
    pub generation: u64,
    /// The memory that a resident index may take.
    pub limit: usize,
}

pub open spec fn missing_index(limit: usize) -> ErrorView {
    over_limit(
        "read-only recovery needs more than "@,
        limit,
        " bytes for a missing/stale primary index; open writable once to rebuild its mmap index or raise memory.index_delta_pool_bytes"@,
    )
}

pub open spec fn damaged_index(limit: usize) -> ErrorView {
    over_limit(
        "read-only recovery needs more than "@,
        limit,
        " bytes for a damaged primary index; open writable from a repaired copy or raise memory.index_delta_pool_bytes"@,
    )
}

/// The primary index with which a database is opened.
pub struct OpenedPrimary {
    pub index: PrimaryIdx,
    /// It was made anew and is to be written to disk.
    pub rebuilt: bool,
}

/// The index is made from what the segments hold.
pub open spec fn rebuilt_from(all: Seq<FoundView>, generation: u64, index: PrimaryIdx) -> bool {
    &&& index.wf()
    &&& index.generation == generation
    &&& index.delta@ == Map::<Seq<u8>, Seq<VersionView>>::empty()
    &&& index.frozen is None
    &&& index.runs@.len() == 1
    &&& index.runs@[0].meta@ == (RunMetaView { file: "primary.pidx"@, level: PRIMARY_BASE_LEVEL, bytes: 0, generation })
    &&& index.runs@[0].index.rows().to_multiset() == found_rows(all).to_multiset()
}

pub open spec fn resident_from(all: Seq<FoundView>, index: PrimaryIdx) -> bool {
    &&& index.wf()
    &&& index.generation == 0
    &&& index.runs@.len() == 0
    &&& index.frozen is None
    &&& index.delta@ == pushed(Map::empty(), all)
}

/// How a primary index is found: what it is, or why there is none.
pub open spec fn primary_outcome(
    src: PrimarySource,
    tables: Seq<TableView>,
    metas: Seq<SegmentMeta>,
    files: Seq<SegFile>,
    stored: Option<PrimaryIdx>,
    r: Result<OpenedPrimary, Error>,
) -> bool {
    let n = files.len() as int;
    let whole = all_whole(metas, files, n);
    let all = found_all(metas, files, tables, src.pending_ddl, n);
    let fits = record::capped(found_cost(all)) <= src.limit;
    if !src.read_only && !whole {
        r is Err && exists|i: int|
            0 <= i < n && all_whole(metas, files, i) && !is_whole(metas[i], #[trigger] files[i]) && r->Err_0@ == file_error(
                metas[i],
                files[i],
            )
    } else if stored is Some && whole {
        r matches Ok(p) && Some(p.index) == stored && !p.rebuilt
    } else if !src.read_only {
        r matches Ok(p) && p.rebuilt && rebuilt_from(all, src.generation, p.index)
    } else if !fits {
        r is Err && r->Err_0@ == (if stored is Some {
            damaged_index(src.limit)
        } else {
            missing_index(src.limit)
        })
    } else {
        r matches Ok(p) && !p.rebuilt && resident_from(all, p.index)
    }
}

/// Find the primary index. A stored one serves where every segment is whole. A
/// writable database needs whole segments, and gets a new index where none is
/// stored. One that is opened for reading shows what is sound of its segments.
pub fn open_primary(
    src: &PrimarySource,
    catalog: &Catalog,
    metas: &Vec<SegmentMeta>,
    files: &Vec<SegFile>,
    stored: Option<PrimaryIdx>,
) -> (r: Result<OpenedPrimary, Error>)
    requires
        metas@.len() == files@.len(),
        stored matches Some(index) ==> index.wf(),
    ensures
        primary_outcome(*src, catalog@, metas@, files@, stored, r),
{
    let whole: bool = match check_segments(metas, files) {
        Ok(_) => true,
        Err(e) => {
            if !src.read_only {
                return Err(e);
            }
            false
        },
    };
    let had: bool = stored.is_some();
    match stored {
        Some(index) => {
            if whole {
                return Ok(OpenedPrimary { index, rebuilt: false });
            }
        },
        None => {},
    }
    proof {
        lemma_found_stored(metas@, files@, catalog@, src.pending_ddl, files@.len() as int);
    }
    if src.read_only {
        match collect_found(metas, files, catalog, src.pending_ddl, Some(src.limit)) {
            Some(found) => Ok(OpenedPrimary { index: PrimaryIdx::resident(build_delta(found)), rebuilt: false }),
            None => {
                let n = decimal_text(src.limit as u64);
                let head = "read-only recovery needs more than ".to_owned().concat(n.as_str());
                if had {
                    Err(
                        Error::MemoryLimit(
                            head.concat(
                                " bytes for a damaged primary index; open writable from a repaired copy or raise memory.index_delta_pool_bytes",
                            ),
                        ),
                    )
                } else {
                    Err(
                        Error::MemoryLimit(
                            head.concat(
                                " bytes for a missing/stale primary index; open writable once to rebuild its mmap index or raise memory.index_delta_pool_bytes",
                            ),
                        ),
                    )
                }
            },
        }
    } else {
        match collect_found(metas, files, catalog, src.pending_ddl, None) {
            Some(found) => {
                let run = build_run(&found, src.generation);
                let index = PrimaryIdx::paged_named(run, "primary.pidx".to_owned(), PRIMARY_BASE_LEVEL, 0, src.generation);
                Ok(OpenedPrimary { index, rebuilt: true })
            },
            None => {
                assert(false);
                Err(Error::ReadOnly)
            },
        }
    }
}

// ---- The log ----------------------------------------------------------------

pub open spec fn change_entry(version: u64, c: WalChangeView) -> VersionView {
    VersionView {
        version,
        kind: match c.payload {
            Some(p) => KindView::MemPut(p),
            None => KindView::MemTombstone,
        },
    }
}

pub open spec fn change_key(c: WalChangeView) -> Seq<u8> {
    version::key_of(encode_utf8(c.table), encode_utf8(c.id))
}

/// The resident versions after the first `n` changes of a commit.
pub open spec fn changes_replayed(delta: Map<Seq<u8>, Seq<VersionView>>, version: u64, s: Seq<WalChangeView>, n: int) -> Map<
    Seq<u8>,
    Seq<VersionView>,
>
    decreases n,
{
    if n <= 0 {
        delta
    } else {
        apply::push_entry(
            changes_replayed(delta, version, s, n - 1),
            change_key(s[n - 1]),
            change_entry(version, s[n - 1]),
        )
    }
}

pub open spec fn change_bytes(s: Seq<WalChangeView>, n: int) -> int
    decreases n,
{
    if n <= 0 {
        0
    } else {
        change_bytes(s, n - 1) + (match s[n - 1].payload {
            Some(p) => p.len() as int,
            None => 0,
        })
    }
}

/// Where a replay stands.
#[verifier::ext_equal]
pub struct ReplayView {
    pub delta: Map<Seq<u8>, Seq<VersionView>>,
    pub committed: u64,
    pub bytes: int,
}

/// One commit of the log: it is skipped where it is not above what is there.
pub open spec fn record_replayed(at: ReplayView, rec: WalView) -> ReplayView {
    if rec.version <= at.committed {
        at
    } else {
        ReplayView {
            delta: changes_replayed(at.delta, rec.version, rec.changes, rec.changes.len() as int),
            committed: rec.version,
            bytes: at.bytes + change_bytes(rec.changes, rec.changes.len() as int),
        }
    }
}

/// The first `n` commits of the log.
pub open spec fn replayed(start: ReplayView, log: Seq<WalView>, n: int) -> ReplayView
    decreases n,
{
    if n <= 0 {
        start
    } else {
        record_replayed(replayed(start, log, n - 1), log[n - 1])
    }
}

/// The names of the log fit the keys.
pub open spec fn log_fits(log: Seq<WalView>) -> bool {
    forall|i: int, j: int|
        0 <= i < log.len() && 0 <= j < log[i].changes.len() ==> encode_utf8((#[trigger] log[i].changes[j]).table).len() <= u32::MAX
}

fn replay_record(index: &mut PrimaryIdx, rec: &WalRecord, bytes: u64, Ghost(b): Ghost<int>) -> (r: u64)
    requires
        old(index).wf(),
        forall|j: int| 0 <= j < rec@.changes.len() ==> encode_utf8((#[trigger] rec@.changes[j]).table).len() <= u32::MAX,
        b >= 0,
        bytes == segment::capped64(b),
    ensures
        final(index).wf(),
        final(index).generation == old(index).generation,
        final(index).runs == old(index).runs,
        final(index).frozen == old(index).frozen,
        final(index).delta@ == changes_replayed(old(index).delta@, rec@.version, rec@.changes, rec@.changes.len() as int),
        r == segment::capped64(b + change_bytes(rec@.changes, rec@.changes.len() as int)),
        change_bytes(rec@.changes, rec@.changes.len() as int) >= 0,
{
    let ghost start = index.delta@;
    let ghost list = rec@.changes;
    let mut total: u64 = bytes;
    let mut i: usize = 0;
    while i < rec.changes.len()
        invariant
            index.wf(),
            index.generation == old(index).generation,
            index.runs == old(index).runs,
            index.frozen == old(index).frozen,
            list == rec@.changes,
            list.len() == rec.changes@.len(),
            forall|j: int| 0 <= j < list.len() ==> encode_utf8((#[trigger] list[j]).table).len() <= u32::MAX,
            i <= list.len(),
            b >= 0,
            change_bytes(list, i as int) >= 0,
            total == segment::capped64(b + change_bytes(list, i as int)),
            index.delta@ == changes_replayed(start, rec.version, list, i as int),
        decreases list.len() - i,
    {
        let c = &rec.changes[i];
        assert(list[i as int] == c@);
        let kind = match &c.payload {
            Some(p) => {
                total = total.saturating_add(p.len() as u64);
                VKind::MemPut(crate::cow::share(p))
            },
            None => VKind::MemTombstone,
        };
        let entry = VersionEntry { version: rec.version, kind };
        assert(entry@ == change_entry(rec.version, list[i as int]));
        index.push(c.table.as_str(), c.id.as_str(), entry);
        i = i + 1;
    }
    total
}

/// Where a replay came to.
pub struct Replayed {
    pub committed_version: u64,
    /// What the commits of the log hold, in bytes.
    pub memtable_bytes: u64,
}

/// Bring the index to the end of the log. Commits that the segments hold are
/// skipped, so that replaying again changes nothing.
pub fn replay_log(index: &mut PrimaryIdx, committed: u64, log: &Vec<WalRecord>) -> (r: Replayed)
    requires
        old(index).wf(),
        log_fits(model::views(log@)),
    ensures
        final(index).wf(),
        final(index).generation == old(index).generation,
        final(index).runs == old(index).runs,
        final(index).frozen == old(index).frozen,
        ({
            let start = ReplayView { delta: old(index).delta@, committed, bytes: 0 };
            let end = replayed(start, model::views(log@), log@.len() as int);
            &&& final(index).delta@ == end.delta
            &&& r.committed_version == end.committed
            &&& r.memtable_bytes == segment::capped64(end.bytes)
        }),
{
    let ghost v = model::views(log@);
    let ghost start = ReplayView { delta: index.delta@, committed, bytes: 0 };
    let mut at: u64 = committed;
    let mut bytes: u64 = 0;
    let mut i: usize = 0;
    while i < log.len()
        invariant
            v == model::views(log@),
            log_fits(v),
            i <= log@.len(),
            index.wf(),
            index.generation == old(index).generation,
            index.runs == old(index).runs,
            index.frozen == old(index).frozen,
            index.delta@ == replayed(start, v, i as int).delta,
            at == replayed(start, v, i as int).committed,
            replayed(start, v, i as int).bytes >= 0,
            bytes == segment::capped64(replayed(start, v, i as int).bytes),
        decreases log@.len() - i,
    {
        let rec = &log[i];
        assert(v[i as int] == rec@);
        if rec.version > at {
            assert forall|j: int| 0 <= j < rec@.changes.len() implies encode_utf8((#[trigger] rec@.changes[j]).table).len()
                <= u32::MAX by {
                assert(v[i as int].changes[j] == rec@.changes[j]);
            }
            bytes = replay_record(index, rec, bytes, Ghost(replayed(start, v, i as int).bytes));
            at = rec.version;
        }
        i = i + 1;
    }
    Replayed { committed_version: at, memtable_bytes: bytes }
}

/// A replay that has come at least as far as every commit of a log is not
/// changed by it.
pub proof fn lemma_replay_idle(at: ReplayView, log: Seq<WalView>, n: int)
    requires
        0 <= n <= log.len(),
        forall|i: int| 0 <= i < n ==> (#[trigger] log[i]).version <= at.committed,
    ensures
        replayed(at, log, n) == at,
    decreases n,
{
    if n > 0 {
        lemma_replay_idle(at, log, n - 1);
    }
}

proof fn lemma_replay_reaches(start: ReplayView, log: Seq<WalView>, n: int)
    requires
        0 <= n <= log.len(),
    ensures
        replayed(start, log, n).committed >= start.committed,
        forall|i: int| 0 <= i < n ==> (#[trigger] log[i]).version <= replayed(start, log, n).committed,
    decreases n,
{
    if n > 0 {
        lemma_replay_reaches(start, log, n - 1);
    }
}

/// Replaying a log again changes nothing.
pub proof fn lemma_replay_twice(start: ReplayView, log: Seq<WalView>)
    ensures
        replayed(replayed(start, log, log.len() as int), log, log.len() as int) == replayed(start, log, log.len() as int),
{
    lemma_replay_reaches(start, log, log.len() as int);
    lemma_replay_idle(replayed(start, log, log.len() as int), log, log.len() as int);
}

// ---- Identity marks in the log ----------------------------------------------

/// The marks with one more: the greater of the two stays.
pub open spec fn mark_raised(marks: Map<Seq<u8>, Mark>, m: WalMarkView) -> Map<Seq<u8>, Mark> {
    let key = encode_utf8(m.table);
    if !marks.contains_key(key) || marks[key].value < m.value {
        marks.insert(key, Mark { value: m.value })
    } else {
        marks
    }
}

/// The marks after the first `n` of a commit.
pub open spec fn marks_raised(marks: Map<Seq<u8>, Mark>, s: Seq<WalMarkView>, n: int) -> Map<Seq<u8>, Mark>
    decreases n,
{
    if n <= 0 {
        marks
    } else {
        mark_raised(marks_raised(marks, s, n - 1), s[n - 1])
    }
}

/// How far the first `n` commits of a log reach.
pub open spec fn reached(committed: u64, log: Seq<WalView>, n: int) -> u64
    decreases n,
{
    if n <= 0 {
        committed
    } else {
        let at = reached(committed, log, n - 1);
        if log[n - 1].version > at {
            log[n - 1].version
        } else {
            at
        }
    }
}

/// The marks after the first `n` commits of a log, of which those are skipped
/// that a replay skips.
pub open spec fn marks_replayed(marks: Map<Seq<u8>, Mark>, committed: u64, log: Seq<WalView>, n: int) -> Map<Seq<u8>, Mark>
    decreases n,
{
    if n <= 0 {
        marks
    } else {
        let before = marks_replayed(marks, committed, log, n - 1);
        if log[n - 1].version > reached(committed, log, n - 1) {
            marks_raised(before, log[n - 1].marks, log[n - 1].marks.len() as int)
        } else {
            before
        }
    }
}

fn raise_marks(marks: &mut CowMap<String, Mark>, rec: &WalRecord)
    requires
        old(marks).wf(),
    ensures
        final(marks).wf(),
        final(marks)@ == marks_raised(old(marks)@, rec@.marks, rec@.marks.len() as int),
{
    let ghost start = marks@;
    let ghost s = rec@.marks;
    let mut i: usize = 0;
    while i < rec.marks.len()
        invariant
            marks.wf(),
            s == rec@.marks,
            s.len() == rec.marks@.len(),
            i <= s.len(),
            marks@ == marks_raised(start, s, i as int),
        decreases s.len() - i,
    {
        let m = &rec.marks[i];
        assert(s[i as int] == m@);
        let higher: bool = match marks.get(m.table.as_str().as_bytes()) {
            Some(have) => have.value < m.value,
            None => true,
        };
        if higher {
            let _ = marks.insert(m.table.clone(), Mark { value: m.value });
        }
        i = i + 1;
    }
}

/// Bring the identity marks to the end of the log: of each table the greatest
/// that the manifest or a replayed commit has.
pub fn replay_marks(marks: &mut CowMap<String, Mark>, committed: u64, log: &Vec<WalRecord>)
    requires
        old(marks).wf(),
    ensures
        final(marks).wf(),
        final(marks)@ == marks_replayed(old(marks)@, committed, model::views(log@), log@.len() as int),
{
    let ghost v = model::views(log@);
    let ghost start = marks@;
    let mut at: u64 = committed;
    let mut i: usize = 0;
    while i < log.len()
        invariant
            marks.wf(),
            v == model::views(log@),
            i <= log@.len(),
            at == reached(committed, v, i as int),
            marks@ == marks_replayed(start, committed, v, i as int),
        decreases log@.len() - i,
    {
        let rec = &log[i];
        assert(v[i as int] == rec@);
        if rec.version > at {
            raise_marks(marks, rec);
            at = rec.version;
        }
        i = i + 1;
    }
}

/// A mark of a replayed commit.
pub open spec fn marks_at(committed: u64, log: Seq<WalView>, i: int, j: int) -> bool {
    0 <= i < log.len() && 0 <= j < log[i].marks.len() && log[i].version > reached(committed, log, i)
}

/// A table has a mark that is no less.
pub open spec fn marked(marks: Map<Seq<u8>, Mark>, table: Seq<char>, value: i64) -> bool {
    marks.contains_key(encode_utf8(table)) && marks[encode_utf8(table)].value >= value
}

proof fn lemma_marks_raised(marks: Map<Seq<u8>, Mark>, s: Seq<WalMarkView>, n: int, table: Seq<char>, value: i64)
    requires
        0 <= n <= s.len(),
        marked(marks, table, value) || exists|j: int| 0 <= j < n && (#[trigger] s[j]).table == table && s[j].value == value,
    ensures
        marked(marks_raised(marks, s, n), table, value),
    decreases n,
{
    if n > 0 && !(s[n - 1].table == table && s[n - 1].value == value) {
        if !marked(marks, table, value) {
            let j = choose|j: int| 0 <= j < n && (#[trigger] s[j]).table == table && s[j].value == value;
            assert(j < n - 1);
        }
        lemma_marks_raised(marks, s, n - 1, table, value);
    }
}

/// After a replay every table has a mark no less than the manifest's and that of
/// every replayed commit: no identity value that was given out comes again.
pub proof fn lemma_marks_greatest(marks: Map<Seq<u8>, Mark>, committed: u64, log: Seq<WalView>, n: int, table: Seq<char>, value: i64)
    requires
        0 <= n <= log.len(),
        marked(marks, table, value) || exists|i: int, j: int|
            i < n && #[trigger] marks_at(committed, log, i, j) && log[i].marks[j].table == table && log[i].marks[j].value == value,
    ensures
        marked(marks_replayed(marks, committed, log, n), table, value),
    decreases n,
{
    if n > 0 {
        let rec = log[n - 1];
        let before = marks_replayed(marks, committed, log, n - 1);
        let k = rec.marks.len() as int;
        if marked(marks, table, value) {
            lemma_marks_greatest(marks, committed, log, n - 1, table, value);
            lemma_marks_raised(before, rec.marks, k, table, value);
        } else {
            let (i, j) = choose|i: int, j: int|
                i < n && #[trigger] marks_at(committed, log, i, j) && log[i].marks[j].table == table && log[i].marks[j].value == value;
            if i < n - 1 {
                lemma_marks_greatest(marks, committed, log, n - 1, table, value);
                lemma_marks_raised(before, rec.marks, k, table, value);
            } else {
                assert(rec.marks[j].table == table);
                lemma_marks_raised(before, rec.marks, k, table, value);
            }
        }
    }
}

// ---- What the log means -----------------------------------------------------

proof fn lemma_changes_join(delta: Map<Seq<u8>, Seq<VersionView>>, version: u64, a: Seq<WalChangeView>, b: Seq<WalChangeView>, n: int)
    requires
        0 <= n <= b.len(),
    ensures
        changes_replayed(delta, version, a + b, a.len() + n) == changes_replayed(
            changes_replayed(delta, version, a, a.len() as int),
            version,
            b,
            n,
        ),
    decreases n,
{
    let c = a + b;
    if n > 0 {
        lemma_changes_join(delta, version, a, b, n - 1);
        assert(c[a.len() + n - 1] == b[n - 1]);
    } else {
        lemma_changes_prefix(delta, version, a, c, a.len() as int);
    }
}

proof fn lemma_changes_prefix(delta: Map<Seq<u8>, Seq<VersionView>>, version: u64, a: Seq<WalChangeView>, b: Seq<WalChangeView>, n: int)
    requires
        n <= a.len() <= b.len(),
        forall|i: int| 0 <= i < a.len() ==> a[i] == #[trigger] b[i],
    ensures
        changes_replayed(delta, version, a, n) == changes_replayed(delta, version, b, n),
    decreases n,
{
    if n > 0 {
        lemma_changes_prefix(delta, version, a, b, n - 1);
        assert(a[n - 1] == b[n - 1]);
    }
}

proof fn lemma_table_logged(
    delta: Map<Seq<u8>, Seq<VersionView>>,
    done: Seq<apply::Step>,
    t: StagedView,
    p: Seq<PreviousView>,
    version: u64,
    n: int,
)
    requires
        0 <= n <= t.changes.len(),
    ensures
        publish::delta_after(delta, done + publish::table_steps(t, p, n), version) == changes_replayed(
            publish::delta_after(delta, done, version),
            version,
            wal::table_changes(t, n),
            n,
        ),
        wal::table_changes(t, n).len() == n,
    decreases n,
{
    let list = done + publish::table_steps(t, p, n);
    if n > 0 {
        lemma_table_logged(delta, done, t, p, version, n - 1);
        let rest = done + publish::table_steps(t, p, n - 1);
        assert(list.drop_last() =~= rest);
        assert(list.last() == publish::step_of(t, p, n - 1));
        let a = wal::table_changes(t, n - 1);
        let b = wal::table_changes(t, n);
        lemma_changes_prefix(publish::delta_after(delta, done, version), version, a, b, n - 1);
        assert(b[n - 1] == (WalChangeView { table: t.name, id: t.changes[n - 1].id, payload: t.changes[n - 1].payload }));
    } else {
        assert(list =~= done);
    }
}

/// The log record of a commit has the changes that publishing made.
pub proof fn lemma_all_logged(
    delta: Map<Seq<u8>, Seq<VersionView>>,
    staged: Seq<StagedView>,
    p: Seq<Seq<PreviousView>>,
    version: u64,
    n: int,
)
    requires
        0 <= n <= staged.len(),
    ensures
        publish::delta_after(delta, publish::all_steps(staged, p, n), version) == changes_replayed(
            delta,
            version,
            wal::all_changes(staged, n),
            wal::all_changes(staged, n).len() as int,
        ),
    decreases n,
{
    if n > 0 {
        lemma_all_logged(delta, staged, p, version, n - 1);
        let t = staged[n - 1];
        let k = t.changes.len() as int;
        lemma_table_logged(delta, publish::all_steps(staged, p, n - 1), t, p[n - 1], version, k);
        let a = wal::all_changes(staged, n - 1);
        let b = wal::table_changes(t, k);
        lemma_changes_join(delta, version, a, b, k);
        assert((a + b).len() == a.len() + k);
    }
}

/// The log gives a commit back: replaying its record over the state before it
/// leaves the versions that publishing it left.
pub proof fn lemma_log_restores_commit(
    before: &State,
    after: &State,
    staged: Seq<StagedView>,
    p: Seq<Seq<PreviousView>>,
    version: u64,
    bytes: int,
)
    requires
        publish::published(before, after, staged, p, version),
        before.committed_version < version,
    ensures
        ({
            let start = ReplayView { delta: before.index.delta@, committed: before.committed_version, bytes };
            let end = record_replayed(start, wal::record_view(before, staged, version));
            &&& end.delta == after.index.delta@
            &&& end.committed == after.committed_version
        }),
{
    lemma_all_logged(before.index.delta@, staged, p, version, staged.len() as int);
}

// ---- Greatest ids, superseded segments and given-out ids --------------------

/// The version at `k` has a newer one that its table counts too.
pub open spec fn outdated(vs: Seq<VersionView>, epoch: u64, k: int, j: int) -> bool {
    0 <= k < j < vs.len() && vs[k].version > epoch && vs[j].version > epoch
}

/// A record has in `segment` a put that a newer version supersedes.
pub open spec fn has_outdated(vs: Seq<VersionView>, epoch: u64, segment: u32) -> bool {
    exists|k: int, j: int| #[trigger] outdated(vs, epoch, k, j) && (vs[k].kind matches KindView::SegPut { segment: s, .. } && s == segment)
}

pub open spec fn has_counted(vs: Seq<VersionView>, epoch: u64) -> bool {
    exists|k: int| 0 <= k < vs.len() && (#[trigger] vs[k]).version > epoch
}

pub open spec fn table_high(high: Map<Seq<u8>, Seq<char>>, t: TableView, groups: Seq<GroupView>, n: int) -> Map<Seq<u8>, Seq<char>>
    decreases n,
{
    if n <= 0 {
        high
    } else if has_counted(groups[n - 1].versions, t.epoch) {
        table_high(high, t, groups, n - 1).insert(encode_utf8(t.name), decode_utf8(groups[n - 1].id))
    } else {
        table_high(high, t, groups, n - 1)
    }
}

pub open spec fn table_noticed(previous: u128, groups: Seq<GroupView>, n: int) -> u128
    decreases n,
{
    if n <= 0 {
        previous
    } else {
        ids::noticed(table_noticed(previous, groups, n - 1), decode_utf8(groups[n - 1].id))
    }
}

pub open spec fn all_high(tables: Seq<TableView>, lists: Seq<Seq<GroupView>>, n: int) -> Map<Seq<u8>, Seq<char>>
    decreases n,
{
    if n <= 0 {
        Map::empty()
    } else {
        table_high(all_high(tables, lists, n - 1), tables[n - 1], lists[n - 1], lists[n - 1].len() as int)
    }
}

pub open spec fn all_noticed(lists: Seq<Seq<GroupView>>, n: int) -> u128
    decreases n,
{
    if n <= 0 {
        0
    } else {
        table_noticed(all_noticed(lists, n - 1), lists[n - 1], lists[n - 1].len() as int)
    }
}

pub open spec fn group_outdated(tables: Seq<TableView>, lists: Seq<Seq<GroupView>>, i: int, q: int, segment: u32) -> bool {
    has_outdated(lists[i][q].versions, tables[i].epoch, segment)
}

/// What the records say of ids and segments.
pub struct Survey {
    pub high_ids: CowMap<String, String>,
    pub superseded: Vec<u32>,
    pub ids: IdSource,
}

/// Every id is a text.
pub open spec fn ids_text(groups: Seq<GroupView>) -> bool {
    forall|q: int| 0 <= q < groups.len() ==> valid_utf8((#[trigger] groups[q]).id)
}

pub open spec fn is_survey(index: &PrimaryIdx, tables: Seq<TableView>, lists: Seq<Seq<GroupView>>, r: Survey) -> bool {
    let n = tables.len() as int;
    &&& lists.len() == n
    &&& forall|i: int| 0 <= i < n ==> index.is_listing(encode_utf8(tables[i].name), None, None, #[trigger] lists[i]) && ids_text(lists[i])
    &&& r.high_ids.wf()
    &&& r.high_ids@ == all_high(tables, lists, n)
    &&& r.ids.previous == all_noticed(lists, n)
    &&& forall|x: u32| #[trigger] r.superseded@.contains(x) <==> exists|i: int, q: int|
        0 <= i < n && 0 <= q < lists[i].len() && #[trigger] group_outdated(tables, lists, i, q, x)
}

fn note_segment(list: &mut Vec<u32>, segment: u32)
    ensures
        forall|x: u32| #[trigger] final(list)@.contains(x) <==> old(list)@.contains(x) || x == segment,
{
    if !contains_id(list, segment) {
        let ghost before = list@;
        list.push(segment);
        proof {
            let now = list@;
            assert forall|x: u32| #[trigger] now.contains(x) <==> before.contains(x) || x == segment by {
                if before.contains(x) {
                    assert(now[before.index_of(x)] == x);
                }
                if x == segment {
                    assert(now[before.len() as int] == x);
                }
                if now.contains(x) {
                    let k = now.index_of(x);
                    if k < before.len() {
                        assert(before[k] == x);
                    }
                }
            }
        }
    }
}

/// Take notice of one record; whether its table counts a version of it.
fn survey_group(g: &Group, epoch: u64, superseded: &mut Vec<u32>) -> (r: bool)
    ensures
        r == has_counted(g@.versions, epoch),
        forall|x: u32|
            #[trigger] final(superseded)@.contains(x) <==> old(superseded)@.contains(x) || has_outdated(g@.versions, epoch, x),
{
    let ghost vs = g@.versions;
    let ghost start = superseded@;
    let mut newer: bool = false;
    let mut i: usize = g.versions.len();
    while i > 0
        invariant
            vs == g@.versions,
            vs == model::views(g.versions@),
            i <= vs.len(),
            newer == exists|k: int| i <= k < vs.len() && (#[trigger] vs[k]).version > epoch,
            forall|x: u32|
                #[trigger] superseded@.contains(x) <==> start.contains(x) || exists|k: int, j: int|
                    k >= i && #[trigger] outdated(vs, epoch, k, j) && (vs[k].kind matches KindView::SegPut { segment: s, .. } && s == x),
        decreases i,
    {
        let v = &g.versions[i - 1];
        let ghost at = i - 1;
        let ghost before = superseded@;
        let ghost was = newer;
        assert(vs[at] == v@);
        let counted: bool = v.version > epoch;
        let mut hit: Option<u32> = None;
        if counted && newer {
            match &v.kind {
                VKind::SegPut { segment, .. } => {
                    hit = Some(*segment);
                },
                _ => {},
            }
        }
        match hit {
            Some(segment) => {
                note_segment(superseded, segment);
            },
            None => {},
        }
        if counted {
            newer = true;
        }
        proof {
            assert forall|x: u32|
                #[trigger] superseded@.contains(x) <==> start.contains(x) || exists|k: int, j: int|
                    k >= at && #[trigger] outdated(vs, epoch, k, j) && (vs[k].kind matches KindView::SegPut { segment: s, .. } && s == x) by {
                assert(superseded@.contains(x) <==> before.contains(x) || hit == Some(x));
                if hit == Some(x) {
                    let j = choose|j: int| i <= j < vs.len() && (#[trigger] vs[j]).version > epoch;
                    assert(outdated(vs, epoch, at, j));
                }
                if exists|k: int, j: int|
                    k >= at && #[trigger] outdated(vs, epoch, k, j) && (vs[k].kind matches KindView::SegPut { segment: s, .. } && s == x) {
                    let (k, j) = choose|k: int, j: int|
                        k >= at && #[trigger] outdated(vs, epoch, k, j) && (vs[k].kind matches KindView::SegPut { segment: s, .. } && s
                            == x);
                    if k > at {
                        assert(k >= i && outdated(vs, epoch, k, j));
                        assert(before.contains(x));
                    } else {
                        assert(vs[j].version > epoch);
                        assert(was);
                    }
                }
            }
            if was {
                let k = choose|k: int| i <= k < vs.len() && (#[trigger] vs[k]).version > epoch;
                assert(k >= at && vs[k].version > epoch);
            }
        }
        i = i - 1;
    }
    proof {
        assert forall|x: u32| #[trigger] superseded@.contains(x) <==> start.contains(x) || has_outdated(vs, epoch, x) by {
            if has_outdated(vs, epoch, x) {
                let (k, j) = choose|k: int, j: int|
                    #[trigger] outdated(vs, epoch, k, j) && (vs[k].kind matches KindView::SegPut { segment: s, .. } && s == x);
                assert(k >= 0 && outdated(vs, epoch, k, j));
            }
        }
    }
    newer
}

/// What the records of one table say.
spec fn table_surveyed(
    t: TableView,
    groups: Seq<GroupView>,
    n: int,
    high: Map<Seq<u8>, Seq<char>>,
    high_after: Map<Seq<u8>, Seq<char>>,
    sup: Seq<u32>,
    sup_after: Seq<u32>,
    ids_before: u128,
    ids_after: u128,
) -> bool {
    &&& high_after == table_high(high, t, groups, n)
    &&& ids_after == table_noticed(ids_before, groups, n)
    &&& forall|x: u32| #[trigger] sup_after.contains(x) <==> sup.contains(x) || exists|q: int|
        0 <= q < n && has_outdated((#[trigger] groups[q]).versions, t.epoch, x)
}

fn survey_table(index: &PrimaryIdx, schema: &TableSchema, s: &mut Survey) -> (r: Result<(), Error>)
    requires
        index.wf(),
        encode_utf8(schema@.name).len() <= u32::MAX,
        old(s).high_ids.wf(),
    ensures
        final(s).high_ids.wf(),
        match r {
            Ok(_) => exists|groups: Seq<GroupView>|
                index.is_listing(encode_utf8(schema@.name), None, None, groups) && ids_text(groups) && #[trigger] table_surveyed(
                    schema@,
                    groups,
                    groups.len() as int,
                    old(s).high_ids@,
                    final(s).high_ids@,
                    old(s).superseded@,
                    final(s).superseded@,
                    old(s).ids.previous,
                    final(s).ids.previous,
                ),
            Err(e) => exists|key: Seq<u8>, m: Seq<char>|
                #[trigger] index.is_fault(encode_utf8(schema@.name), key, m) && e@ == ErrorView::Corrupt(m),
        },
{
    let ghost high = s.high_ids@;
    let ghost sup = s.superseded@;
    let ghost first = s.ids.previous;
    let list = match index.visit_table(schema.name.as_str(), None, None) {
        Ok(list) => list,
        Err(e) => {
            return Err(e);
        },
    };
    let ghost groups = model::views(list@);
    let ghost t = schema@;
    assert(visit::text_bytes(None::<&str>) == None::<Seq<u8>>);
    let mut i: usize = 0;
    while i < list.len()
        invariant
            t == schema@,
            groups == model::views(list@),
            i <= list@.len(),
            s.high_ids.wf(),
            table_surveyed(t, groups, i as int, high, s.high_ids@, sup, s.superseded@, first, s.ids.previous),
        decreases list@.len() - i,
    {
        let g = &list[i];
        assert(groups[i as int] == g@);
        let ghost before = s.superseded@;
        proof {
            encode_utf8_decode_utf8(g.id@);
        }
        let counted: bool = survey_group(g, schema.epoch, &mut s.superseded);
        if counted {
            let _ = s.high_ids.insert(schema.name.clone(), g.id.clone());
        }
        s.ids.observe(g.id.as_str());
        proof {
            assert forall|x: u32| #[trigger] s.superseded@.contains(x) <==> sup.contains(x) || exists|q: int|
                0 <= q < i + 1 && has_outdated((#[trigger] groups[q]).versions, t.epoch, x) by {
                assert(s.superseded@.contains(x) <==> before.contains(x) || has_outdated(groups[i as int].versions, t.epoch, x));
                if exists|q: int| 0 <= q < i + 1 && has_outdated((#[trigger] groups[q]).versions, t.epoch, x) {
                    let q = choose|q: int| 0 <= q < i + 1 && has_outdated((#[trigger] groups[q]).versions, t.epoch, x);
                    if q < i {
                        assert(before.contains(x));
                    }
                }
            }
        }
        i = i + 1;
    }
    assert forall|q: int| 0 <= q < groups.len() implies valid_utf8((#[trigger] groups[q]).id) by {
        encode_utf8_valid_utf8(list@[q].id@);
        assert(groups[q] == list@[q]@);
    }
    assert(table_surveyed(t, groups, groups.len() as int, high, s.high_ids@, sup, s.superseded@, first, s.ids.previous));
    Ok(())
}

proof fn lemma_lists_prefix(tables: Seq<TableView>, a: Seq<Seq<GroupView>>, b: Seq<Seq<GroupView>>, n: int)
    requires
        n <= a.len() <= b.len(),
        forall|i: int| 0 <= i < a.len() ==> a[i] == #[trigger] b[i],
    ensures
        all_high(tables, a, n) == all_high(tables, b, n),
        all_noticed(a, n) == all_noticed(b, n),
    decreases n,
{
    if n > 0 {
        lemma_lists_prefix(tables, a, b, n - 1);
        assert(a[n - 1] == b[n - 1]);
    }
}

/// A table whose records cannot all be read.
pub open spec fn survey_fault(index: &PrimaryIdx, tables: Seq<TableView>, i: int, e: ErrorView) -> bool {
    0 <= i < tables.len() && exists|key: Seq<u8>, m: Seq<char>|
        #[trigger] index.is_fault(encode_utf8(tables[i].name), key, m) && e == ErrorView::Corrupt(m)
}

/// Read from the records what an opened database has to know of them.
pub fn survey(index: &PrimaryIdx, catalog: &Catalog) -> (r: Result<Survey, Error>)
    requires
        index.wf(),
        forall|i: int| 0 <= i < catalog@.len() ==> encode_utf8((#[trigger] catalog@[i]).name).len() <= u32::MAX,
    ensures
        match r {
            Ok(s) => exists|lists: Seq<Seq<GroupView>>| #[trigger] is_survey(index, catalog@, lists, s),
            Err(e) => exists|i: int| #[trigger] survey_fault(index, catalog@, i, e@),
        },
{
    let ghost tables = catalog@;
    let mut s = Survey { high_ids: CowMap::new(), superseded: Vec::new(), ids: IdSource::new() };
    let ghost mut lists: Seq<Seq<GroupView>> = Seq::empty();
    let mut i: usize = 0;
    while i < catalog.tables.len()
        invariant
            index.wf(),
            tables == catalog@,
            forall|k: int| 0 <= k < tables.len() ==> encode_utf8((#[trigger] tables[k]).name).len() <= u32::MAX,
            tables.len() == catalog.tables@.len(),
            i <= tables.len(),
            lists.len() == i,
            s.high_ids.wf(),
            forall|k: int| 0 <= k < i ==> index.is_listing(encode_utf8(tables[k].name), None, None, #[trigger] lists[k]) && ids_text(lists[k]),
            s.high_ids@ == all_high(tables, lists, i as int),
            s.ids.previous == all_noticed(lists, i as int),
            forall|x: u32| #[trigger] s.superseded@.contains(x) <==> exists|a: int, q: int|
                0 <= a < i && 0 <= q < lists[a].len() && #[trigger] group_outdated(tables, lists, a, q, x),
        decreases tables.len() - i,
    {
        let schema = &catalog.tables[i];
        assert(tables[i as int] == schema@);
        let ghost high = s.high_ids@;
        let ghost sup = s.superseded@;
        let ghost first = s.ids.previous;
        match survey_table(index, schema, &mut s) {
            Err(e) => {
                assert(survey_fault(index, tables, i as int, e@));
                return Err(e);
            },
            Ok(_) => {},
        }
        proof {
            let groups = choose|groups: Seq<GroupView>|
                index.is_listing(encode_utf8(schema@.name), None, None, groups) && ids_text(groups) && #[trigger] table_surveyed(
                    schema@,
                    groups,
                    groups.len() as int,
                    high,
                    s.high_ids@,
                    sup,
                    s.superseded@,
                    first,
                    s.ids.previous,
                );
            let before = lists;
            lists = lists.push(groups);
            lemma_lists_prefix(tables, before, lists, i as int);
            assert(lists[i as int] == groups);
            assert forall|k: int| 0 <= k < i + 1 implies index.is_listing(encode_utf8(tables[k].name), None, None, #[trigger] lists[k])
                && ids_text(lists[k]) by {
                if k < i {
                    assert(lists[k] == before[k]);
                }
            }
            assert forall|x: u32| #[trigger] s.superseded@.contains(x) <==> exists|a: int, q: int|
                0 <= a < i + 1 && 0 <= q < lists[a].len() && #[trigger] group_outdated(tables, lists, a, q, x) by {
                if sup.contains(x) {
                    let (a, q) = choose|a: int, q: int|
                        0 <= a < i && 0 <= q < before[a].len() && #[trigger] group_outdated(tables, before, a, q, x);
                    assert(lists[a] == before[a]);
                    assert(group_outdated(tables, lists, a, q, x));
                }
                if exists|q: int| 0 <= q < groups.len() && has_outdated((#[trigger] groups[q]).versions, schema@.epoch, x) {
                    let q = choose|q: int| 0 <= q < groups.len() && has_outdated((#[trigger] groups[q]).versions, schema@.epoch, x);
                    assert(group_outdated(tables, lists, i as int, q, x));
                }
                if exists|a: int, q: int|
                    0 <= a < i + 1 && 0 <= q < lists[a].len() && #[trigger] group_outdated(tables, lists, a, q, x) {
                    let (a, q) = choose|a: int, q: int|
                        0 <= a < i + 1 && 0 <= q < lists[a].len() && #[trigger] group_outdated(tables, lists, a, q, x);
                    if a < i {
                        assert(lists[a] == before[a]);
                        assert(group_outdated(tables, before, a, q, x));
                        assert(sup.contains(x));
                    } else {
                        assert(has_outdated(groups[q].versions, schema@.epoch, x));
                    }
                }
            }
        }
        i = i + 1;
    }
    let done: Result<Survey, Error> = Ok(s);
    assert(is_survey(index, tables, lists, done->Ok_0));
    done
}

} // verus!
