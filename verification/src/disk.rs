//! What the files of a store hold, and that opening them gives the committed
//! state back.
//!
//! The segments hold every commit up to the version of the manifest, and the
//! log those above it. The modules beside this one have a law for each way in
//! which the files and the state change together.

use crate::bytes;
use crate::checkpoint_laws::{self, same_answer, same_content};
use crate::disk_open;
use crate::levels::{self, SegmentMeta};
use crate::model;
use crate::open::{self, OpenInput, Opened};
use crate::paged;
use crate::primary::{self, PrimaryIdx};
use crate::recover::{self, FoundView, OpenedPrimary, ReplayView, SegFile};
use crate::schema::{self, TableView};
use crate::segment::{self, EntryView, SegmentView};
use crate::state::{self, State};
use crate::version::{self, KindView, VersionView};
use crate::visit::GroupView;
use crate::wal::{WalChangeView, WalView};
use vstd::prelude::*;
use vstd::utf8::*;

verus! {

/// What the files of a store hold.
#[verifier::ext_equal]
pub struct Disk {
    /// The version of the manifest.
    pub version: u64,
    /// The segments that the manifest names.
    pub segments: Seq<SegmentView>,
    /// The whole records of the log.
    pub log: Seq<WalView>,
}

/// No two changes of a log record are of one record.
pub open spec fn changes_once(rec: WalView) -> bool {
    forall|i: int, j: int|
        0 <= i < rec.changes.len() && 0 <= j < rec.changes.len() && recover::change_key(#[trigger] rec.changes[i])
            == recover::change_key(#[trigger] rec.changes[j]) ==> i == j
}

/// The versions stand in order, the older before the newer.
pub open spec fn rising(s: Seq<VersionView>) -> bool {
    forall|i: int, j: int| 0 <= i < j < s.len() ==> (#[trigger] s[i]).version < (#[trigger] s[j]).version
}

/// No version occurs twice.
pub open spec fn once(s: Seq<VersionView>) -> bool {
    forall|i: int, j: int| 0 <= i < s.len() && 0 <= j < s.len() && (#[trigger] s[i]).version == (#[trigger] s[j]).version ==> i == j
}

/// A log in the order of its versions.
pub open spec fn ascending(log: Seq<WalView>) -> bool {
    forall|i: int, j: int| 0 <= i < j < log.len() ==> (#[trigger] log[i]).version < (#[trigger] log[j]).version
}

/// The names of a log fit the keys of records.
pub open spec fn log_named(log: Seq<WalView>) -> bool {
    forall|i: int, j: int|
        0 <= i < log.len() && 0 <= j < log[i].changes.len() ==> encode_utf8((#[trigger] log[i].changes[j]).table).len() <= u32::MAX
}

impl Disk {
    /// The entries of a segment.
    pub open spec fn list(self, k: int) -> Seq<EntryView> {
        segment::entries_from(self.segments[k].image, 0, self.segments[k].id).0
    }

    /// An entry has this place.
    pub open spec fn place(self, k: int, a: int) -> bool {
        0 <= k < self.segments.len() && 0 <= a < self.list(k).len()
    }

    /// The version at a place.
    pub open spec fn at(self, k: int, a: int) -> FoundView {
        recover::found_view(self.segments[k].id, self.list(k)[a])
    }

    /// A segment holds a version of a record.
    pub open spec fn stores(self, key: Seq<u8>, w: VersionView) -> bool {
        exists|k: int, a: int| #[trigger] self.place(k, a) && self.at(k, a) == (FoundView { key, entry: w })
    }

    pub open spec fn change(self, i: int, j: int) -> bool {
        0 <= i < self.log.len() && 0 <= j < self.log[i].changes.len()
    }

    /// The log holds a version of a record, above `lo` and up to `hi`.
    pub open spec fn logs(self, lo: u64, hi: u64, key: Seq<u8>, v: VersionView) -> bool {
        exists|i: int, j: int| #[trigger] self.change(i, j) && logged_as(self.log[i], j, lo, hi, key, v)
    }

    /// The store with one more record in its log.
    pub open spec fn logging(self, rec: WalView) -> Disk {
        Disk { log: self.log.push(rec), ..self }
    }

    /// Every segment reads to its end.
    pub open spec fn whole(self) -> bool {
        forall|k: int| 0 <= k < self.segments.len() ==> segment_whole(#[trigger] self.segments[k])
    }

    pub open spec fn ids_distinct(self) -> bool {
        forall|k: int, l: int|
            0 <= k < self.segments.len() && 0 <= l < self.segments.len() && (#[trigger] self.segments[k]).id == (
            #[trigger] self.segments[l]).id ==> k == l
    }

    /// No version of a record is stored twice.
    #[verifier::opaque]
    pub open spec fn sole(self) -> bool {
        forall|k: int, a: int, l: int, b: int|
            #[trigger] self.place(k, a) && #[trigger] self.place(l, b) && self.at(k, a).key == self.at(l, b).key && self.at(
                k,
                a,
            ).entry.version == self.at(l, b).entry.version ==> k == l && a == b
    }

    /// Tables and ids are texts.
    #[verifier::opaque]
    pub open spec fn named(self) -> bool {
        forall|k: int, a: int| #[trigger]
            self.place(k, a) ==> valid_utf8(self.list(k)[a].table) && valid_utf8(self.list(k)[a].id)
    }

    /// The files are as the store writes them.
    pub open spec fn sound(self) -> bool {
        &&& self.whole()
        &&& self.named()
        &&& self.ids_distinct()
        &&& self.sole()
        &&& forall|k: int, a: int| #[trigger] self.place(k, a) ==> self.at(k, a).entry.version <= self.version
        &&& ascending(self.log)
        &&& forall|i: int| 0 <= i < self.log.len() ==> changes_once(#[trigger] self.log[i])
    }
}

pub open spec fn segment_whole(s: SegmentView) -> bool {
    &&& segment::entries_from(s.image, 0, s.id).1 == s.image.len()
    &&& s.image.len() <= usize::MAX
}

pub open spec fn logged_as(rec: WalView, j: int, lo: u64, hi: u64, key: Seq<u8>, v: VersionView) -> bool {
    &&& lo < rec.version <= hi
    &&& recover::change_key(rec.changes[j]) == key
    &&& v == recover::change_entry(rec.version, rec.changes[j])
}

/// Two versions that readers cannot tell apart, and that live in one segment.
pub open spec fn same_place(segments: Seq<SegmentView>, v: VersionView, w: VersionView) -> bool {
    &&& same_content(segments, segments, v, w)
    &&& v.kind is SegPut <==> w.kind is SegPut
    &&& v.kind is SegPut ==> segment_of(v) == segment_of(w)
}

/// The segment of a stored put.
pub open spec fn segment_of(v: VersionView) -> u32 {
    v.kind->SegPut_segment
}

/// The versions of a record in the runs are those in the segments, as far as
/// its table counts them.
pub open spec fn agrees(runs: Seq<VersionView>, d: Disk, key: Seq<u8>, epoch: u64) -> bool {
    &&& forall|v: VersionView| #[trigger] runs.contains(v) && v.version > epoch ==> exists|w: VersionView|
        d.stores(key, w) && #[trigger] same_place(d.segments, v, w)
    &&& forall|w: VersionView| #[trigger] d.stores(key, w) && w.version > epoch ==> exists|v: VersionView|
        runs.contains(v) && #[trigger] same_place(d.segments, v, w)
}

/// The runs of an index list what the segments hold of a record.
pub open spec fn run_agrees(index: &PrimaryIdx, d: Disk, tables: Seq<TableView>, table: Seq<char>, id: Seq<char>) -> bool {
    let key = version::key_of(encode_utf8(table), encode_utf8(id));
    schema::table_of(tables, table) matches Some(t) ==> (primary::run_entries(index.runs@, key) matches Ok(s) && agrees(
        s,
        d,
        key,
        t.epoch,
    ))
}

pub open spec fn runs_agree(index: &PrimaryIdx, d: Disk, tables: Seq<TableView>) -> bool {
    forall|table: Seq<char>, id: Seq<char>| #[trigger] run_agrees(index, d, tables, table, id)
}

/// Up to where the log is in segments or frozen.
pub open spec fn cut(st: &State, d: Disk) -> u64 {
    match st.index.frozen {
        Some(f) => f.version,
        None => d.version,
    }
}

pub open spec fn metas_match(metas: Seq<SegmentMeta>, segments: Seq<SegmentView>) -> bool {
    &&& metas.len() == segments.len()
    &&& forall|i: int|
        0 <= i < metas.len() ==> (#[trigger] metas[i]).id == segments[i].id && metas[i].len == segments[i].image.len()
}

/// What the log holds of a record between two versions is resident, as far as
/// its table counts it.
pub open spec fn log_resident(
    delta: Map<Seq<u8>, Seq<VersionView>>,
    d: Disk,
    lo: u64,
    hi: u64,
    tables: Seq<TableView>,
    table: Seq<char>,
    id: Seq<char>,
) -> bool {
    let key = version::key_of(encode_utf8(table), encode_utf8(id));
    schema::table_of(tables, table) matches Some(t) ==> forall|v: VersionView|
        #[trigger] d.logs(lo, hi, key, v) && v.version > t.epoch ==> primary::resident(delta, key).contains(v)
}

/// Resident versions are those that the log holds between two versions, but for
/// some that no table counts.
pub open spec fn delta_logged(delta: Map<Seq<u8>, Seq<VersionView>>, d: Disk, lo: u64, hi: u64, tables: Seq<TableView>) -> bool {
    &&& forall|key: Seq<u8>, v: VersionView| #[trigger] primary::resident(delta, key).contains(v) ==> d.logs(lo, hi, key, v)
    &&& forall|key: Seq<u8>| rising(#[trigger] primary::resident(delta, key))
    &&& forall|key: Seq<u8>| #[trigger] delta.contains_key(key) ==> delta[key].len() > 0
    &&& forall|table: Seq<char>, id: Seq<char>| #[trigger] log_resident(delta, d, lo, hi, tables, table, id)
}

/// The runs read, and have of every record only versions up to that of the
/// manifest, each from one place of a segment that was written.
pub open spec fn runs_sound(index: &PrimaryIdx, version: u64, next: u32) -> bool {
    forall|key: Seq<u8>| (#[trigger] primary::run_entries(index.runs@, key)) matches Ok(s) && list_sound(s, version, next)
}

pub open spec fn list_sound(s: Seq<VersionView>, version: u64, next: u32) -> bool {
    &&& primary::consistent(s)
    &&& forall|v: VersionView| #[trigger] s.contains(v) ==> v.version <= version && lives_below(v, next)
}

pub open spec fn lives_below(v: VersionView, next: u32) -> bool {
    v.kind matches KindView::SegPut { segment, .. } ==> segment < next
}

/// The files hold what the state has committed: the segments every commit up to
/// the version of the manifest, the log those above it.
pub open spec fn keeps(d: Disk, st: &State) -> bool {
    &&& d.sound()
    &&& log_named(d.log)
    &&& d.segments == st.images()
    &&& metas_match(st.metas@, d.segments)
    &&& forall|k: int| 0 <= k < d.segments.len() ==> (#[trigger] d.segments[k]).id < st.next_segment_id
    &&& d.version <= cut(st, d) <= st.committed_version
    &&& forall|i: int| 0 <= i < d.log.len() ==> (#[trigger] d.log[i]).version <= st.committed_version
    &&& st.committed_version == d.version || (d.log.len() > 0 && d.log.last().version == st.committed_version)
    &&& runs_sound(&st.index, d.version, st.next_segment_id)
    &&& runs_agree(&st.index, d, st.catalog@)
    &&& delta_logged(st.index.frozen_map(), d, d.version, cut(st, d), st.catalog@)
    &&& delta_logged(st.index.delta@, d, cut(st, d), u64::MAX, st.catalog@)
}

// ---- Entries and their payloads ---------------------------------------------

/// An entry stands within the data it was read from.
pub open spec fn entry_within(data: Seq<u8>, e: EntryView) -> bool {
    &&& 0 <= e.payload_offset
    &&& e.payload_offset + e.payload.len() <= data.len()
    &&& e.payload == data.subrange(e.payload_offset, e.payload_offset + e.payload.len())
    &&& e.payload.len() <= u32::MAX
    &&& e.table.len() <= u16::MAX
}

/// The entries of a segment stand within it.
pub proof fn lemma_entries_within(data: Seq<u8>, pos: int, segment: u32)
    requires
        0 <= pos,
    ensures
        forall|a: int|
            0 <= a < segment::entries_from(data, pos, segment).0.len() ==> entry_within(
                data,
                #[trigger] segment::entries_from(data, pos, segment).0[a],
            ),
    decreases data.len() - pos,
{
    let all = segment::entries_from(data, pos, segment).0;
    if pos < data.len() && segment::sound_at(data, pos, segment) && segment::after_entry(data, pos, segment) > pos {
        let next = segment::after_entry(data, pos, segment);
        lemma_entries_within(data, next, segment);
        let rest = segment::entries_from(data, next, segment).0;
        let e = segment::entry_at(data, pos, segment)->Ok_0.0;
        bytes::lemma_radix_small();
        bytes::lemma_le_value_bound(data.subrange(pos + 9, pos + 11));
        let t1 = pos + 11 + segment::number_at(data, pos + 9, 2);
        bytes::lemma_le_value_bound(data.subrange(t1, t1 + 2));
        let i1 = t1 + 2 + segment::number_at(data, t1, 2);
        bytes::lemma_le_value_bound(data.subrange(i1, i1 + 4));
        assert(entry_within(data, e));
        assert forall|a: int| 0 <= a < all.len() implies entry_within(data, #[trigger] all[a]) by {
            if a > 0 {
                assert(all[a] == rest[a - 1]);
            }
        }
    }
}

/// The segments of another list begin with these, in the same order.
pub open spec fn images_extend(a: Seq<SegmentView>, b: Seq<SegmentView>) -> bool {
    &&& a.len() == b.len()
    &&& forall|k: int|
        0 <= k < a.len() ==> (#[trigger] b[k]).id == a[k].id && a[k].image.len() <= b[k].image.len() && b[k].image.subrange(
            0,
            a[k].image.len() as int,
        ) == a[k].image
}

/// A segment is found by its id.
pub proof fn lemma_image_of(segments: Seq<SegmentView>, k: int)
    requires
        0 <= k < segments.len(),
        forall|l: int| 0 <= l < segments.len() && (#[trigger] segments[l]).id == segments[k].id ==> l == k,
    ensures
        segment::image_of(segments, segments[k].id) == Some(segments[k].image),
    decreases segments.len(),
{
    if k < segments.len() - 1 {
        let t = segments.drop_last();
        assert(segments[segments.len() - 1].id != segments[k].id);
        assert forall|l: int| 0 <= l < t.len() && (#[trigger] t[l]).id == t[k].id implies l == k by {
            assert(segments[l].id == segments[k].id);
        }
        lemma_image_of(t, k);
    }
}

// ---- What opening finds -----------------------------------------------------

/// An entry of the segments that its table counts.
pub open spec fn counted(d: Disk, tables: Seq<TableView>, k: int, a: int) -> bool {
    d.place(k, a) && recover::counts(tables, false, d.list(k)[a])
}

proof fn lemma_found_in(list: Seq<EntryView>, tables: Seq<TableView>, segment: u32, n: int, f: FoundView)
    requires
        0 <= n <= list.len(),
    ensures
        recover::found_in(list, tables, false, segment, n).contains(f) <==> exists|a: int|
            0 <= a < n && recover::counts(tables, false, #[trigger] list[a]) && f == recover::found_view(segment, list[a]),
    decreases n,
{
    let s = recover::found_in(list, tables, false, segment, n);
    if n > 0 {
        lemma_found_in(list, tables, segment, n - 1, f);
        let rest = recover::found_in(list, tables, false, segment, n - 1);
        if rest.contains(f) {
            assert(s[rest.index_of(f)] == f);
        }
        if recover::counts(tables, false, list[n - 1]) {
            let last = recover::found_view(segment, list[n - 1]);
            assert(s == rest.push(last));
            if f == last {
                assert(s[rest.len() as int] == f);
            }
            if s.contains(f) && !rest.contains(f) {
                let x = s.index_of(f);
                if x < rest.len() {
                    assert(rest[x] == f);
                }
                assert(f == last);
            }
        }
    }
}

/// The files hold the segments, each with what the manifest says of it.
pub open spec fn files_hold(metas: Seq<SegmentMeta>, files: Seq<SegFile>, segments: Seq<SegmentView>) -> bool {
    &&& metas_match(metas, segments)
    &&& files.len() == segments.len()
    &&& forall|k: int| 0 <= k < files.len() ==> file_holds(#[trigger] files[k], segments[k])
}

/// A file begins with the bytes of a segment.
pub open spec fn file_holds(f: SegFile, s: SegmentView) -> bool {
    f.data matches Ok(data) && data@.len() >= s.image.len() && data@.subrange(0, s.image.len() as int) == s.image
}

/// Opening finds the entries that count, and nothing else.
pub proof fn lemma_found_all(d: Disk, metas: Seq<SegmentMeta>, files: Seq<SegFile>, tables: Seq<TableView>, n: int, f: FoundView)
    requires
        files_hold(metas, files, d.segments),
        0 <= n <= files.len(),
    ensures
        recover::found_all(metas, files, tables, false, n).contains(f) <==> exists|k: int, a: int|
            k < n && #[trigger] counted(d, tables, k, a) && f == d.at(k, a),
    decreases n,
{
    if n > 0 {
        lemma_found_all(d, metas, files, tables, n - 1, f);
        let k = n - 1;
        assert(file_holds(files[k], d.segments[k]));
        assert(metas[k].len == d.segments[k].image.len());
        assert(recover::part_of(metas[k], files[k]) =~= d.segments[k].image);
        let list = recover::sound_entries(metas[k], files[k]);
        assert(list == d.list(k));
        lemma_found_in(list, tables, metas[k].id, list.len() as int, f);
        let rest = recover::found_all(metas, files, tables, false, k);
        let more = recover::found_in(list, tables, false, metas[k].id, list.len() as int);
        let all = recover::found_all(metas, files, tables, false, n);
        assert(all == rest + more);
        if rest.contains(f) {
            assert(all[rest.index_of(f)] == f);
            let (x, a) = choose|x: int, a: int| x < n - 1 && #[trigger] counted(d, tables, x, a) && f == d.at(x, a);
            assert(x < n && counted(d, tables, x, a));
        }
        if more.contains(f) {
            assert(all[rest.len() + more.index_of(f)] == f);
            let a = choose|a: int|
                0 <= a < list.len() && recover::counts(tables, false, #[trigger] list[a]) && f == recover::found_view(
                    metas[k].id,
                    list[a],
                );
            assert(counted(d, tables, k, a));
        }
        if all.contains(f) {
            let x = all.index_of(f);
            if x < rest.len() {
                assert(rest[x] == f);
            } else {
                assert(more[x - rest.len()] == f);
            }
        }
        if exists|x: int, a: int| x < n && #[trigger] counted(d, tables, x, a) && f == d.at(x, a) {
            let (x, a) = choose|x: int, a: int| x < n && #[trigger] counted(d, tables, x, a) && f == d.at(x, a);
            if x == k {
                assert(recover::counts(tables, false, list[a]));
                assert(more.contains(f));
            } else {
                assert(x < n - 1 && counted(d, tables, x, a));
                assert(rest.contains(f));
            }
        }
    }
}

/// A resident index has under a key what was found of it.
pub proof fn lemma_pushed_has(s: Seq<FoundView>, key: Seq<u8>, v: VersionView)
    ensures
        primary::resident(recover::pushed(Map::empty(), s), key).contains(v) <==> s.contains(FoundView { key, entry: v }),
    decreases s.len(),
{
    let f = FoundView { key, entry: v };
    let now = primary::resident(recover::pushed(Map::empty(), s), key);
    if s.len() > 0 {
        let t = s.drop_last();
        lemma_pushed_has(t, key, v);
        let last = s.last();
        let before = primary::resident(recover::pushed(Map::empty(), t), key);
        if t.contains(f) {
            assert(s[t.index_of(f)] == f);
        }
        if s.contains(f) && !t.contains(f) {
            let x = s.index_of(f);
            if x < t.len() {
                assert(t[x] == f);
            }
            assert(f == last);
        }
        if last.key == key {
            assert(now == before.push(last.entry));
            lemma_push_contains(before, last.entry, v);
            if last.entry == v {
                assert(last =~= f);
                assert(s[s.len() - 1] == f);
            }
        } else {
            assert(now == before);
        }
    }
}

/// A list with one more has what it had and that one.
pub proof fn lemma_push_contains(s: Seq<VersionView>, x: VersionView, v: VersionView)
    ensures
        s.push(x).contains(v) <==> s.contains(v) || v == x,
{
    let t = s.push(x);
    if s.contains(v) {
        assert(t[s.index_of(v)] == v);
    }
    if v == x {
        assert(t[s.len() as int] == v);
    }
    if t.contains(v) {
        let i = t.index_of(v);
        if i < s.len() {
            assert(s[i] == v);
        }
    }
}

/// A new index has under a key what the segments hold of it.
pub proof fn lemma_rebuilt_has(all: Seq<FoundView>, generation: u64, index: &PrimaryIdx, key: Seq<u8>)
    requires
        recover::rebuilt_from(all, generation, *index),
        recover::all_stored(all),
    ensures
        primary::run_entries(index.runs@, key) matches Ok(s) && forall|v: VersionView|
            #[trigger] s.contains(v) <==> all.contains(FoundView { key, entry: v }),
{
    let runs = index.runs@;
    let rows = runs[0].index.rows();
    let made = recover::found_rows(all);
    levels::lemma_run_entries(runs, key);
    assert forall|value: Seq<u8>| #[trigger] levels::runs_hold(runs, (key, value)) implies exists|x: int|
        0 <= x < all.len() && (#[trigger] all[x]).key == key && value == version::entry_bytes(all[x].entry) by {
        let i = choose|i: int| 0 <= i < runs.len() && paged::holds_row((#[trigger] runs[i]).index.rows(), (key, value));
        paged::lemma_sorted_rows(rows, made, (key, value));
        let x = choose|x: int| 0 <= x < made.len() && #[trigger] made[x] == (key, value);
        assert(all[x].key == key);
    }
    if primary::run_entries(runs, key) is Err {
        let value = choose|value: Seq<u8>| #[trigger] levels::runs_hold(runs, (key, value)) && version::entry_of(value) is Err;
        let x = choose|x: int| 0 <= x < all.len() && (#[trigger] all[x]).key == key && value == version::entry_bytes(all[x].entry);
        version::lemma_entry_round_trip(all[x].entry);
    }
    let s = primary::run_entries(runs, key)->Ok_0;
    assert forall|v: VersionView| #[trigger] s.contains(v) <==> all.contains(FoundView { key, entry: v }) by {
        let f = FoundView { key, entry: v };
        if s.contains(v) {
            let value = choose|value: Seq<u8>| #[trigger] levels::runs_hold(runs, (key, value)) && levels::decodes_to(value, v);
            let x = choose|x: int|
                0 <= x < all.len() && (#[trigger] all[x]).key == key && value == version::entry_bytes(all[x].entry);
            version::lemma_entry_round_trip(all[x].entry);
            assert(all[x] =~= f);
        }
        if all.contains(f) {
            let x = all.index_of(f);
            assert(!all[x].entry.kind.is_resident());
            let value = version::entry_bytes(v);
            version::lemma_entry_round_trip(v);
            assert(made[x] == (key, value));
            paged::lemma_sorted_rows(rows, made, (key, value));
            assert(paged::holds_row(runs[0].index.rows(), (key, value)));
            assert(levels::runs_hold(runs, (key, value)));
            assert(levels::decodes_to(value, v));
        }
    }
}

// ---- What replaying the log adds --------------------------------------------

/// The changes of a record add one version each.
pub proof fn lemma_changes_has(delta: Map<Seq<u8>, Seq<VersionView>>, version: u64, s: Seq<WalChangeView>, n: int, key: Seq<u8>, v: VersionView)
    requires
        0 <= n <= s.len(),
    ensures
        primary::resident(recover::changes_replayed(delta, version, s, n), key).contains(v) <==> primary::resident(delta, key).contains(v)
            || exists|j: int|
            0 <= j < n && recover::change_key(#[trigger] s[j]) == key && v == recover::change_entry(version, s[j]),
    decreases n,
{
    if n > 0 {
        lemma_changes_has(delta, version, s, n - 1, key, v);
        let before = primary::resident(recover::changes_replayed(delta, version, s, n - 1), key);
        let e = recover::change_entry(version, s[n - 1]);
        lemma_push_contains(before, e, v);
        if recover::change_key(s[n - 1]) == key && v == e {
            assert(recover::change_key(s[n - 1]) == key);
        }
    }
}

/// A change among the first `n` records of a log, above a version.
pub open spec fn logged_in(log: Seq<WalView>, n: int, lo: u64, key: Seq<u8>, v: VersionView, i: int, j: int) -> bool {
    0 <= i < n && 0 <= j < log[i].changes.len() && logged_as(log[i], j, lo, u64::MAX, key, v)
}

/// A replay adds the changes above where it began.
pub proof fn lemma_replayed_has(start: ReplayView, log: Seq<WalView>, n: int, key: Seq<u8>, v: VersionView)
    requires
        ascending(log),
        0 <= n <= log.len(),
    ensures
        primary::resident(recover::replayed(start, log, n).delta, key).contains(v) <==> primary::resident(start.delta, key).contains(v)
            || exists|i: int, j: int| #[trigger] logged_in(log, n, start.committed, key, v, i, j),
        recover::replayed(start, log, n).committed == (if n > 0 && log[n - 1].version > start.committed {
            log[n - 1].version
        } else {
            start.committed
        }),
    decreases n,
{
    if n > 0 {
        lemma_replayed_has(start, log, n - 1, key, v);
        let at = recover::replayed(start, log, n - 1);
        let rec = log[n - 1];
        let k = rec.changes.len() as int;
        if n > 1 {
            assert(log[n - 2].version < log[n - 1].version);
        }
        if exists|i: int, j: int| #[trigger] logged_in(log, n - 1, start.committed, key, v, i, j) {
            let (i, j) = choose|i: int, j: int| #[trigger] logged_in(log, n - 1, start.committed, key, v, i, j);
            assert(logged_in(log, n, start.committed, key, v, i, j));
        }
        if rec.version > at.committed {
            lemma_changes_has(at.delta, rec.version, rec.changes, k, key, v);
            if exists|j: int|
                0 <= j < k && recover::change_key(#[trigger] rec.changes[j]) == key && v == recover::change_entry(
                    rec.version,
                    rec.changes[j],
                ) {
                let j = choose|j: int|
                    0 <= j < k && recover::change_key(#[trigger] rec.changes[j]) == key && v == recover::change_entry(
                        rec.version,
                        rec.changes[j],
                    );
                assert(logged_in(log, n, start.committed, key, v, n - 1, j));
            }
        }
        if exists|i: int, j: int| #[trigger] logged_in(log, n, start.committed, key, v, i, j) {
            let (i, j) = choose|i: int, j: int| #[trigger] logged_in(log, n, start.committed, key, v, i, j);
            if i < n - 1 {
                assert(logged_in(log, n - 1, start.committed, key, v, i, j));
            } else {
                assert(recover::change_key(rec.changes[j]) == key);
            }
        }
    }
}

/// Replaying the log of a store adds the versions that the segments lack.
pub proof fn lemma_replay_adds(d: Disk, start: ReplayView, key: Seq<u8>, v: VersionView)
    requires
        ascending(d.log),
        start.committed == d.version,
    ensures
        primary::resident(recover::replayed(start, d.log, d.log.len() as int).delta, key).contains(v) <==> primary::resident(
            start.delta,
            key,
        ).contains(v) || d.logs(d.version, u64::MAX, key, v),
{
    let n = d.log.len() as int;
    lemma_replayed_has(start, d.log, n, key, v);
    if d.logs(d.version, u64::MAX, key, v) {
        let (i, j) = choose|i: int, j: int|
            #[trigger] d.change(i, j) && logged_as(d.log[i], j, d.version, u64::MAX, key, v);
        assert(logged_in(d.log, n, start.committed, key, v, i, j));
    }
    if exists|i: int, j: int| #[trigger] logged_in(d.log, n, start.committed, key, v, i, j) {
        let (i, j) = choose|i: int, j: int| #[trigger] logged_in(d.log, n, start.committed, key, v, i, j);
        assert(d.change(i, j));
    }
}

// ---- Opening ----------------------------------------------------------------

/// A version that a store holds.
pub open spec fn backed(d: Disk, key: Seq<u8>, w: VersionView) -> bool {
    ||| exists|u: VersionView| d.stores(key, u) && #[trigger] same_place(d.segments, w, u)
    ||| d.logs(d.version, u64::MAX, key, w)
}

/// A list of versions is what a store holds of a record, as far as its table
/// counts them.
pub open spec fn lists_all(list: Seq<VersionView>, d: Disk, key: Seq<u8>, epoch: u64) -> bool {
    &&& forall|w: VersionView| #[trigger] list.contains(w) && w.version > epoch ==> backed(d, key, w)
    &&& forall|u: VersionView| #[trigger] d.stores(key, u) && u.version > epoch ==> exists|w: VersionView|
        list.contains(w) && #[trigger] same_place(d.segments, w, u)
    &&& forall|v: VersionView| #[trigger] d.logs(d.version, u64::MAX, key, v) && v.version > epoch ==> list.contains(v)
}

/// What the log holds up to a version and above it is all of it.
pub proof fn lemma_logs_split(d: Disk, lo: u64, mid: u64, hi: u64, key: Seq<u8>, v: VersionView)
    requires
        lo <= mid <= hi,
    ensures
        d.logs(lo, hi, key, v) <==> d.logs(lo, mid, key, v) || d.logs(mid, hi, key, v),
{
    if d.logs(lo, hi, key, v) {
        let (i, j) = choose|i: int, j: int| #[trigger] d.change(i, j) && logged_as(d.log[i], j, lo, hi, key, v);
        assert(d.change(i, j) && (logged_as(d.log[i], j, lo, mid, key, v) || logged_as(d.log[i], j, mid, hi, key, v)));
    }
    if d.logs(lo, mid, key, v) {
        let (i, j) = choose|i: int, j: int| #[trigger] d.change(i, j) && logged_as(d.log[i], j, lo, mid, key, v);
        assert(d.change(i, j) && logged_as(d.log[i], j, lo, hi, key, v));
    }
    if d.logs(mid, hi, key, v) {
        let (i, j) = choose|i: int, j: int| #[trigger] d.change(i, j) && logged_as(d.log[i], j, mid, hi, key, v);
        assert(d.change(i, j) && logged_as(d.log[i], j, lo, hi, key, v));
    }
}

proof fn lemma_joined_lists(
    d: Disk,
    key: Seq<u8>,
    epoch: u64,
    runs: Seq<VersionView>,
    f: Seq<VersionView>,
    a: Seq<VersionView>,
    mid: u64,
)
    requires
        agrees(runs, d, key, epoch),
        d.version <= mid,
        forall|v: VersionView| #[trigger] f.contains(v) ==> d.logs(d.version, mid, key, v),
        forall|v: VersionView| #[trigger] a.contains(v) ==> d.logs(mid, u64::MAX, key, v),
        forall|v: VersionView| #[trigger] d.logs(d.version, mid, key, v) && v.version > epoch ==> f.contains(v),
        forall|v: VersionView| #[trigger] d.logs(mid, u64::MAX, key, v) && v.version > epoch ==> a.contains(v),
    ensures
        lists_all(runs + f + a, d, key, epoch),
{
    let s = runs + f + a;
    checkpoint_laws::lemma_concat_contains(runs, f);
    checkpoint_laws::lemma_concat_contains(runs + f, a);
    assert forall|v: VersionView| #[trigger] s.contains(v) implies runs.contains(v) || d.logs(d.version, u64::MAX, key, v) by {
        lemma_logs_split(d, d.version, mid, u64::MAX, key, v);
        assert((runs + f).contains(v) <==> runs.contains(v) || f.contains(v));
    }
    assert forall|v: VersionView| #[trigger] runs.contains(v) implies s.contains(v) by {
        assert((runs + f).contains(v));
    }
    assert forall|u: VersionView| #[trigger] d.stores(key, u) && u.version > epoch implies exists|w: VersionView|
        s.contains(w) && #[trigger] same_place(d.segments, w, u) by {
        let w = choose|v: VersionView| runs.contains(v) && #[trigger] same_place(d.segments, v, u);
        assert(s.contains(w) && same_place(d.segments, w, u));
    }
    assert forall|w: VersionView| #[trigger] s.contains(w) && w.version > epoch implies backed(d, key, w) by {
        if runs.contains(w) {
            let u = choose|u: VersionView| d.stores(key, u) && #[trigger] same_place(d.segments, w, u);
            assert(same_place(d.segments, w, u));
        }
    }
    assert forall|v: VersionView| #[trigger] d.logs(d.version, u64::MAX, key, v) && v.version > epoch implies s.contains(v) by {
        lemma_logs_split(d, d.version, mid, u64::MAX, key, v);
        if f.contains(v) {
            assert((runs + f).contains(v));
        }
    }
}

/// What the state has of a record is what the store holds.
pub proof fn lemma_state_lists(d: Disk, st: &State, table: Seq<char>, id: Seq<char>)
    requires
        keeps(d, st),
        st.table_view(table) is Some,
    ensures
        st.versions(table, encode_utf8(id)) matches Ok(s) && lists_all(
            s,
            d,
            version::key_of(encode_utf8(table), encode_utf8(id)),
            st.table_view(table)->0.epoch,
        ),
{
    let key = version::key_of(encode_utf8(table), encode_utf8(id));
    let epoch = st.table_view(table)->0.epoch;
    assert(run_agrees(&st.index, d, st.catalog@, table, id));
    let runs = primary::run_entries(st.index.runs@, key)->Ok_0;
    let f = primary::resident(st.index.frozen_map(), key);
    let a = primary::resident(st.index.delta@, key);
    assert(log_resident(st.index.frozen_map(), d, d.version, cut(st, d), st.catalog@, table, id));
    assert(log_resident(st.index.delta@, d, cut(st, d), u64::MAX, st.catalog@, table, id));
    lemma_joined_lists(d, key, epoch, runs, f, a, cut(st, d));
}

proof fn lemma_image_extends(a: Seq<SegmentView>, b: Seq<SegmentView>, id: u32)
    requires
        images_extend(a, b),
    ensures
        match segment::image_of(a, id) {
            None => segment::image_of(b, id) is None,
            Some(image) => segment::image_of(b, id) matches Some(more) && image.len() <= more.len() && more.subrange(
                0,
                image.len() as int,
            ) == image,
        },
    decreases a.len(),
{
    if a.len() > 0 {
        let x = a.drop_last();
        let y = b.drop_last();
        assert(b[b.len() - 1].id == a[a.len() - 1].id);
        assert(images_extend(x, y)) by {
            assert forall|k: int| 0 <= k < x.len() implies (#[trigger] y[k]).id == x[k].id && x[k].image.len() <= y[k].image.len()
                && y[k].image.subrange(0, x[k].image.len() as int) == x[k].image by {
                assert(b[k].id == a[k].id);
            }
        }
        lemma_image_extends(x, y, id);
    }
}

/// What can be read of a version, can be read alike over longer files.
pub proof fn lemma_payload_extends(a: Seq<SegmentView>, b: Seq<SegmentView>, kind: KindView)
    requires
        images_extend(a, b),
        segment::payload_of(a, kind) is Ok,
    ensures
        segment::payload_of(b, kind) == segment::payload_of(a, kind),
{
    if let KindView::SegPut { segment, payload_offset, payload_len } = kind {
        lemma_image_extends(a, b, segment);
        let x = segment::image_of(a, segment)->0;
        let y = segment::image_of(b, segment)->0;
        let lo = payload_offset as int;
        let hi = payload_offset + payload_len;
        assert(y.subrange(lo, hi) =~= y.subrange(0, x.len() as int).subrange(lo, hi));
    }
}

/// What a store holds can be read.
pub proof fn lemma_backed_reads(d: Disk, key: Seq<u8>, w: VersionView)
    requires
        d.sound(),
        backed(d, key, w),
    ensures
        segment::payload_of(d.segments, w.kind) is Ok,
{
    if exists|u: VersionView| d.stores(key, u) && #[trigger] same_place(d.segments, w, u) {
        let u = choose|u: VersionView| d.stores(key, u) && #[trigger] same_place(d.segments, w, u);
        let (k, a) = choose|k: int, a: int| #[trigger] d.place(k, a) && d.at(k, a) == (FoundView { key, entry: u });
        let s = d.segments[k];
        let e = d.list(k)[a];
        lemma_entries_within(s.image, 0, s.id);
        assert(entry_within(s.image, e));
        assert forall|l: int| 0 <= l < d.segments.len() && (#[trigger] d.segments[l]).id == d.segments[k].id implies l == k by {}
        lemma_image_of(d.segments, k);
        assert(segment_whole(d.segments[k]));
    }
}

/// A version of one list stands for every counted version of the other.
pub open spec fn stands_in(list: Seq<VersionView>, a: Seq<SegmentView>, b: Seq<SegmentView>, v: VersionView) -> bool {
    exists|w: VersionView| list.contains(w) && #[trigger] same_content(a, b, v, w)
}

pub open spec fn stood_for(list: Seq<VersionView>, a: Seq<SegmentView>, b: Seq<SegmentView>, w: VersionView) -> bool {
    exists|v: VersionView| list.contains(v) && #[trigger] same_content(a, b, v, w)
}

proof fn lemma_same_counted(
    old_list: Seq<VersionView>,
    new_list: Seq<VersionView>,
    a: Seq<SegmentView>,
    b: Seq<SegmentView>,
    max: u64,
    epoch: u64,
)
    requires
        primary::consistent(old_list),
        forall|v: VersionView| #[trigger] old_list.contains(v) && v.version > epoch ==> stands_in(new_list, a, b, v),
        forall|w: VersionView| #[trigger] new_list.contains(w) && w.version > epoch ==> stood_for(old_list, a, b, w),
    ensures
        same_answer(a, b, state::current(old_list, max, epoch), state::current(new_list, max, epoch)),
{
    primary::lemma_newest_of(old_list, max);
    primary::lemma_newest_of(new_list, max);
    let x = state::current(old_list, max, epoch);
    let y = state::current(new_list, max, epoch);
    if x is Some {
        let v = x->0;
        assert(stands_in(new_list, a, b, v));
        let w = choose|w: VersionView| new_list.contains(w) && #[trigger] same_content(a, b, v, w);
        let i = new_list.index_of(w);
        assert(new_list[i].version <= max);
        assert(y is Some);
    }
    if y is Some {
        let w = y->0;
        assert(new_list.contains(w));
        assert(stood_for(old_list, a, b, w));
        let v = choose|v: VersionView| old_list.contains(v) && #[trigger] same_content(a, b, v, w);
        let i = old_list.index_of(v);
        assert(old_list[i].version <= max);
        assert(x is Some);
        let u = x->0;
        assert(stands_in(new_list, a, b, u));
        let z = choose|z: VersionView| new_list.contains(z) && #[trigger] same_content(a, b, u, z);
        let j = new_list.index_of(z);
        assert(new_list[j].version <= max);
        assert(u.version == v.version);
        let k = old_list.index_of(u);
        assert(old_list[i] == old_list[k]);
    }
}

/// Two lists of what a store holds of a record give every reader the same.
pub proof fn lemma_lists_alike(
    d: Disk,
    images: Seq<SegmentView>,
    key: Seq<u8>,
    epoch: u64,
    old_list: Seq<VersionView>,
    new_list: Seq<VersionView>,
    max: u64,
)
    requires
        d.sound(),
        images_extend(d.segments, images),
        primary::consistent(old_list),
        lists_all(old_list, d, key, epoch),
        lists_all(new_list, d, key, epoch),
    ensures
        same_answer(d.segments, images, state::current(old_list, max, epoch), state::current(new_list, max, epoch)),
{
    let a = d.segments;
    assert forall|v: VersionView| #[trigger] old_list.contains(v) && v.version > epoch implies stands_in(new_list, a, images, v) by {
        lemma_backed_reads(d, key, v);
        if d.logs(d.version, u64::MAX, key, v) {
            lemma_payload_extends(a, images, v.kind);
            assert(new_list.contains(v) && same_content(a, images, v, v));
        } else {
            let u = choose|u: VersionView| d.stores(key, u) && #[trigger] same_place(a, v, u);
            let w = choose|w: VersionView| new_list.contains(w) && #[trigger] same_place(a, w, u);
            lemma_payload_extends(a, images, w.kind);
            assert(new_list.contains(w) && same_content(a, images, v, w));
        }
    }
    assert forall|w: VersionView| #[trigger] new_list.contains(w) && w.version > epoch implies stood_for(old_list, a, images, w) by {
        lemma_backed_reads(d, key, w);
        lemma_payload_extends(a, images, w.kind);
        if d.logs(d.version, u64::MAX, key, w) {
            assert(old_list.contains(w) && same_content(a, images, w, w));
        } else {
            let u = choose|u: VersionView| d.stores(key, u) && #[trigger] same_place(a, w, u);
            let v = choose|v: VersionView| old_list.contains(v) && #[trigger] same_place(a, v, u);
            assert(old_list.contains(v) && same_content(a, images, v, w));
        }
    }
    lemma_same_counted(old_list, new_list, a, images, max, epoch);
}

/// What was found on disk is what the store holds.
pub open spec fn given(input: &OpenInput, d: Disk, st: &State) -> bool {
    &&& input.wf()
    &&& !input.pending_ddl
    &&& input.catalog@ == st.catalog@
    &&& input.blobs@ == st.blobs@
    &&& input.manifest.committed_version == d.version
    &&& input.manifest.segments@ == st.metas@
    &&& files_hold(input.manifest.segments@, input.files@, d.segments)
    &&& model::views(input.log@) == d.log
    &&& input.stored matches Some(index) ==> runs_agree(&index, d, st.catalog@) && runs_sound(
        &index,
        d.version,
        (open::greatest_id(st.metas@) + 1) as u32,
    )
}

/// The files that are read begin with the segments.
pub proof fn lemma_readable(metas: Seq<SegmentMeta>, files: Seq<SegFile>, segments: Seq<SegmentView>, n: int)
    requires
        files_hold(metas, files, segments),
        0 <= n <= files.len(),
    ensures
        images_extend(segments.subrange(0, n), open::readable_segments(metas, files, n)),
    decreases n,
{
    if n > 0 {
        lemma_readable(metas, files, segments, n - 1);
        assert(file_holds(files[n - 1], segments[n - 1]));
        assert(metas[n - 1].id == segments[n - 1].id);
        let a = segments.subrange(0, n);
        let b = open::readable_segments(metas, files, n);
        let rest = open::readable_segments(metas, files, n - 1);
        assert forall|k: int| 0 <= k < a.len() implies (#[trigger] b[k]).id == a[k].id && a[k].image.len() <= b[k].image.len()
            && b[k].image.subrange(0, a[k].image.len() as int) == a[k].image by {
            if k < n - 1 {
                assert(b[k] == rest[k]);
                assert(segments.subrange(0, n - 1)[k] == segments[k]);
            }
        }
    }
}

/// Files that hold whole segments are whole.
pub proof fn lemma_all_whole(d: Disk, metas: Seq<SegmentMeta>, files: Seq<SegFile>)
    requires
        d.whole(),
        files_hold(metas, files, d.segments),
    ensures
        recover::all_whole(metas, files, files.len() as int),
{
    assert forall|i: int| 0 <= i < files.len() implies recover::is_whole(metas[i], #[trigger] files[i]) by {
        assert(file_holds(files[i], d.segments[i]));
        assert(segment_whole(d.segments[i]));
        assert(metas[i].len == d.segments[i].image.len());
        assert(recover::part_of(metas[i], files[i]) =~= d.segments[i].image);
    }
}

/// The primary index that opening finds lists what the segments hold.
pub proof fn lemma_found_lists(d: Disk, input: &OpenInput, st: &State, p: OpenedPrimary, table: Seq<char>, id: Seq<char>)
    requires
        keeps(d, st),
        st.wf(),
        given(input, d, st),
        input.finds(Ok(p)),
        st.table_view(table) is Some,
    ensures
        p.index.frozen is None,
        ({
            let key = version::key_of(encode_utf8(table), encode_utf8(id));
            primary::run_entries(p.index.runs@, key) matches Ok(s) && agrees(
                s + primary::resident(p.index.delta@, key),
                d,
                key,
                st.table_view(table)->0.epoch,
            )
        }),
{
    let key = version::key_of(encode_utf8(table), encode_utf8(id));
    let t = st.table_view(table)->0;
    let metas = input.manifest.segments@;
    let files = input.files@;
    let n = files.len() as int;
    let tables = input.catalog@;
    let e = Seq::<VersionView>::empty();
    lemma_all_whole(d, metas, files);
    if input.stored is Some {
        assert(run_agrees(&p.index, d, st.catalog@, table, id));
        let s = primary::run_entries(p.index.runs@, key)->Ok_0;
        assert(s + e =~= s);
    } else {
        let all = recover::found_all(metas, files, tables, false, n);
        recover::lemma_found_stored(metas, files, tables, false, n);
        let list = if !input.read_only {
            lemma_rebuilt_has(all, input.source().generation, &p.index, key);
            let s = primary::run_entries(p.index.runs@, key)->Ok_0;
            assert(s + e =~= s);
            s
        } else {
            let s = primary::resident(p.index.delta@, key);
            assert(e + s =~= s);
            assert forall|v: VersionView| #[trigger] s.contains(v) <==> all.contains(FoundView { key, entry: v }) by {
                lemma_pushed_has(all, key, v);
            }
            s
        };
        st.lemma_table(table);
        assert forall|v: VersionView| #[trigger] list.contains(v) && v.version > t.epoch implies exists|w: VersionView|
            d.stores(key, w) && #[trigger] same_place(d.segments, v, w) by {
            let f = FoundView { key, entry: v };
            lemma_found_all(d, metas, files, tables, n, f);
            let (k, a) = choose|k: int, a: int| k < n && #[trigger] counted(d, tables, k, a) && f == d.at(k, a);
            assert(d.place(k, a));
            assert(d.stores(key, v) && same_place(d.segments, v, v));
        }
        assert forall|w: VersionView| #[trigger] d.stores(key, w) && w.version > t.epoch implies exists|v: VersionView|
            list.contains(v) && #[trigger] same_place(d.segments, v, w) by {
            let f = FoundView { key, entry: w };
            let (k, a) = choose|k: int, a: int| #[trigger] d.place(k, a) && d.at(k, a) == f;
            let x = d.list(k)[a];
            lemma_entries_within(d.segments[k].image, 0, d.segments[k].id);
            assert(entry_within(d.segments[k].image, x));
            version::lemma_key_injective(x.table, x.id, encode_utf8(table), encode_utf8(id));
            encode_utf8_valid_utf8(table);
            encode_utf8_decode_utf8(table);
            assert(counted(d, tables, k, a));
            lemma_found_all(d, metas, files, tables, n, f);
            assert(list.contains(w) && same_place(d.segments, w, w));
        }
    }
}

/// Opening gives back what was committed, whether or not the log still has to
/// be replayed: the version, and what a reader at any version gets of every
/// record.
pub proof fn lemma_open_restores(
    st: &State,
    d: Disk,
    input: &OpenInput,
    p: OpenedPrimary,
    lists: Seq<Seq<GroupView>>,
    o: Opened,
    table: Seq<char>,
    id: Seq<char>,
    max: u64,
)
    requires
        st.wf(),
        keeps(d, st),
        given(input, d, st),
        open::is_opened(input, p, lists, o),
    ensures
        o.state.committed_version == st.committed_version,
        o.state.row(table, id, max) == st.row(table, id, max),
{
    let n = d.log.len() as int;
    let key = version::key_of(encode_utf8(table), encode_utf8(id));
    let start = ReplayView { delta: p.index.delta@, committed: d.version, bytes: 0 };
    disk_open::lemma_kept_versions(d, st);
    lemma_replayed_has(start, d.log, n, key, arbitrary());
    assert(input.log@.len() == d.log.len());
    if n > 0 {
        assert(d.log[n - 1].version <= st.committed_version);
    }
    if st.table_view(table) is Some {
        let epoch = st.table_view(table)->0.epoch;
        lemma_state_lists(d, st, table, id);
        lemma_found_lists(d, input, st, p, table, id);
        let old_list = st.versions(table, encode_utf8(id))->Ok_0;
        let runs = primary::run_entries(p.index.runs@, key)->Ok_0;
        let e = Seq::<VersionView>::empty();
        let found = primary::resident(p.index.delta@, key);
        let now = primary::resident(o.state.index.delta@, key);
        let new_list = runs + e + now;
        assert(o.state.versions(table, encode_utf8(id)) == Ok::<Seq<VersionView>, Seq<char>>(new_list));
        assert(new_list =~= runs + now);
        checkpoint_laws::lemma_concat_contains(runs, now);
        checkpoint_laws::lemma_concat_contains(runs, found);
        assert forall|v: VersionView| new_list.contains(v) <==> (runs + found).contains(v) || d.logs(
            d.version,
            u64::MAX,
            key,
            v,
        ) by {
            lemma_replay_adds(d, start, key, v);
        }
        assert(lists_all(new_list, d, key, epoch)) by {
            assert forall|w: VersionView| #[trigger] new_list.contains(w) && w.version > epoch implies backed(d, key, w) by {
                if (runs + found).contains(w) {
                    let u = choose|u: VersionView| d.stores(key, u) && #[trigger] same_place(d.segments, w, u);
                    assert(same_place(d.segments, w, u));
                }
            }
            assert forall|u: VersionView| #[trigger] d.stores(key, u) && u.version > epoch implies exists|w: VersionView|
                new_list.contains(w) && #[trigger] same_place(d.segments, w, u) by {
                let w = choose|v: VersionView|
                    (runs + found).contains(v) && #[trigger] same_place(d.segments, v, u);
                assert(new_list.contains(w) && same_place(d.segments, w, u));
            }
        }
        lemma_readable(input.manifest.segments@, input.files@, d.segments, input.files@.len() as int);
        assert(d.segments.subrange(0, d.segments.len() as int) =~= d.segments);
        assert(st.index.entries(key) is Ok);
        lemma_lists_alike(d, o.state.images(), key, epoch, old_list, new_list, max);
    }
}

} // verus!
