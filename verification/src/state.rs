//! The committed state: what there is, and what a reader at a version sees.

use crate::bytes::{self, Place};
use crate::cow::{self, CowMap};
use crate::error::{table_not_found, Error, ErrorView};
use crate::levels::SegmentMeta;
use crate::model;
use crate::order::{Datum, OrderedKey};
use crate::pairs;
use crate::primary::{self, PrimaryIdx};
use crate::record::{self, Blobs, Record, RecordView};
use crate::schema::{self, Catalog, TableSchema, TableView};
use crate::secondary::SecIdx;
use crate::segment::{self, read_record_kind, Segment};
use crate::value::{Value, ValueView};
use crate::version::{self, VersionEntry, VersionView};
use vstd::prelude::*;
use vstd::utf8::*;

verus! {

/// The equality index of one column.
pub struct SecSlot {
    pub table: String,
    pub column: String,
    pub index: SecIdx,
}

/// The greatest identity value that a table has given out.
#[derive(Clone, Copy, PartialEq, Eq, Structural, Debug)]
pub struct Mark {
    pub value: i64,
}

impl View for Mark {
    type V = Mark;

    open spec fn view(&self) -> Mark {
        *self
    }
}

impl Datum for Mark {
    open spec fn valid(&self) -> bool {
        true
    }

    fn duplicate(&self) -> (r: Self) {
        *self
    }
}

pub struct State {
    pub catalog: Catalog,
    pub committed_version: u64,
    pub index: PrimaryIdx,
    /// The greatest id of each table. An id above it has no version.
    pub high_ids: CowMap<String, String>,
    /// The segments with a put that a newer version supersedes.
    pub superseded: Vec<u32>,
    pub secondary: Vec<SecSlot>,
    pub identities: CowMap<String, Mark>,
    pub segments: Vec<Segment>,
    pub metas: Vec<SegmentMeta>,
    pub next_segment_id: u32,
    pub blobs: Blobs,
}

/// The version that counts at `max`, of a table that began after `epoch`.
pub open spec fn current(s: Seq<VersionView>, max: u64, epoch: u64) -> Option<VersionView> {
    match primary::newest_of(s, max) {
        Some(v) => if v.version > epoch {
            Some(v)
        } else {
            None
        },
        None => None,
    }
}

/// A record of a table whose primary key stands beside the columns has the key
/// among its fields when it is read.
pub open spec fn with_id(t: TableView, rec: RecordView, id: Seq<char>) -> RecordView {
    if t.implicit_id {
        rec.insert(record::id_key(), ValueView::Text(id))
    } else {
        rec
    }
}

/// The position of the index of a column.
pub open spec fn slot_of(slots: Seq<SecSlot>, table: Seq<char>, column: Seq<char>) -> Option<int>
    decreases slots.len(),
{
    if slots.len() == 0 {
        None
    } else {
        match slot_of(slots.drop_last(), table, column) {
            Some(i) => Some(i),
            None => if slots.last().table@ == table && slots.last().column@ == column {
                Some(slots.len() - 1)
            } else {
                None
            },
        }
    }
}

pub proof fn lemma_slot_of(slots: Seq<SecSlot>, table: Seq<char>, column: Seq<char>)
    ensures
        slot_of(slots, table, column) matches Some(i) ==> 0 <= i < slots.len() && slots[i].table@ == table && slots[i].column@ == column,
        slot_of(slots, table, column) is None ==> forall|i: int|
            0 <= i < slots.len() ==> (#[trigger] slots[i]).table@ != table || slots[i].column@ != column,
    decreases slots.len(),
{
    if slots.len() > 0 {
        lemma_slot_of(slots.drop_last(), table, column);
        if slot_of(slots, table, column) is None {
            assert forall|i: int| 0 <= i < slots.len() implies (#[trigger] slots[i]).table@ != table || slots[i].column@ != column by {
                if i < slots.len() - 1 {
                    assert(slots.drop_last()[i] == slots[i]);
                }
            }
        }
    }
}

/// No column has two indexes.
pub open spec fn slots_distinct(slots: Seq<SecSlot>) -> bool {
    forall|i: int, j: int|
        0 <= i < j < slots.len() ==> (#[trigger] slots[i]).table@ != (#[trigger] slots[j]).table@ || slots[i].column@
            != slots[j].column@
}

/// The names and the number of columns fit the stored forms.
pub open spec fn schema_fits(t: TableView) -> bool {
    &&& encode_utf8(t.name).len() <= u16::MAX
    &&& t.columns.len() <= u16::MAX
    &&& forall|i: int| 0 <= i < t.columns.len() ==> encode_utf8((#[trigger] t.columns[i]).name).len() <= u16::MAX
    &&& forall|i: int| 0 <= i < t.indexes.len() ==> encode_utf8((#[trigger] t.indexes[i]).column).len() <= u16::MAX
}

impl State {
    pub open spec fn wf(&self) -> bool {
        &&& self.index.wf()
        &&& self.high_ids.wf()
        &&& self.identities.wf()
        &&& self.blobs.wf()
        &&& forall|i: int| 0 <= i < self.secondary@.len() ==> (#[trigger] self.secondary@[i]).index.wf()
        &&& slots_distinct(self.secondary@)
        &&& forall|i: int| 0 <= i < self.catalog@.len() ==> schema_fits(#[trigger] self.catalog@[i])
    }

    pub open spec fn images(&self) -> Seq<segment::SegmentView> {
        model::views(self.segments@)
    }

    pub open spec fn table_view(&self, table: Seq<char>) -> Option<TableView> {
        schema::table_of(self.catalog@, table)
    }

    /// The versions of a record.
    pub open spec fn versions(&self, table: Seq<char>, id: Seq<u8>) -> Result<Seq<VersionView>, Seq<char>> {
        self.index.entries(version::key_of(encode_utf8(table), id))
    }

    /// The version up to which nothing counts for a table.
    pub open spec fn epoch_of(&self, table: Seq<char>) -> u64 {
        match self.table_view(table) {
            None => 0,
            Some(t) => t.epoch,
        }
    }

    /// The version of a record that a reader at `max` sees.
    pub open spec fn visible(&self, table: Seq<char>, id: Seq<u8>, max: u64) -> Result<Option<VersionView>, Seq<char>> {
        match self.table_view(table) {
            None => Ok(None),
            Some(t) => match self.versions(table, id) {
                Err(m) => Err(m),
                Ok(s) => Ok(current(s, max, t.epoch)),
            },
        }
    }

    /// The newest version of a record.
    pub open spec fn latest(&self, table: Seq<char>, id: Seq<u8>) -> Result<Option<VersionView>, Seq<char>> {
        self.visible(table, id, u64::MAX)
    }

    /// The record that a version of a table stands for.
    pub open spec fn record_at(&self, t: TableView, v: VersionView, id: Seq<char>) -> Result<RecordView, ErrorView> {
        match segment::record_of(self.images(), self.blobs@, v.kind) {
            Ok(rec) => Ok(with_id(t, rec, id)),
            Err(e) => Err(e),
        }
    }

    /// What a reader at `max` gets for a record.
    pub open spec fn row(&self, table: Seq<char>, id: Seq<char>, max: u64) -> Result<Option<RecordView>, ErrorView> {
        match self.table_view(table) {
            None => Err(ErrorView::TableNotFound(table)),
            Some(t) => match self.visible(table, encode_utf8(id), max) {
                Err(m) => Err(ErrorView::Corrupt(m)),
                Ok(None) => Ok(None),
                Ok(Some(v)) => if v.kind.is_tombstone() {
                    Ok(None)
                } else {
                    match self.record_at(t, v, id) {
                        Ok(rec) => Ok(Some(rec)),
                        Err(e) => Err(e),
                    }
                },
            },
        }
    }

    /// Whether a reader at `max` sees the record; a directory that cannot be
    /// read shows nothing.
    pub open spec fn shows(&self, table: Seq<char>, id: Seq<u8>, max: u64) -> bool {
        self.visible(table, id, max) matches Ok(Some(v)) && !v.kind.is_tombstone()
    }

    /// Entries of one version are the same entry, and no version is past the
    /// committed one.
    pub open spec fn versions_ok(&self) -> bool {
        forall|key: Seq<u8>| (#[trigger] self.index.entries(key)) matches Ok(s) ==> primary::consistent(s) && forall|i: int|
            0 <= i < s.len() ==> (#[trigger] s[i]).version <= self.committed_version
    }

    pub open spec fn above_high(&self, table: Seq<char>, id: Seq<u8>) -> bool {
        let key = encode_utf8(table);
        !self.high_ids@.contains_key(key) || bytes::lex_lt(encode_utf8(self.high_ids@[key]), id)
    }

    /// A record above the greatest id of its table has no version.
    pub open spec fn high_ok(&self) -> bool {
        forall|table: Seq<char>, id: Seq<u8>| #[trigger] self.above_high(table, id) ==> self.latest(table, id) == Ok::<
            Option<VersionView>,
            Seq<char>,
        >(None)
    }

    /// No two tables have one name, and every table began at a version that is
    /// committed.
    pub open spec fn tables_ok(&self) -> bool {
        &&& model::distinct(schema::table_names(self.catalog@))
        &&& forall|i: int| 0 <= i < self.catalog@.len() ==> (#[trigger] self.catalog@[i]).epoch <= self.committed_version
    }

    /// The invariant of the committed state.
    pub open spec fn inv(&self) -> bool {
        &&& self.wf()
        &&& self.versions_ok()
        &&& self.high_ok()
        &&& self.tables_ok()
    }

    /// A table began at a version that is committed.
    pub proof fn lemma_epoch(&self, table: Seq<char>)
        requires
            self.tables_ok(),
            self.table_view(table) is Some,
        ensures
            self.table_view(table)->0.epoch <= self.committed_version,
    {
        let names = schema::table_names(self.catalog@);
        model::lemma_find(names, table);
        let i = model::find(names, table)->0;
        assert(self.catalog@[i].epoch <= self.committed_version);
    }

    pub proof fn lemma_table(&self, table: Seq<char>)
        requires
            self.wf(),
            self.table_view(table) is Some,
        ensures
            encode_utf8(table).len() <= u16::MAX,
            self.table_view(table)->0.name == table,
            schema_fits(self.table_view(table)->0),
    {
        let names = schema::table_names(self.catalog@);
        model::lemma_find(names, table);
        let i = model::find(names, table)->0;
        assert(names[i] == self.catalog@[i].name);
    }

    /// Whether the id stands above every id of the table.
    pub fn id_is_above_high_watermark(&self, table: &str, id: &str) -> (r: bool)
        requires
            self.wf(),
        ensures
            r == self.above_high(table@, encode_utf8(id@)),
    {
        match self.high_ids.get(table.as_bytes()) {
            None => true,
            Some(high) => {
                proof {
                    bytes::lemma_lex_trichotomy(encode_utf8(high@), encode_utf8(id@));
                }
                match bytes::place(high.as_str().as_bytes(), id.as_bytes()) {
                    Place::Before => true,
                    _ => false,
                }
            },
        }
    }

    /// Raise the greatest id of a table.
    pub fn record_high_id(&mut self, table: &str, id: &str)
        requires
            old(self).wf(),
        ensures
            *final(self) == (State { high_ids: final(self).high_ids, ..*old(self) }),
            final(self).high_ids.wf(),
            final(self).high_ids@ == (if old(self).above_high(table@, encode_utf8(id@)) {
                old(self).high_ids@.insert(encode_utf8(table@), id@)
            } else {
                old(self).high_ids@
            }),
    {
        if self.id_is_above_high_watermark(table, id) {
            let _ = self.high_ids.insert(table.to_owned(), id.to_owned());
        }
    }

    /// The version up to which nothing counts for a table.
    pub fn epoch(&self, table: &str) -> (r: u64)
        ensures
            r == self.epoch_of(table@),
    {
        match self.catalog.table(table) {
            None => 0,
            Some(t) => t.epoch,
        }
    }

    /// The newest version of a record that a reader at `max_version` sees.
    pub fn visible_owned(&self, table: &str, id: &str, max_version: u64) -> (r: Result<Option<VersionEntry>, Error>)
        requires
            self.wf(),
        ensures
            match self.visible(table@, encode_utf8(id@), max_version) {
                Ok(v) => r is Ok && primary::option_view(r->Ok_0) == v,
                Err(m) => r is Err && r->Err_0@ == ErrorView::Corrupt(m),
            },
    {
        let epoch: u64 = match self.catalog.table(table) {
            None => {
                return Ok(None);
            },
            Some(t) => t.epoch,
        };
        proof {
            self.lemma_table(table@);
        }
        match self.index.visible(table, id, max_version) {
            Err(e) => Err(e),
            Ok(None) => Ok(None),
            Ok(Some(v)) => {
                if v.version > epoch {
                    Ok(Some(v))
                } else {
                    Ok(None)
                }
            },
        }
    }

    /// The newest version of a record.
    pub fn latest_owned(&self, table: &str, id: &str) -> (r: Result<Option<VersionEntry>, Error>)
        requires
            self.wf(),
        ensures
            match self.latest(table@, encode_utf8(id@)) {
                Ok(v) => r is Ok && primary::option_view(r->Ok_0) == v,
                Err(m) => r is Err && r->Err_0@ == ErrorView::Corrupt(m),
            },
    {
        self.visible_owned(table, id, u64::MAX)
    }

    /// Whether a reader at `max_version` sees the record.
    pub fn exists_at(&self, table: &str, id: &str, max_version: u64) -> (r: bool)
        requires
            self.wf(),
        ensures
            r == self.shows(table@, encode_utf8(id@), max_version),
    {
        match self.visible_owned(table, id, max_version) {
            Ok(Some(v)) => !v.is_tombstone(),
            _ => false,
        }
    }

    /// The record that a reader at `max_version` gets.
    pub fn get_at(&self, table: &str, id: &str, max_version: u64) -> (r: Result<Option<Record>, Error>)
        requires
            self.wf(),
        ensures
            match self.row(table@, id@, max_version) {
                Ok(None) => r is Ok && r->Ok_0 is None,
                Ok(Some(rec)) => r matches Ok(Some(got)) && got.wf() && got@ == rec,
                Err(e) => r is Err && r->Err_0@ == e,
            },
    {
        let schema = match self.catalog.table(table) {
            None => {
                return Err(table_not_found(table));
            },
            Some(t) => t,
        };
        match self.visible_owned(table, id, max_version) {
            Err(e) => Err(e),
            Ok(None) => Ok(None),
            Ok(Some(v)) => {
                if v.is_tombstone() {
                    return Ok(None);
                }
                match self.read_version(schema, &v, id) {
                    Ok(rec) => Ok(Some(rec)),
                    Err(e) => Err(e),
                }
            },
        }
    }

    /// The same, with only the wanted columns and the primary key that stands
    /// beside them.
    pub fn get_at_keep(&self, table: &str, id: &str, max_version: u64, keep: Option<&Vec<String>>) -> (r: Result<Option<Record>, Error>)
        requires
            self.wf(),
        ensures
            match self.row(table@, id@, max_version) {
                Ok(None) => r is Ok && r->Ok_0 is None,
                Ok(Some(rec)) => r matches Ok(Some(got)) && got.wf() && got@ == kept(self.table_view(table@)->0, rec, keep_view(keep)),
                Err(e) => r is Err && r->Err_0@ == e,
            },
    {
        match self.get_at(table, id, max_version) {
            Err(e) => Err(e),
            Ok(None) => Ok(None),
            Ok(Some(rec)) => match self.catalog.table(table) {
                Some(schema) => Ok(Some(keep_columns(schema, rec, keep))),
                None => Ok(None),
            },
        }
    }

    /// Read the record that a version of a table stands for.
    pub fn read_version(&self, schema: &TableSchema, v: &VersionEntry, id: &str) -> (r: Result<Record, Error>)
        requires
            self.blobs.wf(),
        ensures
            match self.record_at(schema@, v@, id@) {
                Ok(rec) => r is Ok && r->Ok_0.wf() && r->Ok_0@ == rec,
                Err(e) => r is Err && r->Err_0@ == e,
            },
    {
        match read_record_kind(&self.blobs, &self.segments, &v.kind) {
            Err(e) => Err(e),
            Ok(rec) => Ok(add_id(schema, rec, id)),
        }
    }

    /// The names of all tables, in the order of the catalog.
    pub fn tables(&self) -> (r: Vec<String>)
        ensures
            r@.len() == self.catalog.tables@.len(),
            forall|i: int| 0 <= i < r@.len() ==> (#[trigger] r@[i])@ == self.catalog.tables@[i]@.name,
    {
        let mut out: Vec<String> = Vec::new();
        let mut i: usize = 0;
        while i < self.catalog.tables.len()
            invariant
                i <= self.catalog.tables@.len(),
                out@.len() == i,
                forall|j: int| 0 <= j < out@.len() ==> (#[trigger] out@[j])@ == self.catalog.tables@[j]@.name,
            decreases self.catalog.tables@.len() - i,
        {
            out.push(self.catalog.tables[i].name.clone());
            i = i + 1;
        }
        out
    }

    /// The schema of a table, if it exists.
    pub fn table_schema(&self, table: &str) -> (r: Option<TableSchema>)
        ensures
            match r {
                Some(t) => self.table_view(table@) == Some(t@),
                None => self.table_view(table@) is None,
            },
    {
        match self.catalog.table(table) {
            Some(t) => Some(t.duplicate()),
            None => None,
        }
    }

    /// The position of the index of a column.
    pub fn slot(&self, table: &str, column: &str) -> (r: Option<usize>)
        ensures
            r matches Some(i) ==> slot_of(self.secondary@, table@, column@) == Some(i as int) && i < self.secondary@.len(),
            r is None ==> slot_of(self.secondary@, table@, column@) is None,
    {
        let ghost all = self.secondary@;
        let mut i: usize = 0;
        assert(all.subrange(0, 0) =~= Seq::<SecSlot>::empty());
        while i < self.secondary.len()
            invariant
                i <= self.secondary@.len(),
                all == self.secondary@,
                slot_of(all.subrange(0, i as int), table@, column@) is None,
            decreases self.secondary@.len() - i,
        {
            proof {
                let t = all.subrange(0, i + 1);
                assert(t.drop_last() =~= all.subrange(0, i as int));
                assert(t.last() == all[i as int]);
            }
            let s = &self.secondary[i];
            if bytes::same_text(s.table.as_str(), table) && bytes::same_text(s.column.as_str(), column) {
                proof {
                    lemma_slot_prefix(all, table@, column@, i + 1);
                }
                return Some(i);
            }
            i = i + 1;
        }
        assert(all.subrange(0, i as int) =~= all);
        None
    }
}

proof fn lemma_slot_prefix(slots: Seq<SecSlot>, table: Seq<char>, column: Seq<char>, n: int)
    requires
        0 <= n <= slots.len(),
        slot_of(slots.subrange(0, n), table, column) is Some,
    ensures
        slot_of(slots, table, column) == slot_of(slots.subrange(0, n), table, column),
    decreases slots.len() - n,
{
    if n < slots.len() {
        assert(slots.subrange(0, n + 1).drop_last() =~= slots.subrange(0, n));
        lemma_slot_prefix(slots, table, column, n + 1);
    } else {
        assert(slots.subrange(0, n) =~= slots);
    }
}

/// Put the primary key among the fields of a record that was read.
pub fn add_id(schema: &TableSchema, rec: Record, id: &str) -> (r: Record)
    requires
        rec.wf(),
    ensures
        r.wf(),
        r@ == with_id(schema@, rec@, id@),
{
    let mut rec = rec;
    if schema.has_implicit_id() {
        let _ = rec.insert(schema::ID_COLUMN.to_owned(), Value::Text(id.to_owned()));
    }
    rec
}

pub open spec fn keep_view(keep: Option<&Vec<String>>) -> Option<Seq<Seq<char>>> {
    match keep {
        Some(names) => Some(model::views(names@)),
        None => None,
    }
}

/// Whether a field is wanted.
pub open spec fn is_wanted(t: TableView, name: Seq<u8>, names: Seq<Seq<char>>) -> bool {
    ||| t.implicit_id && name == record::id_key()
    ||| exists|i: int| 0 <= i < names.len() && encode_utf8(#[trigger] names[i]) == name
}

/// A record with only the wanted columns, or with all.
pub open spec fn kept(t: TableView, rec: RecordView, keep: Option<Seq<Seq<char>>>) -> RecordView {
    match keep {
        None => rec,
        Some(names) => Map::new(|name: Seq<u8>| rec.contains_key(name) && is_wanted(t, name, names), |name: Seq<u8>| rec[name]),
    }
}

fn wants_name(schema: &TableSchema, name: &String, names: &Vec<String>) -> (r: bool)
    ensures
        r == is_wanted(schema@, encode_utf8(name@), model::views(names@)),
{
    let ghost all = model::views(names@);
    if schema.has_implicit_id() && bytes::same_bytes(name.as_str().as_bytes(), schema::ID_COLUMN.as_bytes()) {
        return true;
    }
    let mut i: usize = 0;
    while i < names.len()
        invariant
            i <= names@.len(),
            all == model::views(names@),
            forall|j: int| 0 <= j < i ==> encode_utf8(#[trigger] all[j]) != encode_utf8(name@),
        decreases names@.len() - i,
    {
        assert(all[i as int] == names@[i as int]@);
        if bytes::same_bytes(names[i].as_str().as_bytes(), name.as_str().as_bytes()) {
            return true;
        }
        i = i + 1;
    }
    false
}

/// Leave out the columns that are not wanted.
pub fn keep_columns(schema: &TableSchema, rec: Record, keep: Option<&Vec<String>>) -> (r: Record)
    requires
        rec.wf(),
    ensures
        r.wf(),
        r@ == kept(schema@, rec@, keep_view(keep)),
{
    let names = match keep {
        None => {
            return rec;
        },
        Some(names) => names,
    };
    let ghost s = rec.pairs();
    let ghost all = model::views(names@);
    let ghost t = schema@;
    let entries = rec.iter();
    proof {
        rec.lemma_wf();
    }
    let mut out: Record = CowMap::new();
    let mut i: usize = 0;
    while i < entries.len()
        invariant
            t == schema@,
            all == model::views(names@),
            rec.wf(),
            s == rec.pairs(),
            pairs::sorted(s),
            rec@ == pairs::to_map(s),
            i <= entries@.len() == s.len(),
            cow::entry_pairs(entries@) == s,
            cow::entries_valid(entries@),
            out.wf(),
            forall|k: Seq<u8>| #[trigger] out@.contains_key(k) ==> rec@.contains_key(k) && is_wanted(t, k, all) && out@[k] == rec@[k],
            forall|j: int| 0 <= j < i && is_wanted(t, (#[trigger] s[j]).0, all) ==> out@.contains_key(s[j].0),
        decreases entries@.len() - i,
    {
        let (name, v) = entries[i];
        let ghost before = out@;
        proof {
            assert(cow::entry_pairs(entries@)[i as int] == (name.rank(), v@));
            pairs::lemma_to_map_at(s, i as int);
        }
        if wants_name(schema, name, names) {
            let _ = out.insert(name.clone(), v.duplicate());
        }
        proof {
            assert forall|j: int| 0 <= j < i + 1 && is_wanted(t, (#[trigger] s[j]).0, all) implies out@.contains_key(s[j].0) by {
                if j < i {
                    assert(before.contains_key(s[j].0));
                }
            }
        }
        i = i + 1;
    }
    proof {
        let want = kept(t, rec@, Some(all));
        assert forall|k: Seq<u8>| #[trigger] want.contains_key(k) implies out@.contains_key(k) by {
            let j = pairs::index_of(s, k);
            assert(s[j].0 == k);
        }
        assert(out@ =~= want);
    }
    out
}

// ---- What readers are promised ----------------------------------------------

/// A reader at a version sees only versions up to it.
pub proof fn lemma_reader_bound(st: &State, table: Seq<char>, id: Seq<u8>, max: u64)
    ensures
        st.visible(table, id, max) matches Ok(Some(v)) ==> v.version <= max,
{
    if st.table_view(table) is Some && st.versions(table, id) is Ok {
        primary::lemma_newest_of(st.versions(table, id)->Ok_0, max);
    }
}

/// A version that is added past a reader's own changes nothing that the reader
/// sees: a snapshot is stable.
pub proof fn lemma_snapshot_stable(s: Seq<VersionView>, v: VersionView, max: u64, epoch: u64)
    requires
        v.version > max,
    ensures
        current(s.push(v), max, epoch) == current(s, max, epoch),
{
    assert(s.push(v).drop_last() =~= s);
}

/// A reader at the version of a change sees the change, where nothing is newer.
pub proof fn lemma_reads_write(s: Seq<VersionView>, v: VersionView, max: u64, epoch: u64)
    requires
        forall|i: int| 0 <= i < s.len() ==> (#[trigger] s[i]).version < v.version,
        epoch < v.version <= max,
    ensures
        current(s.push(v), max, epoch) == Some(v),
{
    let t = s.push(v);
    assert(t.drop_last() =~= s);
    primary::lemma_newest_of(s, max);
}

} // verus!
