//! What a reader gets of records that were loaded in one go, and what a load leaves
//! as it was.

use crate::bulk::{self, BulkLoad, BulkRow};
use crate::bytes;
use crate::checkpoint_laws;
use crate::error::ErrorView;
use crate::primary::{self, RunMetaView};
use crate::record::{self, RecordView};
use crate::segment::{self, SegmentView};
use crate::segwrite::{self, ItemView};
use crate::state::{self, State};
use crate::txn_laws;
use crate::value::ValueView;
use crate::version::{self, VersionView};
use vstd::prelude::*;
use vstd::utf8::*;

verus! {

/// A reader at the version of a load, or later, gets every record of it under the
/// id that the record gave: with the values that were given, with the defaults of
/// the other columns, and with null where there is no default. No value was given
/// that its column refuses, and none under a name that is no column.
pub proof fn lemma_load_gives_records(
    before: &State,
    after: &State,
    rows: Seq<BulkRow>,
    items: Seq<ItemView>,
    locs: Seq<u64>,
    r: BulkLoad,
    meta: RunMetaView,
    k: int,
    max: u64,
)
    requires
        before.wf(),
        before.versions_ok(),
        before.committed_version < u64::MAX,
        before.index.sound(),
        before.table_view(r.table@) is Some,
        before.table_view(r.table@)->0.epoch < r.version,
        bulk::is_load(before, r.table@, rows, items, locs, r),
        bulk::load_taken(before, after, r, meta),
        0 <= k < rows.len(),
        max >= r.version,
        record::references_kept(
            before.table_view(r.table@)->0.columns,
            bulk::complete(before.table_view(r.table@)->0, rows[k].record@),
            record::external_views(rows[k].external@),
            before.blobs@,
        ),
        forall|i: int, j: int|
            0 <= i < j < before.table_view(r.table@)->0.columns.len() ==> (#[trigger] before.table_view(r.table@)->0.columns[i]).name
                != (#[trigger] before.table_view(r.table@)->0.columns[j]).name,
        forall|i: int|
            0 <= i < before.table_view(r.table@)->0.columns.len() ==> encode_utf8(
                (#[trigger] before.table_view(r.table@)->0.columns[i]).name,
            ) != record::id_key(),
    ensures
        ({
            let t = before.table_view(r.table@)->0;
            let given = rows[k].record@;
            &&& given.contains_key(record::id_key()) && given[record::id_key()] is Text && given[record::id_key()]->Text_0.len() > 0
            &&& {
                let id = given[record::id_key()]->Text_0;
                let got = after.row(r.table@, id, max);
                &&& got is Ok && got->Ok_0 is Some
                &&& forall|i: int| 0 <= i < t.columns.len() ==> {
                    let c = #[trigger] t.columns[i];
                    let name = encode_utf8(c.name);
                    &&& got->Ok_0->0.contains_key(name)
                    &&& got->Ok_0->0[name] == (if given.contains_key(name) {
                        given[name]
                    } else if c.default is Some {
                        c.default->0
                    } else {
                        ValueView::Null
                    })
                    &&& given.contains_key(name) ==> txn_laws::fits(c, given[name])
                }
                &&& t.implicit_id ==> got->Ok_0->0.contains_key(record::id_key()) && got->Ok_0->0[record::id_key()] == ValueView::Text(id)
            }
            &&& forall|name: Seq<u8>| #[trigger] given.contains_key(name) ==> name == record::id_key() || record::is_column(t.columns, name)
        }),
{
    let table = r.table@;
    let t = before.table_view(table)->0;
    let given = rows[k].record@;
    bulk::lemma_load_read(before, after, rows, items, locs, r, meta, k, max);
    reveal(bulk::rows_ready);
    let high = bulk::high_of(before, table);
    assert(bulk::row_ready(t, table, r.version, bulk::prev_at(high, items, k), rows[k], items[k]));
    let id = items[k].id;
    let body = bulk::body(given);
    let full = bulk::complete(t, given);
    txn_laws::lemma_filled(t.columns, body);
    record::lemma_record_round_trip(t.columns, full, record::external_views(rows[k].external@), before.blobs@);
    let stored = record::projected(t.columns, full);
    let v = segwrite::placed(items[k], r.segment, locs[k]);
    assert(segment::record_of(after.images(), after.blobs@, v.kind) == Ok::<RecordView, ErrorView>(stored));
    assert(!v.kind.is_tombstone());
    let row = state::with_id(t, stored, id);
    assert(after.table_view(table) == Some(t));
    assert(after.row(table, id, max) == Ok::<Option<RecordView>, ErrorView>(Some(row)));
    assert forall|i: int| 0 <= i < t.columns.len() implies {
        let c = #[trigger] t.columns[i];
        let name = encode_utf8(c.name);
        &&& row.contains_key(name)
        &&& row[name] == (if given.contains_key(name) {
            given[name]
        } else if c.default is Some {
            c.default->0
        } else {
            ValueView::Null
        })
        &&& given.contains_key(name) ==> txn_laws::fits(c, given[name])
    } by {
        let name = encode_utf8(t.columns[i].name);
        assert(name != record::id_key());
        assert(record::is_column(t.columns, name));
        assert(full.contains_key(name));
        assert(stored[name] == record::value_in(full, name));
        assert(body.contains_key(name) == given.contains_key(name));
    }
    assert forall|name: Seq<u8>| #[trigger] given.contains_key(name) implies name == record::id_key() || record::is_column(t.columns, name) by {
        if name != record::id_key() {
            assert(body.contains_key(name));
        }
    }
}

/// A record that a load does not have is seen after it as before it, of whatever
/// table and by whatever reader.
pub proof fn lemma_load_keeps_others(
    before: &State,
    after: &State,
    rows: Seq<BulkRow>,
    items: Seq<ItemView>,
    locs: Seq<u64>,
    r: BulkLoad,
    meta: RunMetaView,
    table: Seq<char>,
    id: Seq<char>,
    max: u64,
)
    requires
        before.wf(),
        before.versions_ok(),
        before.table_view(r.table@) is Some,
        before.table_view(r.table@)->0.epoch < r.version,
        bulk::is_load(before, r.table@, rows, items, locs, r),
        bulk::load_taken(before, after, r, meta),
        before.table_view(table) is Some,
        table != r.table@ || forall|k: int| 0 <= k < rows.len() ==> (#[trigger] rows[k]).record@[record::id_key()] != ValueView::Text(id),
        before.visible(table, encode_utf8(id), max) matches Ok(Some(v)) ==> !checkpoint_laws::lives_in(v, r.segment),
    ensures
        after.visible(table, encode_utf8(id), max) == before.visible(table, encode_utf8(id), max),
        after.row(table, id, max) == before.row(table, id, max),
{
    let key = version::key_of(encode_utf8(table), encode_utf8(id));
    bulk::lemma_record_loaded(before, after, rows, items, locs, r, meta, table, id);
    reveal(bulk::rows_ready);
    before.lemma_table(table);
    before.lemma_table(r.table@);
    assert forall|k: int| 0 <= k < items.len() implies (#[trigger] items[k]).key != key by {
        assert(bulk::row_ready(
            before.table_view(r.table@)->0,
            r.table@,
            r.version,
            bulk::prev_at(bulk::high_of(before, r.table@), items, k),
            rows[k],
            items[k],
        ));
        let other = rows[k].record@[record::id_key()]->Text_0;
        if items[k].key == key {
            version::lemma_key_injective(encode_utf8(r.table@), encode_utf8(other), encode_utf8(table), encode_utf8(id));
            bytes::lemma_utf8_injective(r.table@, table);
            bytes::lemma_utf8_injective(other, id);
        }
    }
    if let Ok(s) = before.index.entries(key) {
        let x = after.index.entries(key)->Ok_0;
        assert(primary::consistent(s));
        assert forall|v: VersionView| s.contains(v) <==> x.contains(v) by {
            if x.contains(v) && !s.contains(v) {
                let k = choose|k: int|
                    0 <= k < items.len() && (#[trigger] items[k]).key == key && v == segwrite::placed(items[k], r.segment, locs[k]);
                assert(items[k].key != key);
            }
        }
        primary::lemma_newest_same(s, x, max);
    }
    assert(after.table_view(table) == before.table_view(table));
    if let Ok(Some(v)) = before.visible(table, encode_utf8(id), max) {
        checkpoint_laws::lemma_payload_kept(before.images(), SegmentView { id: r.segment, image: r.image@ }, v);
    }
}

} // verus!
