//! Stored records have fields with distinct names: what a commit or a load
//! stores has them, and what moves records about keeps them.

use crate::bulk::{self, BulkLoad, BulkRow};
use crate::checkpoint::{self, Checkpoint};
use crate::checkpoint_laws;
use crate::commit;
use crate::commit_laws;
use crate::compact::{self, Rewritten, Source};
use crate::compact_laws;
use crate::ddl::RewriteView;
use crate::disk::{self, Disk};
use crate::disk_laws;
use crate::disk_open;
use crate::disk_upkeep;
use crate::error::ErrorView;
use crate::index_laws;
use crate::marks;
use crate::model;
use crate::paged;
use crate::payload::{self, RawField};
use crate::pipeline::PlannedCommit;
use crate::prepare::{self, PreparedCommit, StagedTable};
use crate::primary::{self, RunMetaView};
use crate::publish;
use crate::record;
use crate::schema;
use crate::segment;
use crate::segwrite::{self, ItemView};
use crate::staged;
use crate::state::State;
use crate::stream_laws::{payloads_plain, version_plain};
use crate::value;
use crate::version::{self, VersionView};
use vstd::prelude::*;
use vstd::utf8::*;

verus! {

/// A version that a table counts, with what it holds.
pub open spec fn counts_as(st: &State, table: Seq<char>, id: Seq<char>, v: VersionView, payload: Result<Option<Seq<u8>>, ErrorView>) -> bool {
    &&& st.table_view(table) is Some
    &&& st.versions(table, encode_utf8(id)) matches Ok(s) && s.contains(v)
    &&& v.version > st.epoch_of(table)
    &&& segment::payload_of(st.images(), v.kind) == payload
}

/// Every version of a record holds what some version of it held before.
pub open spec fn content_from(before: &State, after: &State, table: Seq<char>, id: Seq<char>) -> bool {
    forall|v: VersionView, payload: Result<Option<Seq<u8>>, ErrorView>| #[trigger]
        counts_as(after, table, id, v, payload) ==> exists|u: VersionView| #[trigger] counts_as(before, table, id, u, payload)
}

proof fn lemma_plain_carried(before: &State, after: &State)
    requires
        payloads_plain(before),
        forall|table: Seq<char>, id: Seq<char>| #[trigger] content_from(before, after, table, id),
    ensures
        payloads_plain(after),
{
    assert forall|table: Seq<char>, id: Seq<char>, v: VersionView| #[trigger] version_plain(after, table, id, v) by {
        let payload = segment::payload_of(after.images(), v.kind);
        if counts_as(after, table, id, v, payload) {
            assert(content_from(before, after, table, id));
            let u = choose|u: VersionView| #[trigger] counts_as(before, table, id, u, payload);
            assert(version_plain(before, table, id, u));
        }
    }
}

/// A step that moves no record keeps what they hold: freezing, thawing, merging
/// runs of the directory, and changes of the catalog.
pub proof fn lemma_upkeep_plain(before: &State, after: &State)
    requires
        payloads_plain(before),
        before.versions_ok(),
        after.images() == before.images(),
        forall|table: Seq<char>, id: Seq<char>| #[trigger] lists_no_more(before, after, table, id),
        forall|table: Seq<char>| #[trigger] disk_upkeep::began_before(before, after.catalog@, table),
    ensures
        payloads_plain(after),
{
    assert forall|table: Seq<char>, id: Seq<char>| #[trigger] content_from(before, after, table, id) by {
        assert forall|v: VersionView, payload: Result<Option<Seq<u8>>, ErrorView>| #[trigger]
            counts_as(after, table, id, v, payload) implies exists|u: VersionView| #[trigger]
            counts_as(before, table, id, u, payload) by {
            assert(lists_no_more(before, after, table, id));
            assert(disk_upkeep::began_before(before, after.catalog@, table));
            let s = before.versions(table, encode_utf8(id))->Ok_0;
            let i = s.index_of(v);
            assert(s[i].version <= before.committed_version);
            assert(counts_as(before, table, id, v, payload));
        }
    }
    lemma_plain_carried(before, after);
}

/// A record of a table has no version that it did not have.
pub open spec fn lists_no_more(before: &State, after: &State, table: Seq<char>, id: Seq<char>) -> bool {
    after.table_view(table) is Some ==> (after.versions(table, encode_utf8(id)) matches Ok(t) ==> before.versions(
        table,
        encode_utf8(id),
    ) matches Ok(s) && forall|v: VersionView| #[trigger] t.contains(v) ==> s.contains(v))
}

/// A checkpoint keeps what the records hold.
pub proof fn lemma_checkpoint_plain(before: &State, after: &State, d: Disk, c: Checkpoint, meta: RunMetaView)
    requires
        payloads_plain(before),
        before.inv(),
        disk::keeps(d, before),
        before.index.frozen is None,
        c.segment == before.next_segment_id,
        checkpoint::is_checkpoint(before.index.delta.pairs(), before.catalog@, before.committed_version, before.metas@, c),
        checkpoint::taken_over(before, after, c, meta, c.superseded, c.run.rows().len() > 0),
        after.index.delta@ == Map::<Seq<u8>, Seq<VersionView>>::empty(),
        after.index.frozen is None,
    ensures
        payloads_plain(after),
{
    marks::lemma_avoids(d, before);
    assert forall|table: Seq<char>, id: Seq<char>| #[trigger] content_from(before, after, table, id) by {
        if before.table_view(table) is Some {
            checkpoint_laws::lemma_checkpoint_keeps_rows(before, after, c, meta, table, id, u64::MAX);
            lemma_held_content(before, after, table, id);
        }
    }
    lemma_plain_carried(before, after);
}

/// A checkpoint of what was frozen keeps what the records hold.
pub proof fn lemma_frozen_plain(before: &State, after: &State, d: Disk, c: Checkpoint, meta: RunMetaView, superseded: bool, version: u64)
    requires
        payloads_plain(before),
        before.inv(),
        disk::keeps(d, before),
        before.index.frozen is Some,
        c.segment == before.next_segment_id,
        checkpoint::is_checkpoint(before.index.frozen->0.delta.pairs(), before.catalog@, version, before.metas@, c),
        checkpoint::taken_over(before, after, c, meta, superseded, true),
        after.index.delta == before.index.delta,
        after.index.frozen is None,
    ensures
        payloads_plain(after),
{
    marks::lemma_avoids(d, before);
    assert forall|table: Seq<char>, id: Seq<char>| #[trigger] content_from(before, after, table, id) by {
        if before.table_view(table) is Some {
            checkpoint_laws::lemma_frozen_checkpoint_keeps_rows(before, after, c, meta, superseded, version, table, id, u64::MAX);
            lemma_held_content(before, after, table, id);
        }
    }
    lemma_plain_carried(before, after);
}

proof fn lemma_held_content(before: &State, after: &State, table: Seq<char>, id: Seq<char>)
    requires
        after.catalog == before.catalog,
        checkpoint_laws::held_before(before, after, table, id),
    ensures
        content_from(before, after, table, id),
{
    assert forall|v: VersionView, payload: Result<Option<Seq<u8>>, ErrorView>| #[trigger]
        counts_as(after, table, id, v, payload) implies exists|u: VersionView| #[trigger] counts_as(before, table, id, u, payload) by {
        let s = before.versions(table, encode_utf8(id))->Ok_0;
        let u = choose|u: VersionView|
            s.contains(u) && #[trigger] checkpoint_laws::same_content(before.images(), after.images(), u, v);
        assert(counts_as(before, table, id, u, payload));
    }
}

/// A compaction keeps what the records hold.
pub proof fn lemma_compaction_plain(
    before: &State,
    after: &State,
    marks: Seq<u64>,
    sources: Seq<Source>,
    locs: Seq<u64>,
    r: Rewritten,
    bytes: u64,
)
    requires
        payloads_plain(before),
        before.wf(),
        compact::is_rewritten(before, RewriteView::Plain, marks, sources, locs, r),
        compact::rewrite_taken(before, after, r, bytes, false),
    ensures
        payloads_plain(after),
{
    assert(after.catalog@ == before.catalog@);
    assert forall|table: Seq<char>, id: Seq<char>| #[trigger] content_from(before, after, table, id) by {
        if before.table_view(table) is Some {
            compact_laws::lemma_compaction_holds(before, after, marks, sources, locs, r, bytes, table, id);
            assert forall|v: VersionView, payload: Result<Option<Seq<u8>>, ErrorView>| #[trigger]
                counts_as(after, table, id, v, payload) implies exists|u: VersionView| #[trigger]
                counts_as(before, table, id, u, payload) by {
                let s = before.versions(table, encode_utf8(id))->Ok_0;
                let u = choose|u: VersionView|
                    s.contains(u) && #[trigger] checkpoint_laws::same_content(before.images(), after.images(), u, v);
                assert(counts_as(before, table, id, u, payload));
            }
        }
    }
    lemma_plain_carried(before, after);
}

// ---- New records ------------------------------------------------------------

/// The columns of every table have different names.
pub open spec fn columns_apart(st: &State) -> bool {
    forall|table: Seq<char>|
        (#[trigger] st.table_view(table)) matches Some(t) ==> model::distinct(schema::column_names(t.columns))
}

/// A commit that was prepared and planned stores records with distinct names.
pub proof fn lemma_commit_plain(
    before: &State,
    after: &State,
    tables: Seq<StagedTable>,
    capacity: int,
    first: &State,
    prepared: PreparedCommit,
    planned: PlannedCommit,
)
    requires
        payloads_plain(before),
        columns_apart(before),
        index_laws::is_planned(before, tables, capacity, first, prepared, planned),
        publish::published(
            before,
            after,
            model::views(planned.validated.staged@),
            publish::previous_views(planned.validated.previous@),
            planned.version,
        ),
    ensures
        payloads_plain(after),
{
    let all = model::views(planned.validated.staged@);
    let checked = planned.validated.previous@;
    let p = publish::previous_views(checked);
    let list = publish::steps(all, p);
    prepare::lemma_arranged_wf(tables);
    commit::lemma_final_ids(before, prepared.staged@, checked, prepared.snapshot);
    assert forall|i: int| 0 <= i < all.len() implies encode_utf8((#[trigger] all[i]).name).len() <= u32::MAX by {
        before.lemma_table(all[i].name);
    }
    assert forall|table: Seq<char>, id: Seq<char>, v: VersionView| #[trigger] version_plain(after, table, id, v) by {
        if counts_as(after, table, id, v, segment::payload_of(after.images(), v.kind)) {
            let key = version::key_of(encode_utf8(table), encode_utf8(id));
            before.lemma_table(table);
            commit_laws::lemma_versions_after(before, after, list, planned.version, table, encode_utf8(id));
            let s = before.versions(table, encode_utf8(id))->Ok_0;
            let more = commit_laws::entries_for(list, key, planned.version);
            checkpoint_laws::lemma_concat_contains(s, more);
            if s.contains(v) {
                assert(version_plain(before, table, id, v));
            } else {
                let q = lemma_entry_step(list, key, planned.version, v);
                let (i, j) = commit_laws::lemma_step_place(all, p, q);
                assert(staged::is_staged(all, i, j));
                lemma_staged_plain(before, tables, capacity, first, prepared, planned, i, j);
            }
        }
    }
}

/// The step that an entry comes from.
proof fn lemma_entry_step(list: Seq<crate::apply::Step>, key: Seq<u8>, version: u64, v: VersionView) -> (q: int)
    requires
        commit_laws::entries_for(list, key, version).contains(v),
    ensures
        0 <= q < list.len(),
        v == crate::apply::step_entry(list[q], version),
    decreases list.len(),
{
    let rest = commit_laws::entries_for(list.drop_last(), key, version);
    let e = crate::apply::step_entry(list.last(), version);
    if rest.contains(v) {
        let q = lemma_entry_step(list.drop_last(), key, version, v);
        assert(list.drop_last()[q] == list[q]);
        q
    } else {
        disk::lemma_push_contains(rest, e, v);
        list.len() - 1
    }
}

proof fn lemma_staged_plain(
    before: &State,
    tables: Seq<StagedTable>,
    capacity: int,
    first: &State,
    prepared: PreparedCommit,
    planned: PlannedCommit,
    i: int,
    j: int,
)
    requires
        columns_apart(before),
        index_laws::is_planned(before, tables, capacity, first, prepared, planned),
        staged::is_staged(model::views(planned.validated.staged@), i, j),
    ensures
        model::views(planned.validated.staged@)[i].changes[j].payload matches Some(b) ==> record::names_apart(b),
{
    let t = prepared.staged@[i];
    let columns = t.schema@.columns;
    let checked = planned.validated.previous@;
    let from = prepare::arranged(tables);
    prepare::lemma_arranged_wf(tables);
    assert(before.table_view(t.name@) == Some(t.schema@));
    assert(prepare::carries(t.changes@, from[i].schema@, from[i].operations@));
    assert(commit::table_checked(before, t, checked[i]@, prepared.snapshot));
    assert(t.wf());
    assert(t.changes@[j].wf() && staged::replay_stored(t.schema@, t.changes@[j].replay));
    let p = checked[i]@[j]@;
    if commit::moved_on(p.entry, prepared.snapshot) {
        let r = t.changes@[j].replay->0.outcome->0;
        let inline = staged::all_inline(columns.len());
        assert(record::references_kept(columns, r.record@, inline, before.blobs@));
        record::lemma_encoded_apart(columns, r.record@, inline, before.blobs@);
    } else {
        let o = from[i].operations@[j];
        assert(t.changes@[j]@ == prepare::stored_change(from[i].schema@, o));
        if o.operation is Some {
            assert(prepare::table_fits(from[i]));
            assert(prepare::change_fits(from[i].schema@, o));
            record::lemma_encoded_apart(columns, o.operation->0@, record::external_views(o.external@), before.blobs@);
        }
    }
}

/// A load stores records with distinct names.
pub proof fn lemma_load_plain(
    before: &State,
    after: &State,
    d: Disk,
    rows: Seq<BulkRow>,
    items: Seq<ItemView>,
    locs: Seq<u64>,
    r: BulkLoad,
    meta: RunMetaView,
)
    requires
        payloads_plain(before),
        columns_apart(before),
        before.inv(),
        before.index.sound(),
        disk::keeps(d, before),
        before.committed_version < u64::MAX,
        before.table_view(r.table@) is Some,
        bulk::is_load(before, r.table@, rows, items, locs, r),
        bulk::load_taken(before, after, r, meta),
        forall|k: int| 0 <= k < rows.len() ==> record::references_kept(
            before.table_view(r.table@)->0.columns,
            bulk::complete(before.table_view(r.table@)->0, (#[trigger] rows[k]).record@),
            record::external_views(rows[k].external@),
            before.blobs@,
        ),
    ensures
        payloads_plain(after),
{
    before.lemma_epoch(r.table@);
    marks::lemma_avoids(d, before);
    disk_open::lemma_kept_versions(d, before);
    assert forall|table: Seq<char>, id: Seq<char>, v: VersionView| #[trigger] version_plain(after, table, id, v) by {
        let key = version::key_of(encode_utf8(table), encode_utf8(id));
        if counts_as(after, table, id, v, segment::payload_of(after.images(), v.kind)) {
            bulk::lemma_record_loaded(before, after, rows, items, locs, r, meta, table, id);
            assert(before.index.entries(key) is Ok);
            let s = before.index.entries(key)->Ok_0;
            if s.contains(v) {
                assert(checkpoint_laws::has_version_at(before, key, v));
                checkpoint_laws::lemma_payload_kept(before.images(), segment::SegmentView { id: r.segment, image: r.image@ }, v);
                assert(version_plain(before, table, id, v));
            } else {
                let k = choose|k: int|
                    0 <= k < items.len() && (#[trigger] items[k]).key == key && v == segwrite::placed(items[k], r.segment, locs[k]);
                lemma_loaded_plain(before, after, rows, items, locs, r, meta, k);
            }
        }
    }
}

proof fn lemma_loaded_plain(
    before: &State,
    after: &State,
    rows: Seq<BulkRow>,
    items: Seq<ItemView>,
    locs: Seq<u64>,
    r: BulkLoad,
    meta: RunMetaView,
    k: int,
)
    requires
        columns_apart(before),
        before.inv(),
        before.index.sound(),
        before.committed_version < u64::MAX,
        before.table_view(r.table@) is Some,
        bulk::is_load(before, r.table@, rows, items, locs, r),
        bulk::load_taken(before, after, r, meta),
        0 <= k < items.len(),
        forall|k: int| 0 <= k < rows.len() ==> record::references_kept(
            before.table_view(r.table@)->0.columns,
            bulk::complete(before.table_view(r.table@)->0, (#[trigger] rows[k]).record@),
            record::external_views(rows[k].external@),
            before.blobs@,
        ),
    ensures
        segment::payload_of(after.images(), segwrite::placed(items[k], r.segment, locs[k]).kind) matches Ok(Some(b))
            ==> record::names_apart(b),
{
    let t = before.table_view(r.table@)->0;
    before.lemma_epoch(r.table@);
    bulk::lemma_load_read(before, after, rows, items, locs, r, meta, k, u64::MAX);
    reveal(bulk::rows_ready);
    assert(bulk::row_ready(t, r.table@, r.version, bulk::prev_at(bulk::high_of(before, r.table@), items, k), rows[k], items[k]));
    record::lemma_encoded_apart(
        t.columns,
        bulk::complete(t, rows[k].record@),
        record::external_views(rows[k].external@),
        before.blobs@,
    );
}

/// Opening gives back what the records held.
pub proof fn lemma_open_plain(st: &State, now: &State, d: Disk)
    requires
        payloads_plain(st),
        disk::keeps(d, st),
        disk::keeps(d, now),
        now.catalog@ == st.catalog@,
    ensures
        payloads_plain(now),
{
    assert forall|table: Seq<char>, id: Seq<char>| #[trigger] content_from(st, now, table, id) by {
        assert forall|v: VersionView, payload: Result<Option<Seq<u8>>, ErrorView>| #[trigger]
            counts_as(now, table, id, v, payload) implies exists|u: VersionView| #[trigger] counts_as(st, table, id, u, payload) by {
            let key = version::key_of(encode_utf8(table), encode_utf8(id));
            disk::lemma_state_lists(d, st, table, id);
            disk::lemma_state_lists(d, now, table, id);
            let s = st.versions(table, encode_utf8(id))->Ok_0;
            assert(disk::backed(d, key, v));
            if d.logs(d.version, u64::MAX, key, v) {
                assert(s.contains(v));
                assert(counts_as(st, table, id, v, payload));
            } else {
                let u = choose|u: VersionView| d.stores(key, u) && #[trigger] disk::same_place(d.segments, v, u);
                let w = choose|w: VersionView| s.contains(w) && #[trigger] disk::same_place(d.segments, w, u);
                assert(counts_as(st, table, id, w, payload));
            }
        }
    }
    lemma_plain_carried(st, now);
}

// ---- Rewrites ---------------------------------------------------------------

/// No two fields have one name.
pub open spec fn names_distinct(fields: Seq<RawField>) -> bool {
    forall|i: int, j: int| 0 <= i < j < fields.len() ==> (#[trigger] fields[i]).0 != (#[trigger] fields[j]).0
}

/// The fields of a payload, by their places.
proof fn lemma_nth(buf: Seq<u8>, pos: int, count: nat, fields: Seq<RawField>, i: nat)
    requires
        payload::fields_from(buf, pos, count) == Ok::<Seq<RawField>, Seq<char>>(fields),
        i < count,
    ensures
        fields.len() == count,
        record::nth_field(buf, pos, i) matches Ok(f) && f.0 == fields[i as int].0,
    decreases count,
{
    let (name, at) = payload::text_name_at(buf, pos)->Ok_0;
    let end = value::field_end(buf, at)->Ok_0;
    let rest = payload::fields_from(buf, end, (count - 1) as nat)->Ok_0;
    assert(fields == seq![(name, buf.subrange(at, end))] + rest);
    if count == 1 {
        assert(rest.len() == 0);
    }
    if i > 0 {
        lemma_nth(buf, end, (count - 1) as nat, rest, (i - 1) as nat);
        assert(fields[i as int] == rest[i - 1]);
    } else if count > 1 {
        lemma_nth(buf, end, (count - 1) as nat, rest, 0);
    }
}

proof fn lemma_apart(buf: Seq<u8>, fields: Seq<RawField>)
    requires
        payload::fields_of(buf) == Ok::<Seq<RawField>, Seq<char>>(fields),
    ensures
        record::names_apart(buf) <==> names_distinct(fields),
        payload::count_of(buf) == Ok::<nat, Seq<char>>(fields.len()),
{
    let n = payload::count_of(buf)->Ok_0;
    if n > 0 {
        lemma_nth(buf, 2, n, fields, 0);
    }
    if record::names_apart(buf) {
        assert forall|i: int, j: int| 0 <= i < j < fields.len() implies (#[trigger] fields[i]).0 != (#[trigger] fields[j]).0 by {
            lemma_nth(buf, 2, n, fields, i as nat);
            lemma_nth(buf, 2, n, fields, j as nat);
            assert(record::nth_field(buf, 2, i as nat) is Ok && record::nth_field(buf, 2, j as nat) is Ok);
        }
    }
    if names_distinct(fields) {
        assert forall|i: nat, j: nat| i < j < n implies ((#[trigger] record::nth_field(buf, 2, i)) matches Ok(a) && (
        #[trigger] record::nth_field(buf, 2, j)) matches Ok(b) ==> a.0 != b.0) by {
            lemma_nth(buf, 2, n, fields, i);
            lemma_nth(buf, 2, n, fields, j);
            assert(fields[i as int].0 != fields[j as int].0);
        }
    }
}

/// A value stands alone as it stood among others.
proof fn lemma_value_alone(buf: Seq<u8>, at: int, end: int)
    requires
        0 <= at <= buf.len(),
        value::field_end(buf, at) == Ok::<int, Seq<char>>(end),
    ensures
        at < end <= buf.len(),
        value::field_end(buf.subrange(at, end), 0) == Ok::<int, Seq<char>>(end - at),
{
    let v = buf.subrange(at, end);
    assert(v[0] == buf[at]);
    if v.len() >= 5 {
        assert(buf.subrange(at + 1, at + 5) =~= v.subrange(1, 5));
    }
    if v.len() >= 3 {
        assert(buf.subrange(at + 1, at + 3) =~= v.subrange(1, 3));
    }
}

/// The fields of a payload are whole.
pub proof fn lemma_whole_fields(buf: Seq<u8>, pos: int, count: nat, fields: Seq<RawField>)
    requires
        0 <= pos <= buf.len(),
        payload::fields_from(buf, pos, count) == Ok::<Seq<RawField>, Seq<char>>(fields),
    ensures
        forall|i: int| 0 <= i < fields.len() ==> payload::whole_field(#[trigger] fields[i]),
    decreases count,
{
    if count > 0 {
        let (name, at) = payload::text_name_at(buf, pos)->Ok_0;
        let end = value::field_end(buf, at)->Ok_0;
        let rest = payload::fields_from(buf, end, (count - 1) as nat)->Ok_0;
        crate::bytes::lemma_radix_small();
        crate::bytes::lemma_le_value_bound(buf.subrange(pos, pos + 2));
        lemma_value_alone(buf, at, end);
        lemma_whole_fields(buf, end, (count - 1) as nat, rest);
        assert(fields == seq![(name, buf.subrange(at, end))] + rest);
        assert forall|i: int| 0 <= i < fields.len() implies payload::whole_field(#[trigger] fields[i]) by {
            if i > 0 {
                assert(fields[i] == rest[i - 1]);
            }
        }
    }
}

/// Every field of a rewritten payload comes from one before it, in order.
proof fn lemma_rewritten_from(fields: Seq<RawField>, rename: Option<(Seq<u8>, Seq<u8>)>, remove: Option<Seq<u8>>)
    requires
        names_distinct(fields),
        rename matches Some(r) ==> payload::no_field(fields, r.1) && r.1.len() <= u16::MAX && valid_utf8(r.1),
        forall|i: int| 0 <= i < fields.len() ==> payload::whole_field(#[trigger] fields[i]),
    ensures
        ({
            let out = payload::rewritten(fields, rename, remove);
            &&& names_distinct(out)
            &&& out.len() <= fields.len()
            &&& forall|i: int| 0 <= i < out.len() ==> payload::whole_field(#[trigger] out[i])
            &&& forall|i: int| 0 <= i < out.len() ==> exists|k: int|
                0 <= k < fields.len() && (#[trigger] fields[k]).1 == (#[trigger] out[i]).1 && out[i].0 == payload::renamed(
                    fields[k].0,
                    rename,
                )
        }),
    decreases fields.len(),
{
    let out = payload::rewritten(fields, rename, remove);
    if fields.len() > 0 {
        let front = fields.drop_last();
        let f = fields.last();
        assert forall|i: int, j: int| 0 <= i < j < front.len() implies (#[trigger] front[i]).0 != (#[trigger] front[j]).0 by {
            assert(fields[i].0 != fields[j].0);
        }
        assert forall|i: int| 0 <= i < front.len() implies payload::whole_field(#[trigger] front[i]) by {
            assert(fields[i] == front[i]);
        }
        if rename is Some {
            assert forall|i: int| 0 <= i < front.len() implies (#[trigger] front[i]).0 != (rename->0).1 by {
                assert(fields[i].0 != (rename->0).1);
            }
        }
        lemma_rewritten_from(front, rename, remove);
        let head = payload::rewritten(front, rename, remove);
        assert(fields[fields.len() - 1] == f);
        assert(payload::whole_field(f));
        assert forall|i: int| 0 <= i < out.len() implies exists|k: int|
            0 <= k < fields.len() && (#[trigger] fields[k]).1 == (#[trigger] out[i]).1 && out[i].0 == payload::renamed(
                fields[k].0,
                rename,
            ) by {
            if i < head.len() {
                assert(out[i] == head[i]);
                let k = choose|k: int|
                    0 <= k < front.len() && (#[trigger] front[k]).1 == head[i].1 && head[i].0 == payload::renamed(front[k].0, rename);
                assert(fields[k] == front[k]);
            } else {
                assert(fields[fields.len() - 1].1 == out[i].1);
            }
        }
        assert forall|i: int, j: int| 0 <= i < j < out.len() implies (#[trigger] out[i]).0 != (#[trigger] out[j]).0 by {
            if j < head.len() {
                assert(out[i] == head[i] && out[j] == head[j]);
            } else {
                assert(out[i] == head[i]);
                let k = choose|k: int|
                    0 <= k < front.len() && (#[trigger] front[k]).1 == head[i].1 && head[i].0 == payload::renamed(front[k].0, rename);
                assert(fields[k].0 != f.0);
            }
        }
        assert forall|i: int| 0 <= i < out.len() implies payload::whole_field(#[trigger] out[i]) by {
            if i < head.len() {
                assert(out[i] == head[i]);
            }
        }
    }
}

/// A rewrite keeps the names of a payload distinct, where a new name is new.
proof fn lemma_transformed_plain(rw: RewriteView, table: Seq<char>, p: Seq<u8>)
    requires
        record::names_apart(p),
        compact::names_fit(rw),
        payload::transformed(rw, table, p) is Ok,
        name_new(rw, table, p),
    ensures
        record::names_apart(payload::transformed(rw, table, p)->Ok_0),
{
    let (rename, remove) = match rw {
        RewriteView::RenameColumn { from, to, .. } => (Some((encode_utf8(from), encode_utf8(to))), None),
        RewriteView::DropColumn { column, .. } => (None, Some(encode_utf8(column))),
        _ => (None::<(Seq<u8>, Seq<u8>)>, None::<Seq<u8>>),
    };
    if payload::transformed(rw, table, p)->Ok_0 != p {
        let fields = payload::fields_of(p)->Ok_0;
        lemma_apart(p, fields);
        lemma_whole_fields(p, 2, fields.len(), fields);
        if let RewriteView::RenameColumn { to, .. } = rw {
            encode_utf8_valid_utf8(to);
        }
        lemma_rewritten_from(fields, rename, remove);
        let out = payload::rewritten(fields, rename, remove);
        crate::bytes::lemma_radix_small();
        crate::bytes::lemma_le_value_bound(p.subrange(0, 2));
        payload::lemma_payload_round_trip(out);
        lemma_apart(payload::payload_bytes(out), out);
    }
}

/// The new name of a column is no name of the payload.
pub open spec fn name_new(rw: RewriteView, table: Seq<char>, p: Seq<u8>) -> bool {
    rw matches RewriteView::RenameColumn { table: t, to, .. } ==> t == table ==> (payload::fields_of(p) matches Ok(fields)
        ==> payload::no_field(fields, encode_utf8(to)))
}

/// The new name of a column is none that a stored record of the table has.
pub open spec fn version_renames(st: &State, rw: RewriteView, table: Seq<char>, id: Seq<char>, v: VersionView) -> bool {
    segment::payload_of(st.images(), v.kind) matches Ok(Some(p)) ==> counts_as(st, table, id, v, Ok(Some(p))) ==> name_new(rw, table, p)
}

/// Carrying out a schema change by a rewrite keeps the names of the stored
/// records distinct, where the new name of a column is new.
pub proof fn lemma_rewrite_plain(
    before: &State,
    after: &State,
    rw: RewriteView,
    marks: Seq<u64>,
    sources: Seq<Source>,
    locs: Seq<u64>,
    r: Rewritten,
    bytes: u64,
    is_ddl: bool,
)
    requires
        payloads_plain(before),
        before.wf(),
        compact::names_fit(rw),
        compact::is_rewritten(before, rw, marks, sources, locs, r),
        compact::rewrite_taken(before, after, r, bytes, is_ddl),
        forall|i: int| 0 <= i < sources.len() ==> before.table_view((#[trigger] sources[i]).table) is Some,
        forall|table: Seq<char>, id: Seq<char>, v: VersionView| #[trigger] version_renames(before, rw, table, id, v),
    ensures
        payloads_plain(after),
{
    let items = compact::all_items(before, rw, marks, sources, sources.len() as int);
    assert forall|table: Seq<char>, id: Seq<char>, v: VersionView| #[trigger] version_plain(after, table, id, v) by {
        if counts_as(after, table, id, v, segment::payload_of(after.images(), v.kind)) {
            let key = version::key_of(encode_utf8(table), encode_utf8(id));
            disk_laws::lemma_new_run(items, locs, r.segment, r.catalog@, r.run.rows(), key);
            let list = primary::entries_of(paged::values_of(r.run.rows(), key))->Ok_0;
            let e = Seq::<VersionView>::empty();
            assert(after.index.runs@.drop_last() =~= Seq::<primary::Run>::empty());
            assert(primary::run_entries(after.index.runs@.drop_last(), key) == Ok::<Seq<VersionView>, Seq<char>>(e));
            assert(e + list =~= list);
            assert(primary::run_entries(after.index.runs@, key) == Ok::<Seq<VersionView>, Seq<char>>(list));
            assert(list + e + e =~= list);
            let k = choose|k: int| #[trigger] disk_laws::run_item(items, locs, r.segment, r.catalog@, key, v, k);
            lemma_item_plain(before, rw, marks, sources, locs, r, k);
            lemma_item_read(after, items[k], r, locs[k]);
        }
    }
}

proof fn lemma_item_read(after: &State, m: ItemView, r: Rewritten, at: u64)
    requires
        after.images() == (if r.metas@.len() == 0 {
            Seq::<segment::SegmentView>::empty()
        } else {
            seq![segment::SegmentView { id: r.segment, image: r.image@ }]
        }),
        segwrite::located_at(m, at, r.image@),
        segwrite::item_fits(m),
    ensures
        segment::payload_of(after.images(), segwrite::placed(m, r.segment, at).kind) matches Ok(Some(b)) ==> m.payload == Some(b),
{
    if r.metas@.len() > 0 {
        let images = after.images();
        assert(images.last() == segment::SegmentView { id: r.segment, image: r.image@ });
    }
    if m.payload is Some {
        assert(m.payload->0.len() as u32 == m.payload->0.len());
    }
}

proof fn lemma_item_plain(
    before: &State,
    rw: RewriteView,
    marks: Seq<u64>,
    sources: Seq<Source>,
    locs: Seq<u64>,
    r: Rewritten,
    k: int,
)
    requires
        payloads_plain(before),
        before.wf(),
        compact::names_fit(rw),
        compact::is_rewritten(before, rw, marks, sources, locs, r),
        forall|i: int| 0 <= i < sources.len() ==> before.table_view((#[trigger] sources[i]).table) is Some,
        forall|table: Seq<char>, id: Seq<char>, v: VersionView| #[trigger] version_renames(before, rw, table, id, v),
        0 <= k < compact::all_items(before, rw, marks, sources, sources.len() as int).len(),
    ensures
        ({
            let m = compact::all_items(before, rw, marks, sources, sources.len() as int)[k];
            &&& m.payload matches Some(b) ==> record::names_apart(b)
            &&& segwrite::located_at(m, locs[k], r.image@)
            &&& segwrite::item_fits(m)
        }),
{
    let n = sources.len() as int;
    let items = compact::all_items(before, rw, marks, sources, n);
    let m = items[k];
    assert(items.contains(m));
    assert(segwrite::located_at(items[k], locs[k], r.image@));
    assert(segwrite::item_fits(items[k]));
    compact_laws::lemma_all_items(before, rw, marks, sources, n);
    let j = choose|j: int| #[trigger] compact_laws::source_at(before, rw, marks, sources, n, j, m);
    let s = sources[j];
    let w = compact::rewrite_of(before, rw, marks, s.table);
    let q = choose|q: int| #[trigger] compact_laws::table_source(w, s.groups, s.groups.len() as int, q, m);
    let g = s.groups[q];
    let i = choose|i: int| #[trigger] compact_laws::group_source(w, g, g.versions.len() as int, i, m);
    assert(compact::is_source(before, rw, sources[j]));
    let t = encode_utf8(s.table);
    assert(before.index.is_record(t, None, s.groups[q]));
    let vs = before.index.entries(version::key_of(t, g.id))->Ok_0;
    let u = g.versions[i];
    assert(vs.contains(u));
    let c = choose|c: int| 0 <= c < marks.len() && compact::chosen_at(g.versions, #[trigger] marks[c], w.epoch, i);
    assert(u.version > w.epoch);
    before.lemma_table(s.table);
    decode_utf8_encode_utf8(g.id);
    let id = decode_utf8(g.id);
    if m.payload is Some {
        let p = segment::payload_of(before.images(), u.kind)->Ok_0->0;
        assert(counts_as(before, s.table, id, u, Ok(Some(p))));
        assert(version_plain(before, s.table, id, u));
        assert(version_renames(before, rw, s.table, id, u));
        lemma_transformed_plain(rw, s.table, p);
    }
}

} // verus!
