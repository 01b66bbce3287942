//! Equality indexes over the life of a database: they stay in step with the
//! records, and a unique index keeps its promise.

use crate::apply;
use crate::bulk::{self, BulkLoad, BulkRow};
use crate::bytes;
use crate::catalog;
use crate::checkpoint::{self, Checkpoint};
use crate::checkpoint_laws;
use crate::commit;
use crate::commit_laws::{self, current_key, index_agrees};
use crate::compact::{self, Rewritten, Source};
use crate::compact_laws;
use crate::cow::CowMap;
use crate::ddl::RewriteView;
use crate::derived;
use crate::disk::{self, Disk};
use crate::disk_open;
use crate::disk_upkeep;
use crate::error::ErrorView;
use crate::frozen;
use crate::levels;
use crate::marks;
use crate::model;
use crate::open::{self, OpenInput, Opened};
use crate::paged::{self, PagedIndex};
use crate::pipeline::PlannedCommit;
use crate::prepare::{self, PreparedCommit, StagedTable};
use crate::primary::{self, RunMeta, RunMetaView};
use crate::publish::{self, PreviousView};
use crate::record::{self, RecordView};
use crate::recover::OpenedPrimary;
use crate::schema::{self, TableView};
use crate::secondary::{self, PairChange, SecIdx};
use crate::segment::{self, SegmentView};
use crate::segwrite::ItemView;
use crate::staged::{self, StagedView};
use crate::state::{self, SecSlot, State};
use crate::unique;
use crate::version::{self, VersionView};
use crate::visit::GroupView;
use vstd::prelude::*;
use vstd::utf8::*;

verus! {

/// No two records of a table have one value in a column.
pub open spec fn unique_now(st: &State, table: Seq<char>, column: Seq<char>) -> bool {
    forall|a: Seq<char>, b: Seq<char>|
        (#[trigger] current_key(st, table, column, a)) is Some && current_key(st, table, column, a) == (#[trigger] current_key(
            st,
            table,
            column,
            b,
        )) ==> a == b
}

/// The records of a table have the values in a column that they had.
pub open spec fn keys_same(before: &State, after: &State, table: Seq<char>, column: Seq<char>) -> bool {
    forall|id: Seq<char>| #[trigger] current_key(after, table, column, id) == current_key(before, table, column, id)
}

/// An index answers as it did.
pub open spec fn answers_same(before: &SecIdx, after: &SecIdx) -> bool {
    forall|key: Seq<u8>, id: Seq<u8>| #[trigger] after.member(key, id) == before.member(key, id)
}

/// A column of the table, other than the id that is not stored.
pub open spec fn stored_column(t: TableView, column: Seq<char>) -> bool {
    !(t.implicit_id && encode_utf8(column) == record::id_key())
}

/// An index is as good for the records after a step as before it, and a column
/// that holds no value twice does so still.
pub open spec fn index_kept(before: &State, after: &State, slot: SecSlot, now: SecSlot) -> bool {
    &&& index_agrees(before, slot) ==> index_agrees(after, now)
    &&& unique_now(before, slot.table@, slot.column@) ==> unique_now(after, slot.table@, slot.column@)
}

proof fn lemma_index_kept(before: &State, after: &State, slot: SecSlot, now: SecSlot)
    requires
        keys_same(before, after, slot.table@, slot.column@),
        now.table@ == slot.table@,
        now.column@ == slot.column@,
        answers_same(&slot.index, &now.index),
    ensures
        index_kept(before, after, slot, now),
{
    let table = slot.table@;
    let column = slot.column@;
    if index_agrees(before, slot) {
        assert forall|id: Seq<char>, key: Seq<u8>| key.len() <= u32::MAX implies (#[trigger] now.index.member(key, encode_utf8(id))
            <==> current_key(after, now.table@, now.column@, id) == Some(key)) by {
            assert(slot.index.member(key, encode_utf8(id)) <==> current_key(before, table, column, id) == Some(key));
            assert(current_key(after, table, column, id) == current_key(before, table, column, id));
        }
    }
    if unique_now(before, table, column) {
        assert forall|a: Seq<char>, b: Seq<char>|
            (#[trigger] current_key(after, table, column, a)) is Some && current_key(after, table, column, a) == (
            #[trigger] current_key(after, table, column, b)) implies a == b by {
            assert(current_key(before, table, column, a) == current_key(before, table, column, b));
        }
    }
}

/// Two states with the same row have the same key.
proof fn lemma_row_key(before: &State, after: &State, table: Seq<char>, column: Seq<char>, id: Seq<char>)
    requires
        before.table_view(table) is Some,
        after.table_view(table) == before.table_view(table),
        stored_column(before.table_view(table)->0, column),
        after.row(table, id, u64::MAX) == before.row(table, id, u64::MAX),
    ensures
        current_key(after, table, column, id) == current_key(before, table, column, id),
{
    let t = before.table_view(table)->0;
    let name = encode_utf8(column);
    match before.row(table, id, u64::MAX) {
        Ok(Some(_)) => {
            let a = segment::record_of(before.images(), before.blobs@, before.latest(table, encode_utf8(id))->Ok_0->0.kind)->Ok_0;
            let b = segment::record_of(after.images(), after.blobs@, after.latest(table, encode_utf8(id))->Ok_0->0.kind)->Ok_0;
            let x = state::with_id(t, a, id);
            let y = state::with_id(t, b, id);
            assert(x == y);
            assert(a.contains_key(name) == x.contains_key(name));
            assert(b.contains_key(name) == y.contains_key(name));
            if a.contains_key(name) {
                assert(a[name] == x[name] && b[name] == y[name]);
            }
        },
        _ => {},
    }
}

// ---- A commit ---------------------------------------------------------------

/// The index is one of its table, on a stored column of it.
pub open spec fn serves(st: &State, slot: SecSlot) -> bool {
    st.table_view(slot.table@) matches Some(t) && apply::indexed(t, t.indexes.len() as int, slot.column@) && record::is_column(
        t.columns,
        encode_utf8(slot.column@),
    )
}

/// Every blob that a staged record refers to out of line is there.
pub open spec fn references_hold(st: &State, s: Seq<StagedTable>) -> bool {
    forall|i: int, j: int|
        0 <= i < s.len() && 0 <= j < s[i].operations@.len() ==> ((#[trigger] s[i].operations@[j]).operation matches Some(rec)
            ==> record::references_kept(
            s[i].schema@.columns,
            rec@,
            record::external_views(s[i].operations@[j].external@),
            st.blobs@,
        ))
}

proof fn lemma_projected_key(columns: Seq<schema::ColumnView>, rec: RecordView, column: Seq<char>)
    requires
        record::is_column(columns, encode_utf8(column)),
    ensures
        staged::key_in(record::projected(columns, rec), column) == staged::key_in(rec, column),
{
    let name = encode_utf8(column);
    assert(record::projected(columns, rec).contains_key(name));
    assert(record::projected(columns, rec)[name] == record::value_in(rec, name));
}

/// The payload of one change of a validated commit holds the record of the
/// change.
pub proof fn lemma_final_payload(st: &State, from: Seq<StagedTable>, prepared: PreparedCommit, checked: Seq<Vec<publish::Previous>>, i: int, j: int)
    requires
        prepare::prepared_from(prepared.staged@, from),
        prepare::each_wf(from),
        prepare::all_fit(from),
        references_hold(st, from),
        commit::all_checked(st, prepared.staged@, checked, prepared.snapshot),
        staged::tables_wf(prepared.staged@),
        staged::is_staged(commit::final_tables(st, prepared.staged@, checked, prepared.snapshot), i, j),
    ensures
        change_stored(st, commit::final_tables(st, prepared.staged@, checked, prepared.snapshot), i, j),
{
    let t = prepared.staged@[i];
    let columns = t.schema@.columns;
    assert(prepare::carries(t.changes@, from[i].schema@, from[i].operations@));
    assert(commit::table_checked(st, t, checked[i]@, prepared.snapshot));
    assert(t.changes@[j].wf() && staged::replay_stored(t.schema@, t.changes@[j].replay));
    let p = checked[i]@[j]@;
    if commit::moved_on(p.entry, prepared.snapshot) {
        let r = t.changes@[j].replay->0.outcome->0;
        let inline = staged::all_inline(columns.len());
        assert(record::references_kept(columns, r.record@, inline, st.blobs@));
        record::lemma_record_round_trip(columns, r.record@, inline, st.blobs@);
    } else {
        let o = from[i].operations@[j];
        assert(t.changes@[j]@ == prepare::stored_change(from[i].schema@, o));
        if o.operation is Some {
            assert(prepare::table_fits(from[i]));
            assert(prepare::change_fits(from[i].schema@, o));
            record::lemma_record_round_trip(columns, o.operation->0@, record::external_views(o.external@), st.blobs@);
        }
    }
}

/// The payload of a change is the stored form of its record.
pub open spec fn change_stored(st: &State, all: Seq<StagedView>, i: int, j: int) -> bool {
    match all[i].changes[j].operation {
        Some(rec) => all[i].changes[j].payload matches Some(payload) && record::decoded(payload, st.blobs@) == Ok::<
            RecordView,
            ErrorView,
        >(record::projected(all[i].schema.columns, rec)),
        None => all[i].changes[j].payload is None,
    }
}

/// What a validated commit puts into an index and takes out of it is true: the
/// payloads hold the records that were staged or replayed, and what is taken
/// out is the record that was there.
pub proof fn lemma_plan_true(st: &State, from: Seq<StagedTable>, prepared: PreparedCommit, checked: Seq<Vec<publish::Previous>>, slot: SecSlot)
    requires
        st.wf(),
        prepare::prepared_from(prepared.staged@, from),
        prepare::each_wf(from),
        prepare::all_fit(from),
        references_hold(st, from),
        staged::tables_wf(prepared.staged@),
        commit::all_checked(st, prepared.staged@, checked, prepared.snapshot),
        serves(st, slot),
    ensures
        commit_laws::changes_true(
            st,
            commit::final_tables(st, prepared.staged@, checked, prepared.snapshot),
            publish::previous_views(checked),
            slot,
        ),
{
    let all = commit::final_tables(st, prepared.staged@, checked, prepared.snapshot);
    let p = publish::previous_views(checked);
    marks::lemma_checked_entries(st, prepared.staged@, checked, prepared.snapshot);
    assert forall|i: int, j: int| #[trigger] staged::is_staged(all, i, j) && all[i].name == slot.table@ implies {
        &&& apply::indexed(all[i].schema, all[i].schema.indexes.len() as int, slot.column@)
        &&& apply::key_of_record(p[i][j].prior, slot.column@) == current_key(st, slot.table@, slot.column@, all[i].changes[j].id)
        &&& match all[i].changes[j].payload {
            Some(payload) => {
                &&& record::decoded(payload, st.blobs@) matches Ok(rec) && staged::key_in(rec, slot.column@) == apply::key_of_record(
                    all[i].changes[j].operation,
                    slot.column@,
                )
            },
            None => all[i].changes[j].operation is None,
        }
    } by {
        let t = prepared.staged@[i];
        assert(st.table_view(t.name@) == Some(t.schema@));
        st.lemma_table(t.name@);
        assert(commit::table_checked(st, t, checked[i]@, prepared.snapshot));
        assert(p[i][j] == checked[i]@[j]@);
        assert(commit::checked_change(st, t.schema@, t.changes@[j], prepared.snapshot) is Ok);
        lemma_final_payload(st, from, prepared, checked, i, j);
        if all[i].changes[j].operation is Some {
            lemma_projected_key(t.schema@.columns, all[i].changes[j].operation->0, slot.column@);
        }
    }
}

/// The key of a record once a commit is published.
proof fn lemma_key_after(
    before: &State,
    after: &State,
    all: Seq<StagedView>,
    p: Seq<Seq<PreviousView>>,
    version: u64,
    slot: SecSlot,
    id: Seq<char>,
)
    requires
        before.inv(),
        publish::published(before, after, all, p, version),
        before.committed_version < version,
        staged::changes_distinct(all),
        staged::schemas_current(before, all),
        forall|i: int| 0 <= i < all.len() ==> (#[trigger] all[i]).schema.epoch < version,
        forall|i: int, j: int| #[trigger] staged::is_staged(all, i, j) ==> before.versions(
            all[i].name,
            encode_utf8(all[i].changes[j].id),
        ) is Ok,
        before.table_view(slot.table@) is Some,
        commit_laws::changes_true(before, all, p, slot),
    ensures
        staged::has_change(all, slot.table@, id) ==> exists|i: int, j: int|
            #[trigger] staged::stages(all, i, j, slot.table@, id) && staged::is_staged(all, i, j) && current_key(
                after,
                slot.table@,
                slot.column@,
                id,
            ) == apply::key_of_record(all[i].changes[j].operation, slot.column@),
        !staged::has_change(all, slot.table@, id) ==> current_key(after, slot.table@, slot.column@, id) == current_key(
            before,
            slot.table@,
            slot.column@,
            id,
        ),
{
    assert forall|i: int| 0 <= i < all.len() implies encode_utf8((#[trigger] all[i]).name).len() <= u32::MAX by {
        before.lemma_table(all[i].name);
    }
    before.lemma_table(slot.table@);
    if staged::has_change(all, slot.table@, id) {
        let (i, j) = choose|i: int, j: int| #[trigger] staged::stages(all, i, j, slot.table@, id);
        assert(staged::is_staged(all, i, j));
        commit_laws::lemma_reads_commit(before, after, all, p, version, i, j, u64::MAX);
        assert(staged::stages(all, i, j, slot.table@, id));
    } else {
        commit_laws::lemma_untouched(before, after, all, p, version, slot.table@, id, u64::MAX);
    }
}

/// A commit that validation let through keeps every unique index: where no two
/// records had one value before, no two have one after it.
pub proof fn lemma_unique_kept(
    before: &State,
    after: &State,
    all: Seq<StagedView>,
    p: Seq<Seq<PreviousView>>,
    version: u64,
    at: int,
    k: int,
)
    requires
        before.inv(),
        publish::published(before, after, all, p, version),
        before.committed_version < version,
        staged::changes_distinct(all),
        staged::schemas_current(before, all),
        forall|i: int| 0 <= i < all.len() ==> (#[trigger] all[i]).schema.epoch < version,
        forall|i: int, j: int| #[trigger] staged::is_staged(all, i, j) ==> before.versions(
            all[i].name,
            encode_utf8(all[i].changes[j].id),
        ) is Ok,
        0 <= at < before.secondary@.len(),
        serves(before, before.secondary@[at]),
        index_agrees(before, before.secondary@[at]),
        commit_laws::changes_true(before, all, p, before.secondary@[at]),
        state::slot_of(before.secondary@, before.secondary@[at].table@, before.secondary@[at].column@) == Some(at),
        unique::unique_ok(before, all),
        ({
            let t = before.table_view(before.secondary@[at].table@)->0;
            0 <= k < t.indexes.len() && t.indexes[k].unique && t.indexes[k].column == before.secondary@[at].column@
        }),
        unique_now(before, before.secondary@[at].table@, before.secondary@[at].column@),
    ensures
        unique_now(after, before.secondary@[at].table@, before.secondary@[at].column@),
{
    let slot = before.secondary@[at];
    let table = slot.table@;
    let column = slot.column@;
    assert forall|a: Seq<char>, b: Seq<char>|
        (#[trigger] current_key(after, table, column, a)) is Some && current_key(after, table, column, a) == (
        #[trigger] current_key(after, table, column, b)) implies a == b by {
        if a != b {
            lemma_key_after(before, after, all, p, version, slot, a);
            lemma_key_after(before, after, all, p, version, slot, b);
            let key = current_key(after, table, column, a)->0;
            if staged::has_change(all, table, a) && staged::has_change(all, table, b) {
                let (i, j) = lemma_claim(before, after, all, slot, k, a);
                let (x, y) = lemma_claim(before, after, all, slot, k, b);
                assert(unique::collide(all, i, j, k, x, y, k));
            } else if staged::has_change(all, table, a) {
                lemma_not_taken(before, after, all, at, k, a, b);
            } else if staged::has_change(all, table, b) {
                lemma_not_taken(before, after, all, at, k, b, a);
            } else {
                assert(current_key(before, table, column, a) == current_key(before, table, column, b));
            }
        }
    }
}

/// A changed record that has a value claims it.
proof fn lemma_claim(before: &State, after: &State, all: Seq<StagedView>, slot: SecSlot, k: int, id: Seq<char>) -> (r: (int, int))
    requires
        staged::schemas_current(before, all),
        before.table_view(slot.table@) matches Some(t) && 0 <= k < t.indexes.len() && t.indexes[k].unique && t.indexes[k].column
            == slot.column@,
        exists|i: int, j: int|
            #[trigger] staged::stages(all, i, j, slot.table@, id) && staged::is_staged(all, i, j) && current_key(
                after,
                slot.table@,
                slot.column@,
                id,
            ) == apply::key_of_record(all[i].changes[j].operation, slot.column@),
        current_key(after, slot.table@, slot.column@, id) is Some,
    ensures
        unique::claims(all, r.0, r.1, k),
        unique::claimed(all, r.0, r.1, k) == current_key(after, slot.table@, slot.column@, id),
        all[r.0].name == slot.table@,
        all[r.0].schema.indexes[k].column == slot.column@,
        all[r.0].changes[r.1].id == id,
{
    let (i, j) = choose|i: int, j: int|
        #[trigger] staged::stages(all, i, j, slot.table@, id) && staged::is_staged(all, i, j) && current_key(
            after,
            slot.table@,
            slot.column@,
            id,
        ) == apply::key_of_record(all[i].changes[j].operation, slot.column@);
    assert(before.table_view(all[i].name) == Some(all[i].schema));
    (i, j)
}

/// No record that a commit leaves alone has a value that the commit claims.
proof fn lemma_not_taken(before: &State, after: &State, all: Seq<StagedView>, at: int, k: int, a: Seq<char>, b: Seq<char>)
    requires
        0 <= at < before.secondary@.len(),
        staged::schemas_current(before, all),
        state::slot_of(before.secondary@, before.secondary@[at].table@, before.secondary@[at].column@) == Some(at),
        index_agrees(before, before.secondary@[at]),
        unique::unique_ok(before, all),
        before.table_view(before.secondary@[at].table@) matches Some(t) && 0 <= k < t.indexes.len() && t.indexes[k].unique
            && t.indexes[k].column == before.secondary@[at].column@,
        exists|i: int, j: int|
            #[trigger] staged::stages(all, i, j, before.secondary@[at].table@, a) && staged::is_staged(all, i, j) && current_key(
                after,
                before.secondary@[at].table@,
                before.secondary@[at].column@,
                a,
            ) == apply::key_of_record(all[i].changes[j].operation, before.secondary@[at].column@),
        current_key(after, before.secondary@[at].table@, before.secondary@[at].column@, a) is Some,
        !staged::has_change(all, before.secondary@[at].table@, b),
        a != b,
    ensures
        current_key(before, before.secondary@[at].table@, before.secondary@[at].column@, b) != current_key(
            after,
            before.secondary@[at].table@,
            before.secondary@[at].column@,
            a,
        ),
{
    let slot = before.secondary@[at];
    let (i, j) = lemma_claim(before, after, all, slot, k, a);
    let key = current_key(after, slot.table@, slot.column@, a)->0;
    if current_key(before, slot.table@, slot.column@, b) == Some(key) {
        assert(key.len() <= u32::MAX);
        assert(slot.index.member(key, encode_utf8(b)));
        assert(unique::taken_by(before, all, i, j, k, b));
    }
}

/// A commit that was let through and published.
pub open spec fn accepted(before: &State, after: &State, all: Seq<StagedView>, p: Seq<Seq<PreviousView>>, version: u64) -> bool {
    &&& before.inv()
    &&& publish::published(before, after, all, p, version)
    &&& before.committed_version < version
    &&& staged::changes_distinct(all)
    &&& staged::schemas_current(before, all)
    &&& forall|i: int| 0 <= i < all.len() ==> (#[trigger] all[i]).schema.epoch < version
    &&& forall|i: int, j: int| #[trigger] staged::is_staged(all, i, j) ==> before.versions(
        all[i].name,
        encode_utf8(all[i].changes[j].id),
    ) is Ok && change_stored(before, all, i, j)
}

/// A transaction was prepared, over an earlier state, and planned.
pub open spec fn is_planned(
    before: &State,
    tables: Seq<StagedTable>,
    capacity: int,
    first: &State,
    prepared: PreparedCommit,
    planned: PlannedCommit,
) -> bool {
    &&& before.inv()
    &&& before.committed_version < u64::MAX
    &&& prepare::all_wf(tables)
    &&& prepare::is_prepared(first, prepared.snapshot, tables, capacity, prepared)
    &&& references_hold(before, prepare::arranged(tables))
    &&& planned.version == before.committed_version + 1
    &&& planned.validated.stands_for(before, prepared.staged@, prepared.snapshot)
    &&& commit::rules_kept(before, model::views(planned.validated.staged@))
}

/// What is known of a planned commit that is published.
pub proof fn lemma_accepted(
    before: &State,
    after: &State,
    tables: Seq<StagedTable>,
    capacity: int,
    first: &State,
    prepared: PreparedCommit,
    planned: PlannedCommit,
)
    requires
        is_planned(before, tables, capacity, first, prepared, planned),
        publish::published(
            before,
            after,
            model::views(planned.validated.staged@),
            publish::previous_views(planned.validated.previous@),
            planned.version,
        ),
    ensures
        accepted(
            before,
            after,
            model::views(planned.validated.staged@),
            publish::previous_views(planned.validated.previous@),
            planned.version,
        ),
{
    let all = model::views(planned.validated.staged@);
    let checked = planned.validated.previous@;
    let from = prepare::arranged(tables);
    prepare::lemma_arranged_wf(tables);
    commit::lemma_final_ids(before, prepared.staged@, checked, prepared.snapshot);
    marks::lemma_checked_entries(before, prepared.staged@, checked, prepared.snapshot);
    assert forall|i: int| 0 <= i < all.len() implies (#[trigger] all[i]).schema.epoch < planned.version by {
        before.lemma_epoch(all[i].name);
    }
    assert forall|i: int, j: int| #[trigger] staged::is_staged(all, i, j) implies before.versions(
        all[i].name,
        encode_utf8(all[i].changes[j].id),
    ) is Ok && change_stored(before, all, i, j) by {
        assert(before.latest(all[i].name, encode_utf8(all[i].changes[j].id)) is Ok);
        lemma_final_payload(before, from, prepared, checked, i, j);
    }
}

/// What a transaction that was prepared and planned does to an index when it is
/// published: the index stays in step with the records, and a unique one keeps
/// its promise.
pub proof fn lemma_commit_indexes(
    before: &State,
    after: &State,
    tables: Seq<StagedTable>,
    capacity: int,
    first: &State,
    prepared: PreparedCommit,
    planned: PlannedCommit,
    at: int,
)
    requires
        is_planned(before, tables, capacity, first, prepared, planned),
        publish::published(
            before,
            after,
            model::views(planned.validated.staged@),
            publish::previous_views(planned.validated.previous@),
            planned.version,
        ),
        0 <= at < before.secondary@.len(),
        serves(before, before.secondary@[at]),
        index_agrees(before, before.secondary@[at]),
    ensures
        index_agrees(after, after.secondary@[at]),
        is_unique(before, before.secondary@[at]) && unique_now(before, before.secondary@[at].table@, before.secondary@[at].column@)
            ==> unique_now(after, before.secondary@[at].table@, before.secondary@[at].column@),
{
    let all = model::views(planned.validated.staged@);
    let checked = planned.validated.previous@;
    let p = publish::previous_views(checked);
    let slot = before.secondary@[at];
    prepare::lemma_arranged_wf(tables);
    lemma_plan_true(before, prepare::arranged(tables), prepared, checked, slot);
    lemma_accepted(before, after, tables, capacity, first, prepared, planned);
    commit_laws::lemma_index_in_step(before, after, all, p, planned.version, at);
    if is_unique(before, slot) && unique_now(before, slot.table@, slot.column@) {
        let t = before.table_view(slot.table@)->0;
        let k = choose|k: int| 0 <= k < t.indexes.len() && (#[trigger] t.indexes[k]).unique && t.indexes[k].column == slot.column@;
        lemma_own_slot(before.secondary@, at);
        lemma_declared_unique(before, slot.table@, k);
        lemma_unique_kept(before, after, all, p, planned.version, at, k);
    }
}

/// The table has the index as a unique one.
pub open spec fn is_unique(st: &State, slot: SecSlot) -> bool {
    st.table_view(slot.table@) matches Some(t) && exists|k: int|
        0 <= k < t.indexes.len() && (#[trigger] t.indexes[k]).unique && t.indexes[k].column == slot.column@
}

proof fn lemma_declared_unique(st: &State, table: Seq<char>, k: int)
    requires
        st.table_view(table) matches Some(t) && 0 <= k < t.indexes.len() && t.indexes[k].unique,
    ensures
        unique::any_unique(st.catalog@),
{
    let names = schema::table_names(st.catalog@);
    model::lemma_find(names, table);
    let i = model::find(names, table)->0;
    assert(unique::is_unique_index(st.catalog@, i, k));
}

proof fn lemma_own_slot(slots: Seq<SecSlot>, at: int)
    requires
        state::slots_distinct(slots),
        0 <= at < slots.len(),
    ensures
        state::slot_of(slots, slots[at].table@, slots[at].column@) == Some(at),
{
    state::lemma_slot_of(slots, slots[at].table@, slots[at].column@);
    match state::slot_of(slots, slots[at].table@, slots[at].column@) {
        Some(i) => {
            if i < at {
                assert(slots[i].table@ != slots[at].table@ || slots[i].column@ != slots[at].column@);
            } else if at < i {
                assert(slots[at].table@ != slots[i].table@ || slots[at].column@ != slots[i].column@);
            }
        },
        None => {},
    }
}

// ---- Upkeep -----------------------------------------------------------------

/// A state with the same files and blobs that shows the same newest versions.
proof fn lemma_same_latest(before: &State, after: &State, table: Seq<char>, column: Seq<char>)
    requires
        after.images() == before.images(),
        after.blobs@ == before.blobs@,
        forall|id: Seq<char>| #[trigger] after.latest(table, encode_utf8(id)) == before.latest(table, encode_utf8(id)),
    ensures
        keys_same(before, after, table, column),
{
    assert forall|id: Seq<char>| #[trigger] current_key(after, table, column, id) == current_key(before, table, column, id) by {
        assert(after.latest(table, encode_utf8(id)) == before.latest(table, encode_utf8(id)));
    }
}

/// A checkpoint leaves every index in step.
pub proof fn lemma_checkpoint_index(before: &State, after: &State, d: Disk, c: Checkpoint, meta: RunMetaView, at: int)
    requires
        before.inv(),
        disk::keeps(d, before),
        before.index.frozen is None,
        c.segment == before.next_segment_id,
        checkpoint::is_checkpoint(before.index.delta.pairs(), before.catalog@, before.committed_version, before.metas@, c),
        checkpoint::taken_over(before, after, c, meta, c.superseded, c.run.rows().len() > 0),
        after.index.delta@ == Map::<Seq<u8>, Seq<VersionView>>::empty(),
        after.index.frozen is None,
        0 <= at < before.secondary@.len(),
        before.table_view(before.secondary@[at].table@) matches Some(t) && stored_column(t, before.secondary@[at].column@),
    ensures
        index_kept(before, after, before.secondary@[at], after.secondary@[at]),
{
    let slot = before.secondary@[at];
    marks::lemma_avoids(d, before);
    assert forall|id: Seq<char>| #[trigger] current_key(after, slot.table@, slot.column@, id) == current_key(
        before,
        slot.table@,
        slot.column@,
        id,
    ) by {
        checkpoint_laws::lemma_checkpoint_keeps_rows(before, after, c, meta, slot.table@, id, u64::MAX);
        lemma_row_key(before, after, slot.table@, slot.column@, id);
    }
    lemma_index_kept(before, after, slot, slot);
}

/// A checkpoint of what was frozen leaves every index in step.
pub proof fn lemma_frozen_index(before: &State, after: &State, d: Disk, c: Checkpoint, meta: RunMetaView, superseded: bool, version: u64, at: int)
    requires
        before.inv(),
        disk::keeps(d, before),
        before.index.frozen is Some,
        c.segment == before.next_segment_id,
        checkpoint::is_checkpoint(before.index.frozen->0.delta.pairs(), before.catalog@, version, before.metas@, c),
        checkpoint::taken_over(before, after, c, meta, superseded, true),
        after.index.delta == before.index.delta,
        after.index.frozen is None,
        0 <= at < before.secondary@.len(),
        before.table_view(before.secondary@[at].table@) matches Some(t) && stored_column(t, before.secondary@[at].column@),
    ensures
        index_kept(before, after, before.secondary@[at], after.secondary@[at]),
{
    let slot = before.secondary@[at];
    marks::lemma_avoids(d, before);
    assert forall|id: Seq<char>| #[trigger] current_key(after, slot.table@, slot.column@, id) == current_key(
        before,
        slot.table@,
        slot.column@,
        id,
    ) by {
        checkpoint_laws::lemma_frozen_checkpoint_keeps_rows(before, after, c, meta, superseded, version, slot.table@, id, u64::MAX);
        lemma_row_key(before, after, slot.table@, slot.column@, id);
    }
    lemma_index_kept(before, after, slot, slot);
}

/// Freezing leaves every index in step.
pub proof fn lemma_freeze_index(before: &State, after: &State, at: int)
    requires
        after.catalog == before.catalog,
        after.segments == before.segments,
        after.blobs == before.blobs,
        after.secondary == before.secondary,
        before.index.frozen is None,
        after.index.runs == before.index.runs,
        after.index.frozen matches Some(f) && f.delta == before.index.delta,
        after.index.delta@ == Map::<Seq<u8>, Seq<VersionView>>::empty(),
        0 <= at < before.secondary@.len(),
    ensures
        index_kept(before, after, before.secondary@[at], after.secondary@[at]),
{
    let slot = before.secondary@[at];
    assert forall|id: Seq<char>| #[trigger] after.latest(slot.table@, encode_utf8(id)) == before.latest(slot.table@, encode_utf8(id)) by {
        checkpoint_laws::lemma_freeze_keeps_versions(before, after, version::key_of(encode_utf8(slot.table@), encode_utf8(id)));
    }
    lemma_same_latest(before, after, slot.table@, slot.column@);
    lemma_index_kept(before, after, slot, slot);
}

/// Thawing leaves every index in step.
pub proof fn lemma_thaw_index(before: &State, after: &State, at: int)
    requires
        before.versions_ok(),
        after.catalog == before.catalog,
        after.segments == before.segments,
        after.blobs == before.blobs,
        after.secondary == before.secondary,
        after.index.runs == before.index.runs,
        after.index.frozen is None,
        checkpoint::merged_back(before.index.delta@, before.index.frozen_map(), after.index.delta@),
        0 <= at < before.secondary@.len(),
    ensures
        index_kept(before, after, before.secondary@[at], after.secondary@[at]),
{
    let slot = before.secondary@[at];
    assert forall|id: Seq<char>| #[trigger] after.latest(slot.table@, encode_utf8(id)) == before.latest(slot.table@, encode_utf8(id)) by {
        checkpoint_laws::lemma_thaw_keeps_versions(before, after, slot.table@, encode_utf8(id), u64::MAX);
    }
    lemma_same_latest(before, after, slot.table@, slot.column@);
    lemma_index_kept(before, after, slot, slot);
}

/// Two lists of the same versions have the same newest one.
proof fn lemma_newest_alike(s: Seq<VersionView>, t: Seq<VersionView>)
    requires
        primary::consistent(s),
        forall|v: VersionView| s.contains(v) <==> t.contains(v),
    ensures
        primary::newest_of(s, u64::MAX) == primary::newest_of(t, u64::MAX),
{
    primary::lemma_newest_of(s, u64::MAX);
    primary::lemma_newest_of(t, u64::MAX);
    match (primary::newest_of(s, u64::MAX), primary::newest_of(t, u64::MAX)) {
        (Some(a), Some(b)) => {
            assert(t.contains(a) && s.contains(b));
            let i = s.index_of(a);
            let j = s.index_of(b);
            let k = t.index_of(a);
            assert(s[j].version <= s[i].version && t[k].version <= b.version);
            assert(s[i] == s[j]);
        },
        (Some(a), None) => {
            assert(t.contains(a));
            let k = t.index_of(a);
            assert(t[k].version > u64::MAX);
        },
        (None, Some(b)) => {
            assert(s.contains(b));
            let k = s.index_of(b);
            assert(s[k].version > u64::MAX);
        },
        (None, None) => {},
    }
}

/// Merging runs of the directory leaves every index in step.
pub proof fn lemma_merge_index(before: &State, after: &State, d: Disk, at: int)
    requires
        before.versions_ok(),
        disk::keeps(d, before),
        after.catalog == before.catalog,
        after.segments == before.segments,
        after.blobs == before.blobs,
        after.secondary == before.secondary,
        after.index.delta == before.index.delta,
        after.index.frozen == before.index.frozen,
        forall|row: (Seq<u8>, Seq<u8>)|
            #[trigger] levels::runs_hold(after.index.runs@, row) <==> levels::runs_hold(before.index.runs@, row),
        0 <= at < before.secondary@.len(),
    ensures
        index_kept(before, after, before.secondary@[at], after.secondary@[at]),
{
    let slot = before.secondary@[at];
    assert forall|id: Seq<char>| #[trigger] after.latest(slot.table@, encode_utf8(id)) == before.latest(slot.table@, encode_utf8(id)) by {
        let key = version::key_of(encode_utf8(slot.table@), encode_utf8(id));
        assert(primary::run_entries(before.index.runs@, key) is Ok);
        disk_upkeep::lemma_merged_entries(before.index.runs@, after.index.runs@, key);
        let a = primary::run_entries(before.index.runs@, key)->Ok_0;
        let b = primary::run_entries(after.index.runs@, key)->Ok_0;
        let f = primary::resident(before.index.frozen_map(), key);
        let r = primary::resident(before.index.delta@, key);
        assert(before.index.entries(key) == Ok::<Seq<VersionView>, Seq<char>>(a + f + r));
        assert(after.index.entries(key) == Ok::<Seq<VersionView>, Seq<char>>(b + f + r));
        checkpoint_laws::lemma_concat_contains(a, f);
        checkpoint_laws::lemma_concat_contains(a + f, r);
        checkpoint_laws::lemma_concat_contains(b, f);
        checkpoint_laws::lemma_concat_contains(b + f, r);
        assert forall|v: VersionView| (a + f + r).contains(v) <==> (b + f + r).contains(v) by {
            assert((a + f).contains(v) <==> a.contains(v) || f.contains(v));
            assert((b + f).contains(v) <==> b.contains(v) || f.contains(v));
        }
        lemma_newest_alike(a + f + r, b + f + r);
    }
    lemma_same_latest(before, after, slot.table@, slot.column@);
    lemma_index_kept(before, after, slot, slot);
}

/// A load into a table, which has no index then, leaves the indexes of the other
/// tables in step.
pub proof fn lemma_load_index(
    before: &State,
    after: &State,
    d: Disk,
    rows: Seq<BulkRow>,
    items: Seq<ItemView>,
    locs: Seq<u64>,
    r: BulkLoad,
    meta: RunMetaView,
    at: int,
)
    requires
        before.inv(),
        disk::keeps(d, before),
        before.committed_version < u64::MAX,
        before.table_view(r.table@) is Some,
        bulk::is_load(before, r.table@, rows, items, locs, r),
        bulk::load_taken(before, after, r, meta),
        0 <= at < before.secondary@.len(),
        before.table_view(before.secondary@[at].table@) is Some,
        before.secondary@[at].table@ != r.table@,
    ensures
        index_kept(before, after, before.secondary@[at], after.secondary@[at]),
{
    let slot = before.secondary@[at];
    assert forall|id: Seq<char>| #[trigger] current_key(after, slot.table@, slot.column@, id) == current_key(
        before,
        slot.table@,
        slot.column@,
        id,
    ) by {
        lemma_load_key(before, after, d, rows, items, locs, r, meta, slot.table@, slot.column@, id);
    }
    lemma_index_kept(before, after, slot, slot);
}

#[verifier::spinoff_prover]
#[verifier::rlimit(60)]
proof fn lemma_load_versions(
    before: &State,
    after: &State,
    rows: Seq<BulkRow>,
    items: Seq<ItemView>,
    locs: Seq<u64>,
    r: BulkLoad,
    meta: RunMetaView,
    table: Seq<char>,
    id: Seq<char>,
    v: VersionView,
)
    requires
        before.wf(),
        before.table_view(r.table@) is Some,
        before.table_view(r.table@)->0.epoch < r.version,
        before.versions(table, encode_utf8(id)) is Ok,
        bulk::is_load(before, r.table@, rows, items, locs, r),
        bulk::load_taken(before, after, r, meta),
        before.table_view(table) is Some,
        table != r.table@,
    ensures
        after.versions(table, encode_utf8(id)) is Ok,
        before.versions(table, encode_utf8(id))->Ok_0.contains(v) <==> after.versions(table, encode_utf8(id))->Ok_0.contains(v),
{
    let key = version::key_of(encode_utf8(table), encode_utf8(id));
    before.lemma_table(r.table@);
    before.lemma_table(table);
    bulk::lemma_record_loaded(before, after, rows, items, locs, r, meta, table, id);
    let s = before.index.entries(key)->Ok_0;
    let t = after.index.entries(key)->Ok_0;
    if t.contains(v) && !s.contains(v) {
        crate::disk_loads::lemma_load_items(before, rows, items, locs, r);
        let k = choose|k: int|
            0 <= k < items.len() && (#[trigger] items[k]).key == key && v == crate::segwrite::placed(items[k], r.segment, locs[k]);
        assert(items[k].table == r.table@);
        version::lemma_key_injective(encode_utf8(r.table@), encode_utf8(items[k].id), encode_utf8(table), encode_utf8(id));
        bytes::lemma_utf8_injective(r.table@, table);
    }
}

#[verifier::spinoff_prover]
proof fn lemma_load_key(
    before: &State,
    after: &State,
    d: Disk,
    rows: Seq<BulkRow>,
    items: Seq<ItemView>,
    locs: Seq<u64>,
    r: BulkLoad,
    meta: RunMetaView,
    table: Seq<char>,
    column: Seq<char>,
    id: Seq<char>,
)
    requires
        before.inv(),
        disk::keeps(d, before),
        before.committed_version < u64::MAX,
        before.table_view(r.table@) is Some,
        bulk::is_load(before, r.table@, rows, items, locs, r),
        bulk::load_taken(before, after, r, meta),
        before.table_view(table) is Some,
        table != r.table@,
    ensures
        current_key(after, table, column, id) == current_key(before, table, column, id),
{
    let key = version::key_of(encode_utf8(table), encode_utf8(id));
    before.lemma_epoch(r.table@);
    marks::lemma_avoids(d, before);
    disk_open::lemma_kept_versions(d, before);
    assert(before.index.entries(key) is Ok);
    assert forall|v: VersionView| before.versions(table, encode_utf8(id))->Ok_0.contains(v) <==> after.versions(
        table,
        encode_utf8(id),
    )->Ok_0.contains(v) by {
        lemma_load_versions(before, after, rows, items, locs, r, meta, table, id, v);
    }
    lemma_load_versions(before, after, rows, items, locs, r, meta, table, id, VersionView { version: 0, kind: version::KindView::MemTombstone });
    let s = before.versions(table, encode_utf8(id))->Ok_0;
    lemma_newest_alike(s, after.versions(table, encode_utf8(id))->Ok_0);
    primary::lemma_newest_of(s, u64::MAX);
    assert(after.latest(table, encode_utf8(id)) == before.latest(table, encode_utf8(id)));
    if before.latest(table, encode_utf8(id))->Ok_0 is Some {
        let v = before.latest(table, encode_utf8(id))->Ok_0->0;
        assert(checkpoint_laws::has_version_at(before, key, v));
        checkpoint_laws::lemma_payload_kept(before.images(), SegmentView { id: r.segment, image: r.image@ }, v);
    }
}

/// A compaction that some reader of the newest version is kept for leaves every
/// index in step.
pub proof fn lemma_compaction_index(
    before: &State,
    after: &State,
    marks: Seq<u64>,
    sources: Seq<Source>,
    locs: Seq<u64>,
    r: Rewritten,
    bytes: u64,
    q: int,
    at: int,
)
    requires
        before.wf(),
        before.versions_ok(),
        compact::is_rewritten(before, RewriteView::Plain, marks, sources, locs, r),
        compact::rewrite_taken(before, after, r, bytes, false),
        after.versions_ok(),
        0 <= q < marks.len(),
        marks[q] >= before.committed_version,
        0 <= at < before.secondary@.len(),
        before.table_view(before.secondary@[at].table@) matches Some(t) && stored_column(t, before.secondary@[at].column@),
    ensures
        index_kept(before, after, before.secondary@[at], after.secondary@[at]),
{
    let slot = before.secondary@[at];
    assert forall|id: Seq<char>| #[trigger] current_key(after, slot.table@, slot.column@, id) == current_key(
        before,
        slot.table@,
        slot.column@,
        id,
    ) by {
        compact_laws::lemma_compaction_keeps_rows(before, after, marks, sources, locs, r, bytes, slot.table@, id, q);
        lemma_row_at_end(before, slot.table@, id, marks[q]);
        lemma_row_at_end(after, slot.table@, id, marks[q]);
        lemma_row_key(before, after, slot.table@, slot.column@, id);
    }
    lemma_index_kept(before, after, slot, after.secondary@[at]);
}

/// A reader at the committed version, or past it, sees the newest versions.
proof fn lemma_row_at_end(st: &State, table: Seq<char>, id: Seq<char>, mark: u64)
    requires
        st.versions_ok(),
        mark >= st.committed_version,
    ensures
        st.row(table, id, u64::MAX) == st.row(table, id, mark),
{
    let key = version::key_of(encode_utf8(table), encode_utf8(id));
    if st.index.entries(key) is Ok {
        lemma_newest_capped(st.index.entries(key)->Ok_0, mark);
    }
}

proof fn lemma_newest_capped(s: Seq<VersionView>, mark: u64)
    requires
        forall|i: int| 0 <= i < s.len() ==> (#[trigger] s[i]).version <= mark,
    ensures
        primary::newest_of(s, u64::MAX) == primary::newest_of(s, mark),
    decreases s.len(),
{
    if s.len() > 0 {
        let u = s.drop_last();
        assert forall|i: int| 0 <= i < u.len() implies (#[trigger] u[i]).version <= mark by {
            assert(u[i] == s[i]);
        }
        lemma_newest_capped(u, mark);
    }
}

/// Creating, changing and dropping tables leaves the indexes of the tables that
/// stay in step.
pub proof fn lemma_catalog_index(before: &State, after: &State, slot: SecSlot)
    requires
        disk_upkeep::same_stored(before, after),
        after.blobs == before.blobs,
        after.index.frozen == before.index.frozen,
        disk_upkeep::delta_kept(before, after),
        before.table_view(slot.table@) matches Some(u) && (after.table_view(slot.table@) matches Some(t) && t.epoch == u.epoch),
    ensures
        index_kept(before, after, slot, slot),
{
    let table = slot.table@;
    assert forall|id: Seq<char>| #[trigger] after.latest(table, encode_utf8(id)) == before.latest(table, encode_utf8(id)) by {
        assert(disk_upkeep::record_kept(before, after, table, id));
    }
    lemma_same_latest(before, after, table, slot.column@);
    lemma_index_kept(before, after, slot, slot);
}

/// Publishing changes of an index in the background leaves it in step.
pub proof fn lemma_background_index(
    before: &State,
    after: &State,
    slot: SecSlot,
    now: SecSlot,
    changes: CowMap<Vec<u8>, PairChange>,
    run: PagedIndex,
    meta: RunMeta,
)
    requires
        *after == (State { secondary: after.secondary, ..*before }),
        slot.index.wf(),
        now.table == slot.table,
        now.column == slot.column,
        changes.wf(),
        derived::holds_changes(changes, meta.generation, run),
        frozen::run_taken(&slot.index, &now.index, changes@, run, meta),
        derived::ops_before(slot.index.runs@, meta.generation),
        slot.index.runs@.len() == 0 || forall|pair: Seq<u8>| #[trigger]
            changes@.contains_key(pair) ==> slot.index.overlay@.contains_key(pair),
    ensures
        index_kept(before, after, slot, now),
{
    assert forall|id: Seq<char>| #[trigger] after.latest(slot.table@, encode_utf8(id)) == before.latest(slot.table@, encode_utf8(id)) by {}
    lemma_same_latest(before, after, slot.table@, slot.column@);
    assert forall|key: Seq<u8>, id: Seq<u8>| #[trigger] now.index.member(key, id) == slot.index.member(key, id) by {
        let pair = secondary::pair_of(key, id);
        bytes::lemma_be_len(key.len(), 4);
        frozen::lemma_background_keeps_pairs(&slot.index, &now.index, changes, run, meta, pair);
    }
    lemma_index_kept(before, after, slot, now);
}

/// Moving all changes of an index into a run leaves it in step.
pub proof fn lemma_consolidated_index(before: &State, after: &State, slot: SecSlot, now: SecSlot, version: u64, run: PagedIndex)
    requires
        *after == (State { secondary: after.secondary, ..*before }),
        slot.index.wf(),
        now.table == slot.table,
        now.column == slot.column,
        derived::holds_changes(slot.index.overlay, version, run),
        derived::ops_before(slot.index.runs@, version),
        now.index.overlay@ == Map::<Seq<u8>, PairChange>::empty(),
        now.index.runs@.len() == slot.index.runs@.len() + 1,
        now.index.runs@.drop_last() == slot.index.runs@,
        now.index.runs@.last().index.rows() == run.rows(),
    ensures
        index_kept(before, after, slot, now),
{
    assert forall|id: Seq<char>| #[trigger] after.latest(slot.table@, encode_utf8(id)) == before.latest(slot.table@, encode_utf8(id)) by {}
    lemma_same_latest(before, after, slot.table@, slot.column@);
    assert forall|key: Seq<u8>, id: Seq<u8>| #[trigger] now.index.member(key, id) == slot.index.member(key, id) by {
        let pair = secondary::pair_of(key, id);
        bytes::lemma_be_len(key.len(), 4);
        derived::lemma_consolidation_keeps_pairs(&slot.index, &now.index, version, run, pair);
    }
    lemma_index_kept(before, after, slot, now);
}

/// Putting a merged run of an index in the place of its inputs leaves it in step.
pub proof fn lemma_merged_runs_index(
    before: &State,
    after: &State,
    slot: SecSlot,
    now: SecSlot,
    inputs: Seq<primary::Run>,
    all: Seq<(Seq<u8>, Seq<u8>)>,
    selected: Seq<RunMetaView>,
    output: primary::Run,
)
    requires
        *after == (State { secondary: after.secondary, ..*before }),
        now.table == slot.table,
        now.column == slot.column,
        now.index.overlay == slot.index.overlay,
        now.index.runs@ == levels::remaining(slot.index.runs@, selected).push(output),
        levels::files_distinct(slot.index.runs@),
        selected.len() == inputs.len(),
        forall|i: int| 0 <= i < inputs.len() ==> slot.index.runs@.contains(#[trigger] inputs[i]),
        forall|i: int| 0 <= i < inputs.len() ==> #[trigger] selected[i] == inputs[i].meta@,
        forall|row: (Seq<u8>, Seq<u8>)| #[trigger] paged::holds_row(all, row) <==> levels::runs_hold(inputs, row),
        secondary::keeps_greatest(all, output.index.rows()),
        forall|key: Seq<u8>, id: Seq<u8>, value: Seq<u8>| #[trigger]
            levels::runs_hold(slot.index.runs@, (secondary::pair_of(key, id), value)) ==> secondary::operation_of(value) is Ok,
    ensures
        index_kept(before, after, slot, now),
{
    assert forall|id: Seq<char>| #[trigger] after.latest(slot.table@, encode_utf8(id)) == before.latest(slot.table@, encode_utf8(id)) by {}
    lemma_same_latest(before, after, slot.table@, slot.column@);
    assert forall|key: Seq<u8>, id: Seq<u8>| #[trigger] now.index.member(key, id) == slot.index.member(key, id) by {
        secondary::lemma_merge_keeps_answers(slot.index.runs@, inputs, all, selected, output, secondary::pair_of(key, id));
    }
    lemma_index_kept(before, after, slot, now);
}

// ---- Beginnings -------------------------------------------------------------

/// The index that a new table begins with is in step: neither has anything yet.
pub proof fn lemma_begun_index(st: &State, slot: SecSlot)
    requires
        st.versions_ok(),
        st.table_view(slot.table@) matches Some(t) && t.epoch == st.committed_version,
        slot.index.overlay@ == Map::<Seq<u8>, PairChange>::empty(),
        slot.index.runs@.len() == 0,
    ensures
        index_agrees(st, slot),
        unique_now(st, slot.table@, slot.column@),
{
    let table = slot.table@;
    assert forall|id: Seq<char>| (#[trigger] current_key(st, table, slot.column@, id)) is None by {
        let key = version::key_of(encode_utf8(table), encode_utf8(id));
        if st.index.entries(key) is Ok {
            let s = st.index.entries(key)->Ok_0;
            primary::lemma_newest_of(s, u64::MAX);
            if primary::newest_of(s, u64::MAX) is Some {
                let i = s.index_of(primary::newest_of(s, u64::MAX)->0);
                assert(s[i].version <= st.committed_version);
            }
        }
    }
    assert forall|id: Seq<char>, key: Seq<u8>| key.len() <= u32::MAX implies (#[trigger] slot.index.member(key, encode_utf8(id))
        <==> current_key(st, table, slot.column@, id) == Some(key)) by {
        let vals = secondary::run_values(slot.index.runs@, secondary::pair_of(key, encode_utf8(id)));
        assert(vals.len() == 0);
        assert(current_key(st, table, slot.column@, id) is None);
    }
}

/// A unique index that could be built stands over a column that holds no value
/// twice.
pub proof fn lemma_built_unique(st: &State, slot: SecSlot, version: u64, groups: Seq<GroupView>, run: PagedIndex)
    requires
        st.wf(),
        st.versions_ok(),
        st.table_view(slot.table@) is Some,
        derived::is_built(st, slot.table@, slot.column@, version, groups, run),
        slot.index.overlay@ == Map::<Seq<u8>, PairChange>::empty(),
        slot.index.runs@.len() == 1,
        slot.index.runs@[0].index.rows() == run.rows(),
        !catalog::repeats(run.rows()),
    ensures
        index_agrees(st, slot),
        unique_now(st, slot.table@, slot.column@),
{
    derived::lemma_built_index_agrees(st, slot, version, groups, run);
    let table = slot.table@;
    let column = slot.column@;
    assert forall|a: Seq<char>, b: Seq<char>|
        (#[trigger] current_key(st, table, column, a)) is Some && current_key(st, table, column, a) == (#[trigger] current_key(
            st,
            table,
            column,
            b,
        )) implies a == b by {
        let key = current_key(st, table, column, a)->0;
        assert(slot.index.member(key, encode_utf8(a)));
        assert(slot.index.member(key, encode_utf8(b)));
        lemma_rows_apart(slot, run.rows(), key, a, b);
    }
}

#[verifier::spinoff_prover]
proof fn lemma_rows_apart(slot: SecSlot, rows: Seq<(Seq<u8>, Seq<u8>)>, key: Seq<u8>, a: Seq<char>, b: Seq<char>)
    requires
        slot.index.overlay@ == Map::<Seq<u8>, PairChange>::empty(),
        slot.index.runs@.len() == 1,
        slot.index.runs@[0].index.rows() == rows,
        slot.index.member(key, encode_utf8(a)),
        slot.index.member(key, encode_utf8(b)),
        key.len() <= u32::MAX,
        !catalog::repeats(rows),
    ensures
        a == b,
{
    if a != b {
        let i = lemma_member_row(slot, rows, key, encode_utf8(a));
        let j = lemma_member_row(slot, rows, key, encode_utf8(b));
        if i == j {
            secondary::lemma_pair_injective(key, encode_utf8(a), key, encode_utf8(b));
            bytes::lemma_utf8_injective(a, b);
        }
        encode_utf8_valid_utf8(a);
        encode_utf8_valid_utf8(b);
        secondary::lemma_pair_round_trip(key, encode_utf8(a));
        secondary::lemma_pair_round_trip(key, encode_utf8(b));
        if i < j {
            assert(catalog::same_key(rows, i, j));
        } else {
            assert(catalog::same_key(rows, j, i));
        }
    }
}

/// Where a pair of an index with one run stands in it.
proof fn lemma_member_row(slot: SecSlot, rows: Seq<(Seq<u8>, Seq<u8>)>, key: Seq<u8>, id: Seq<u8>) -> (i: int)
    requires
        slot.index.overlay@ == Map::<Seq<u8>, PairChange>::empty(),
        slot.index.runs@.len() == 1,
        slot.index.runs@[0].index.rows() == rows,
        slot.index.member(key, id),
    ensures
        0 <= i < rows.len(),
        rows[i].0 == secondary::pair_of(key, id),
{
    let pair = secondary::pair_of(key, id);
    let vals = secondary::run_values(slot.index.runs@, pair);
    assert(slot.index.runs@.drop_last() =~= Seq::<primary::Run>::empty());
    assert(secondary::run_values(slot.index.runs@.drop_last(), pair) =~= Seq::<Seq<u8>>::empty());
    assert(slot.index.runs@.last() == slot.index.runs@[0]);
    assert(vals =~= paged::values_of(rows, pair));
    secondary::lemma_newest_op(vals);
    assert(vals.len() > 0);
    assert(vals.contains(vals[0]));
    paged::lemma_values_of(rows, pair, vals[0]);
    choose|i: int| 0 <= i < rows.len() && #[trigger] rows[i] == (pair, vals[0])
}

/// An index of an opened database, from where it comes.
proof fn lemma_opened_index(
    st: &State,
    d: Disk,
    input: &OpenInput,
    p: OpenedPrimary,
    lists: Seq<Seq<GroupView>>,
    o: Opened,
    slot: SecSlot,
    now: SecSlot,
)
    requires
        st.wf(),
        disk::keeps(d, st),
        disk::given(input, d, st),
        open::is_opened(input, p, lists, o),
        st.table_view(slot.table@) matches Some(t) && stored_column(t, slot.column@),
        now.table@ == slot.table@,
        now.column@ == slot.column@,
        ({
            ||| exists|groups: Seq<GroupView>|
                #[trigger] derived::is_built(
                    &o.state,
                    now.table@,
                    now.column@,
                    o.state.committed_version,
                    groups,
                    *now.index.runs@[0].index,
                ) && o.state.wf() && o.state.versions_ok() && now.index.runs@.len() == 1
            ||| slot.index.overlay@ == Map::<Seq<u8>, PairChange>::empty() && index_agrees(st, slot) && same_run_rows(
                slot.index.runs@,
                now.index.runs@,
            )
        }),
        now.index.overlay@ == Map::<Seq<u8>, PairChange>::empty(),
    ensures
        index_agrees(&o.state, now),
        unique_now(st, slot.table@, slot.column@) ==> unique_now(&o.state, slot.table@, slot.column@),
{
    let table = slot.table@;
    disk::lemma_open_restores(st, d, input, p, lists, o, table, Seq::empty(), u64::MAX);
    assert forall|id: Seq<char>| #[trigger] current_key(&o.state, table, slot.column@, id) == current_key(st, table, slot.column@, id) by {
        disk::lemma_open_restores(st, d, input, p, lists, o, table, id, u64::MAX);
        lemma_row_key(st, &o.state, table, slot.column@, id);
    }
    if slot.index.overlay@ == Map::<Seq<u8>, PairChange>::empty() && index_agrees(st, slot) && same_run_rows(
        slot.index.runs@,
        now.index.runs@,
    ) {
        assert forall|key: Seq<u8>, id: Seq<u8>| #[trigger] now.index.member(key, id) == slot.index.member(key, id) by {
            lemma_run_values_same(slot.index.runs@, now.index.runs@, secondary::pair_of(key, id));
        }
        lemma_index_kept(st, &o.state, slot, now);
    } else {
        let groups = choose|groups: Seq<GroupView>|
            #[trigger] derived::is_built(
                &o.state,
                now.table@,
                now.column@,
                o.state.committed_version,
                groups,
                *now.index.runs@[0].index,
            ) && o.state.wf() && o.state.versions_ok() && now.index.runs@.len() == 1;
        derived::lemma_built_index_agrees(&o.state, now, o.state.committed_version, groups, first_run(now));
        lemma_index_kept(st, &o.state, slot, SecSlot { index: slot.index, ..now });
    }
}

/// The definition that an opened index serves.
proof fn lemma_slot_source(
    st: &State,
    defs: Seq<open::DefView>,
    loaded: Seq<Option<Vec<primary::Run>>>,
    read_only: bool,
    n: int,
    slots: Seq<SecSlot>,
    at: int,
) -> (i: int)
    requires
        open::slots_opened(st, defs, loaded, read_only, n, slots),
        0 <= at < slots.len(),
    ensures
        0 <= i < n,
        open::slot_opened(st, defs[i], loaded[i], slots[at]),
    decreases n,
{
    if read_only && !open::runs_serve(loaded[n - 1]) {
        lemma_slot_source(st, defs, loaded, read_only, n - 1, slots, at)
    } else if at == slots.len() - 1 {
        n - 1
    } else {
        assert(slots.drop_last()[at] == slots[at]);
        lemma_slot_source(st, defs, loaded, read_only, n - 1, slots.drop_last(), at)
    }
}

/// Stored runs are those of an index that was in step when all its changes were
/// in them.
pub open spec fn runs_of(st: &State, def: open::DefView, runs: Seq<primary::Run>, slot: SecSlot) -> bool {
    &&& slot.table@ == def.table
    &&& slot.column@ == def.column
    &&& slot.index.overlay@ == Map::<Seq<u8>, PairChange>::empty()
    &&& index_agrees(st, slot)
    &&& same_run_rows(slot.index.runs@, runs)
}

/// Every index of an opened database is in step with the records, whether it was
/// made anew because its runs cannot serve or comes from stored runs that were in
/// step; and a column that held no value twice does so still.
pub proof fn lemma_opened_indexes(
    st: &State,
    d: Disk,
    input: &OpenInput,
    p: OpenedPrimary,
    lists: Seq<Seq<GroupView>>,
    o: Opened,
    at: int,
)
    requires
        st.wf(),
        disk::keeps(d, st),
        disk::given(input, d, st),
        open::is_opened(input, p, lists, o),
        o.state.versions_ok(),
        forall|i: int|
            0 <= i < input.defs().len() && open::runs_serve(#[trigger] input.index_runs@[i]) ==> exists|slot: SecSlot|
                #[trigger] runs_of(st, input.defs()[i], input.index_runs@[i]->0@, slot),
        0 <= at < o.state.secondary@.len(),
        st.table_view(o.state.secondary@[at].table@) matches Some(t) && stored_column(t, o.state.secondary@[at].column@),
    ensures
        index_agrees(&o.state, o.state.secondary@[at]),
        unique_now(st, o.state.secondary@[at].table@, o.state.secondary@[at].column@) ==> unique_now(
            &o.state,
            o.state.secondary@[at].table@,
            o.state.secondary@[at].column@,
        ),
{
    let now = o.state.secondary@[at];
    let defs = input.defs();
    let i = lemma_slot_source(&o.state, defs, input.index_runs@, input.read_only, defs.len() as int, o.state.secondary@, at);
    if open::runs_serve(input.index_runs@[i]) {
        let slot = choose|slot: SecSlot| #[trigger] runs_of(st, defs[i], input.index_runs@[i]->0@, slot);
        lemma_opened_index(st, d, input, p, lists, o, slot, now);
    } else {
        lemma_opened_index(st, d, input, p, lists, o, now, now);
    }
}

spec fn first_run(slot: SecSlot) -> PagedIndex {
    *slot.index.runs@[0].index
}

/// The runs hold the same rows, run by run.
pub open spec fn same_run_rows(a: Seq<primary::Run>, b: Seq<primary::Run>) -> bool {
    &&& a.len() == b.len()
    &&& forall|i: int| 0 <= i < a.len() ==> (#[trigger] a[i]).index.rows() == b[i].index.rows()
}

proof fn lemma_run_values_same(a: Seq<primary::Run>, b: Seq<primary::Run>, pair: Seq<u8>)
    requires
        same_run_rows(a, b),
    ensures
        secondary::run_values(a, pair) == secondary::run_values(b, pair),
    decreases a.len(),
{
    if a.len() > 0 {
        assert forall|i: int| 0 <= i < a.drop_last().len() implies (#[trigger] a.drop_last()[i]).index.rows()
            == b.drop_last()[i].index.rows() by {
            assert(a[i].index.rows() == b[i].index.rows());
        }
        lemma_run_values_same(a.drop_last(), b.drop_last(), pair);
        assert(a[a.len() - 1].index.rows() == b[b.len() - 1].index.rows());
    }
}

} // verus!
