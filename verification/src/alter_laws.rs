//! What adding a column asks of a table, and which records it fills.

use crate::alter::{self, IntentView, PlanView};
use crate::bytes;
use crate::ddl_laws;
use crate::derived;
use crate::error::ErrorView;
use crate::find;
use crate::find_laws;
use crate::index_laws;
use crate::primary;
use crate::reads;
use crate::record::{self, Record, RecordView};
use crate::schema::{ColumnView, TableView};
use crate::segment;
use crate::state::{self, State};
use crate::stream_laws::{self, payloads_plain};
use crate::txn::{self, TxnView};
use crate::txn_laws;
use crate::value::ValueView;
use crate::visit::{self, GroupView};
use vstd::prelude::*;
use vstd::utf8::*;

verus! {

// ---- What is accepted -------------------------------------------------------

/// A sound column is accepted exactly where the database can be written, the table
/// has no column of its name, and the records that are there can have a value in
/// it: it has a default, it may be null, or there are no records. With a default
/// the records are filled; without one the table has the column behind the others
/// at once, and nothing else of the catalog changes.
pub proof fn lemma_add_column_accepted(st: &State, read_only: bool, k: int, c: ColumnView, empty: bool)
    requires
        ddl_laws::tables_apart(st.catalog@),
        0 <= k < st.catalog@.len(),
    ensures
        ({
            let t = st.catalog@[k];
            let plan = alter::add_column_plan(st, read_only, None, t.name, c, empty);
            &&& plan is Ok <==> !read_only && !ddl_laws::has_column(t, c.name) && (c.default is Some || c.nullable || empty)
            &&& plan matches Ok(p) ==> if c.default is Some {
                p == PlanView::Carry(IntentView::AddColumn { table: t.name, column: c, not_null: !c.nullable })
            } else {
                &&& p is Publish
                &&& p->Publish_0.len() == st.catalog@.len()
                &&& forall|i: int| 0 <= i < st.catalog@.len() && i != k ==> #[trigger] p->Publish_0[i] == st.catalog@[i]
                &&& p->Publish_0[k].columns.len() == t.columns.len() + 1
                &&& p->Publish_0[k].columns.last() == c
                &&& forall|i: int| 0 <= i < t.columns.len() ==> #[trigger] p->Publish_0[k].columns[i] == t.columns[i]
                &&& p->Publish_0[k].name == t.name && p->Publish_0[k].epoch == t.epoch
                &&& p->Publish_0[k].indexes == t.indexes
                &&& p->Publish_0[k].vector_indexes == t.vector_indexes
                &&& p->Publish_0[k].text_indexes == t.text_indexes
            }
        }),
{
    let t = st.catalog@[k];
    ddl_laws::lemma_table_place(st.catalog@, k);
    ddl_laws::lemma_has_column(t, c.name);
}

// ---- Records ----------------------------------------------------------------

/// The table has the record now.
pub open spec fn has_record(st: &State, t: TableView, id: Seq<char>) -> bool {
    st.shows(t.name, encode_utf8(id), u64::MAX)
}

/// What a listed record is now.
proof fn lemma_held_now(st: &State, t: TableView, after: Option<Seq<u8>>, g: GroupView)
    requires
        st.versions_ok(),
        st.table_view(t.name) == Some(t),
        st.index.is_record(encode_utf8(t.name), after, g),
    ensures
        derived::is_held(g, t.epoch) <==> st.shows(t.name, g.id, u64::MAX),
        derived::is_held(g, t.epoch) ==> st.latest(t.name, g.id)->Ok_0->0 == g.versions.last(),
{
    assert(st.index.is_record(encode_utf8(t.name), None, g));
    find_laws::lemma_group_now(st, t, g);
    if g.versions.len() > 0 && g.versions.last().version <= t.epoch {
        find_laws::lemma_none_past(g.versions, t.epoch);
    }
}

/// A table is taken for empty only where it has no record, and where its records
/// can all be listed exactly there.
pub proof fn lemma_empty_has_no_record(
    st: &State,
    t: TableView,
    groups: Seq<GroupView>,
    fault: Option<ErrorView>,
)
    requires
        st.versions_ok(),
        st.table_view(t.name) == Some(t),
        find::is_walk(st, t, None, groups, fault),
    ensures
        alter::shows_any(st, t, groups, fault) ==> exists|id: Seq<char>| #[trigger] has_record(st, t, id),
        fault is None ==> (!alter::shows_any(st, t, groups, fault) <==> forall|id: Seq<char>| !(#[trigger] has_record(st, t, id))),
{
    let table = encode_utf8(t.name);
    let cut: Option<usize> = match fault {
        None => None,
        Some(_) => Some(groups.len() as usize),
    };
    assert(st.index.is_listing(table, None, cut, groups));
    if alter::shows_any(st, t, groups, fault) {
        let i = choose|i: int| 0 <= i < groups.len() && #[trigger] derived::is_held(groups[i], t.epoch);
        lemma_held_now(st, t, None, groups[i]);
        decode_utf8_encode_utf8(groups[i].id);
        assert(has_record(st, t, decode_utf8(groups[i].id)));
    }
    if fault is None && exists|id: Seq<char>| #[trigger] has_record(st, t, id) {
        let id = choose|id: Seq<char>| #[trigger] has_record(st, t, id);
        reads::lemma_versions_held(st, t.name, encode_utf8(id), u64::MAX);
        assert(visit::lists_id(groups, encode_utf8(id)));
        let i = choose|i: int| 0 <= i < groups.len() && (#[trigger] groups[i]).id == encode_utf8(id);
        lemma_held_now(st, t, None, groups[i]);
        assert(derived::is_held(groups[i], t.epoch));
    }
}

// ---- What is filled ---------------------------------------------------------

/// A record has no value in the column now, and its id stands after the cursor.
pub open spec fn lacks(st: &State, t: TableView, column: Seq<char>, after: Option<Seq<char>>, id: Seq<char>) -> bool {
    &&& st.row(t.name, id, u64::MAX) matches Ok(Some(rec)) && (!rec.contains_key(encode_utf8(column)) || rec[encode_utf8(column)] is Null)
    &&& after matches Some(a) ==> bytes::lex_lt(encode_utf8(a), encode_utf8(id))
}

/// The walk asks a listed record for what a read by its id gives.
proof fn lemma_lacks_value(st: &State, t: TableView, after: Option<Seq<char>>, g: GroupView, column: Seq<char>, id: Seq<char>)
    requires
        st.versions_ok(),
        payloads_plain(st),
        st.table_view(t.name) == Some(t),
        index_laws::stored_column(t, column),
        st.index.is_record(encode_utf8(t.name), find::after_bytes(after), g),
        g.id == encode_utf8(id),
        st.row(t.name, id, u64::MAX) is Ok,
        alter::lacks_value(st, t.epoch, g, column) is Ok,
    ensures
        alter::lacks_value(st, t.epoch, g, column)->Ok_0 <==> lacks(st, t, column, after, id),
{
    lemma_held_now(st, t, find::after_bytes(after), g);
    if derived::is_held(g, t.epoch) {
        let v = g.versions.last();
        let s = st.versions(t.name, encode_utf8(id))->Ok_0;
        primary::lemma_newest_of(s, u64::MAX);
        assert(stream_laws::version_plain(st, t.name, id, v));
        let p = segment::payload_of(st.images(), v.kind)->Ok_0->0;
        record::lemma_fill_record(p, st.blobs@, encode_utf8(column));
        let stored = record::decoded(p, st.blobs@)->Ok_0;
        assert(st.row(t.name, id, u64::MAX)->Ok_0->0 == state::with_id(t, stored, id));
    }
}

/// A record of a walk is to be filled.
pub open spec fn asks(st: &State, t: TableView, groups: Seq<GroupView>, column: Seq<char>, g: int) -> bool {
    alter::lacks_value(st, t.epoch, groups[g], column) == Ok::<bool, ErrorView>(true)
}

pub open spec fn is_asked(st: &State, t: TableView, groups: Seq<GroupView>, column: Seq<char>, n: int, id: Seq<char>) -> bool {
    exists|g: int| 0 <= g < n && groups[g].id == encode_utf8(id) && #[trigger] asks(st, t, groups, column, g)
}

pub open spec fn ids_rise(ids: Seq<Seq<char>>) -> bool {
    forall|i: int, j: int| 0 <= i < j < ids.len() ==> bytes::lex_lt(encode_utf8(#[trigger] ids[i]), encode_utf8(#[trigger] ids[j]))
}

/// The id is among the ids, or they are as many as were asked for and it stands
/// after them.
pub open spec fn has_or_later(ids: Seq<Seq<char>>, limit: usize, id: Seq<char>) -> bool {
    ids.contains(id) || (ids.len() == limit && (ids.len() > 0 ==> bytes::lex_lt(encode_utf8(ids.last()), encode_utf8(id))))
}

#[verifier::spinoff_prover]
#[verifier::rlimit(40)]
proof fn lemma_asked(st: &State, t: TableView, groups: Seq<GroupView>, column: Seq<char>, limit: usize, n: int)
    requires
        0 <= n <= groups.len(),
        forall|i: int| 0 <= i < groups.len() ==> valid_utf8((#[trigger] groups[i]).id),
        forall|i: int, j: int| 0 <= i < j < groups.len() ==> bytes::lex_lt((#[trigger] groups[i]).id, (#[trigger] groups[j]).id),
        alter::ids_lacking(st, t.epoch, groups, column, limit, n) is Ok,
    ensures
        ({
            let ids = alter::ids_lacking(st, t.epoch, groups, column, limit, n)->Ok_0;
            &&& ids.len() <= limit
            &&& forall|i: int| 0 <= i < ids.len() ==> is_asked(st, t, groups, column, n, #[trigger] ids[i])
            &&& ids_rise(ids)
            &&& forall|g: int| 0 <= g < n && #[trigger] asks(st, t, groups, column, g) ==> has_or_later(ids, limit, decode_utf8(groups[g].id))
            &&& ids.len() < limit ==> forall|g: int| 0 <= g < n ==> alter::lacks_value(st, t.epoch, #[trigger] groups[g], column) is Ok
        }),
    decreases n,
{
    if n > 0 {
        lemma_asked(st, t, groups, column, limit, n - 1);
        let done = alter::ids_lacking(st, t.epoch, groups, column, limit, n - 1)->Ok_0;
        let ids = alter::ids_lacking(st, t.epoch, groups, column, limit, n)->Ok_0;
        let last = decode_utf8(groups[n - 1].id);
        decode_utf8_encode_utf8(groups[n - 1].id);
        assert forall|i: int| 0 <= i < done.len() implies is_asked(st, t, groups, column, n, #[trigger] done[i]) && bytes::lex_lt(
            encode_utf8(done[i]),
            groups[n - 1].id,
        ) by {
            let g = choose|g: int| 0 <= g < n - 1 && groups[g].id == encode_utf8(done[i]) && #[trigger] asks(st, t, groups, column, g);
            assert(asks(st, t, groups, column, g));
            assert(bytes::lex_lt(groups[g].id, groups[n - 1].id));
        }
        if done.len() >= limit {
            assert(ids == done);
            assert forall|g: int| 0 <= g < n && #[trigger] asks(st, t, groups, column, g) implies has_or_later(
                ids,
                limit,
                decode_utf8(groups[g].id),
            ) by {
                if g == n - 1 && ids.len() > 0 {
                    assert(bytes::lex_lt(encode_utf8(done[done.len() - 1]), groups[n - 1].id));
                }
            }
        } else {
            let one = alter::lacks_value(st, t.epoch, groups[n - 1], column);
            assert(one is Ok);
            if one->Ok_0 {
                assert(ids == done.push(last));
                assert(asks(st, t, groups, column, n - 1));
                assert forall|i: int| 0 <= i < ids.len() implies is_asked(st, t, groups, column, n, #[trigger] ids[i]) by {
                    if i < done.len() {
                        assert(ids[i] == done[i]);
                    }
                }
                assert forall|i: int, j: int| 0 <= i < j < ids.len() implies bytes::lex_lt(
                    encode_utf8(#[trigger] ids[i]),
                    encode_utf8(#[trigger] ids[j]),
                ) by {
                    assert(ids[i] == done[i]);
                    if j < done.len() {
                        assert(ids[j] == done[j]);
                    }
                }
                assert forall|g: int| 0 <= g < n && #[trigger] asks(st, t, groups, column, g) implies has_or_later(
                    ids,
                    limit,
                    decode_utf8(groups[g].id),
                ) by {
                    if g == n - 1 {
                        assert(ids[done.len() as int] == last);
                    } else {
                        assert(done.contains(decode_utf8(groups[g].id)));
                        let i = done.index_of(decode_utf8(groups[g].id));
                        assert(ids[i] == done[i]);
                    }
                }
            } else {
                assert(ids == done);
            }
        }
    }
}

/// A batch of records to fill has at most as many as are asked for; each has no
/// value in the column and stands after the cursor; the ids rise; and a record
/// without a value is left out only behind as many as are asked for.
#[verifier::spinoff_prover]
#[verifier::rlimit(40)]
pub proof fn lemma_fill_passes_nothing_over(
    st: &State,
    t: TableView,
    column: Seq<char>,
    limit: usize,
    after: Option<Seq<char>>,
    ids: Seq<Seq<char>>,
    id: Seq<char>,
)
    requires
        st.versions_ok(),
        payloads_plain(st),
        st.table_view(t.name) == Some(t),
        index_laws::stored_column(t, column),
        limit > 0,
        alter::fill_answer(st, t, column, limit, after, Ok(ids)),
    ensures
        ids.len() <= limit,
        forall|i: int|
            0 <= i < ids.len() && st.row(t.name, #[trigger] ids[i], u64::MAX) is Ok ==> lacks(st, t, column, after, ids[i]),
        ids_rise(ids),
        lacks(st, t, column, after, id) && !ids.contains(id) ==> ids.len() == limit && bytes::lex_lt(
            encode_utf8(ids.last()),
            encode_utf8(id),
        ),
{
    let (groups, fault) = choose|groups: Seq<GroupView>, fault: Option<ErrorView>|
        #[trigger] find::is_walk(st, t, after, groups, fault) && Ok::<Seq<Seq<char>>, ErrorView>(ids) == (match alter::ids_lacking(
            st,
            t.epoch,
            groups,
            column,
            limit,
            groups.len() as int,
        ) {
            Err(e) => Err(e),
            Ok(ids) => match fault {
                Some(e) => if ids.len() >= limit {
                    Ok(ids)
                } else {
                    Err(e)
                },
                None => Ok(ids),
            },
        });
    let table = encode_utf8(t.name);
    let from = find::after_bytes(after);
    let cut: Option<usize> = match fault {
        None => None,
        Some(_) => Some(groups.len() as usize),
    };
    let n = groups.len() as int;
    assert(st.index.is_listing(table, from, cut, groups));
    lemma_asked(st, t, groups, column, limit, n);
    assert forall|i: int| 0 <= i < ids.len() && st.row(t.name, #[trigger] ids[i], u64::MAX) is Ok implies lacks(st, t, column, after, ids[i]) by {
        let g = choose|g: int| 0 <= g < n && groups[g].id == encode_utf8(ids[i]) && #[trigger] asks(st, t, groups, column, g);
        lemma_lacks_value(st, t, after, groups[g], column, ids[i]);
    }
    if lacks(st, t, column, after, id) && !ids.contains(id) {
        lemma_fill_covers(st, t, groups, cut, column, limit, after, ids, id);
    }
}

#[verifier::spinoff_prover]
proof fn lemma_fill_covers(
    st: &State,
    t: TableView,
    groups: Seq<GroupView>,
    cut: Option<usize>,
    column: Seq<char>,
    limit: usize,
    after: Option<Seq<char>>,
    ids: Seq<Seq<char>>,
    id: Seq<char>,
)
    requires
        st.versions_ok(),
        payloads_plain(st),
        st.table_view(t.name) == Some(t),
        index_laws::stored_column(t, column),
        limit > 0,
        st.index.is_listing(encode_utf8(t.name), find::after_bytes(after), cut, groups),
        cut is Some ==> ids.len() >= limit,
        ids.len() <= limit,
        forall|i: int| 0 <= i < ids.len() ==> is_asked(st, t, groups, column, groups.len() as int, #[trigger] ids[i]),
        forall|g: int|
            0 <= g < groups.len() && #[trigger] asks(st, t, groups, column, g) ==> has_or_later(ids, limit, decode_utf8(groups[g].id)),
        ids.len() < limit ==> forall|g: int| 0 <= g < groups.len() ==> alter::lacks_value(st, t.epoch, #[trigger] groups[g], column) is Ok,
        lacks(st, t, column, after, id),
        !ids.contains(id),
    ensures
        ids.len() == limit,
        bytes::lex_lt(encode_utf8(ids.last()), encode_utf8(id)),
{
    let n = groups.len() as int;
    let key = encode_utf8(id);
    reads::lemma_versions_held(st, t.name, key, u64::MAX);
    if visit::lists_id(groups, key) {
        let g = choose|g: int| 0 <= g < groups.len() && (#[trigger] groups[g]).id == key;
        encode_utf8_decode_utf8(id);
        lemma_lacking_readable(st, t, after, groups[g], column, id);
        lemma_lacks_value(st, t, after, groups[g], column, id);
        assert(asks(st, t, groups, column, g));
    } else {
        assert(ids.len() == limit);
        let last = ids[ids.len() - 1];
        let g = choose|g: int| 0 <= g < n && groups[g].id == encode_utf8(last) && #[trigger] asks(st, t, groups, column, g);
        if g < n - 1 {
            assert(bytes::lex_lt(groups[g].id, groups[n - 1].id));
            bytes::lemma_lex_transitive(groups[g].id, groups[n - 1].id, key);
        }
    }
}

/// A record that can be read can be asked for a value.
proof fn lemma_lacking_readable(st: &State, t: TableView, after: Option<Seq<char>>, g: GroupView, column: Seq<char>, id: Seq<char>)
    requires
        st.versions_ok(),
        payloads_plain(st),
        st.table_view(t.name) == Some(t),
        st.index.is_record(encode_utf8(t.name), find::after_bytes(after), g),
        g.id == encode_utf8(id),
        st.row(t.name, id, u64::MAX) matches Ok(Some(_)),
    ensures
        alter::lacks_value(st, t.epoch, g, column) is Ok,
{
    lemma_held_now(st, t, find::after_bytes(after), g);
    if derived::is_held(g, t.epoch) {
        let v = g.versions.last();
        let s = st.versions(t.name, encode_utf8(id))->Ok_0;
        primary::lemma_newest_of(s, u64::MAX);
        assert(stream_laws::version_plain(st, t.name, id, v));
        let p = segment::payload_of(st.images(), v.kind)->Ok_0->0;
        record::lemma_fill_record(p, st.blobs@, encode_utf8(column));
    }
}

/// The record with the patch over it: under every name of the patch the patch's
/// value, and under every other name what was there.
pub open spec fn is_patched(old: RecordView, patch: RecordView, new: RecordView) -> bool {
    forall|name: Seq<u8>|
        name != record::id_key() ==> if patch.contains_key(name) {
            #[trigger] new.contains_key(name) && new[name] == patch[name]
        } else {
            new.contains_key(name) == old.contains_key(name) && (old.contains_key(name) ==> new[name] == old[name])
        }
}

proof fn lemma_patch_error(columns: Seq<ColumnView>, rec: RecordView, patch: Seq<(Seq<u8>, ValueView)>)
    ensures
        txn::patched(columns, rec, patch) matches Err(e) ==> !(e is RecordNotFound),
    decreases patch.len(),
{
    if patch.len() > 0 {
        lemma_patch_error(columns, rec, patch.drop_last());
    }
}

/// A fill that is done has put the patch over every record of its list that was
/// there, and has left every other record as it was.
pub proof fn lemma_fill_reads_patch(
    before: TxnView,
    st: &State,
    limit: usize,
    table: Seq<char>,
    ids: Seq<Seq<char>>,
    patch: Record,
    n: int,
    after: TxnView,
    other: Seq<char>,
    id: Seq<char>,
)
    requires
        patch.wf(),
        0 <= n <= ids.len(),
        alter::filled(before, st, limit, table, ids, patch@, n, after, None),
        before.row(st, other, id) is Ok,
    ensures
        after.row(st, other, id) is Ok,
        after.row(st, other, id)->Ok_0 is Some <==> before.row(st, other, id)->Ok_0 is Some,
        before.row(st, other, id)->Ok_0 is Some ==> if other == table && ids.subrange(0, n).contains(id) {
            is_patched(before.row(st, other, id)->Ok_0->0, patch@, after.row(st, other, id)->Ok_0->0)
        } else {
            after.row(st, other, id) == before.row(st, other, id)
        },
    decreases n,
{
    if n > 0 {
        let (mid, step) = choose|mid: TxnView, step: Option<ErrorView>|
            alter::filled(before, st, limit, table, ids, patch@, n - 1, mid, None) && #[trigger] txn::update_outcome(
                mid,
                st,
                limit,
                table,
                ids[n - 1],
                patch@,
                after,
                step,
            ) && None::<ErrorView> == (match step {
                Some(ErrorView::RecordNotFound { .. }) => None,
                other => other,
            });
        lemma_fill_reads_patch(before, st, limit, table, ids, patch, n - 1, mid, other, id);
        let done = ids.subrange(0, n - 1);
        let now = ids.subrange(0, n);
        assert(now =~= done.push(ids[n - 1]));
        if done.contains(id) {
            assert(now[done.index_of(id)] == id);
        }
        if now.contains(id) && id != ids[n - 1] {
            let i = now.index_of(id);
            assert(done[i] == id);
        }
        if id == ids[n - 1] {
            assert(now[n - 1] == id);
        }
        match step {
            None => {
                txn_laws::lemma_update_reads_patch(mid, st, limit, table, ids[n - 1], patch, after, other, id);
            },
            Some(e) => {
                txn_laws::lemma_refused_changes_nothing(mid, st, limit, table, ids[n - 1], patch@, after, false, e, other, id);
                txn_laws::lemma_touched(mid, st, table, table, ids[n - 1]);
                if let Some(tx) = mid.touching(st, table) {
                    if let Ok(Some(rec)) = tx.row(st, table, ids[n - 1]) {
                        lemma_patch_error(tx.schema_of(table).columns, rec.remove(record::id_key()), reads::fields_of(patch@));
                    }
                }
            },
        }
    }
}

} // verus!
