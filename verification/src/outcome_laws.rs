//! What a transaction comes to once it is committed.

use crate::apply;
use crate::bytes;
use crate::commit_laws;
use crate::conflict_laws;
use crate::error::ErrorView;
use crate::index_laws;
use crate::model;
use crate::pairs;
use crate::pipeline::PlannedCommit;
use crate::prepare::{self, PreparedCommit, StagedTable};
use crate::publish;
use crate::record::{self, RecordView};
use crate::segment;
use crate::staged;
use crate::state::{self, State};
use crate::txn::{self, TxnView};
use crate::value::ValueView;
use vstd::prelude::*;
use vstd::utf8::*;

verus! {

/// The transaction changes the record.
pub open spec fn changes(tables: Seq<StagedTable>, a: int, j: int, table: Seq<char>, id: Seq<char>) -> bool {
    &&& 0 <= a < tables.len()
    &&& 0 <= j < tables[a].operations@.len()
    &&& tables[a].name@ == table
    &&& tables[a].operations@[j].id@ == id
}

/// Where the tables of a transaction stand among those that are prepared.
proof fn lemma_place(tables: Seq<StagedTable>, a: int) -> (i: int)
    requires
        0 <= a < tables.len(),
        tables[a].operations@.len() > 0,
    ensures
        0 <= i < prepare::arranged(tables).len(),
        prepare::arranged(tables)[i] == tables[a],
{
    prepare::lemma_arranged(tables);
    assert(tables.contains(tables[a]));
    assert(prepare::arranged(tables).contains(tables[a]));
    prepare::arranged(tables).index_of(tables[a])
}

/// A transaction that is committed gives a reader at its version, or later while
/// nothing newer is committed, every record as the transaction left it: one that
/// it deleted is gone, and one that it wrote has in every column the value that
/// was written, or null. Changes that are replayed over newer versions are not
/// spoken of here.
pub proof fn lemma_commit_gives_transaction(
    before: &State,
    after: &State,
    tables: Seq<StagedTable>,
    capacity: int,
    first: &State,
    prepared: PreparedCommit,
    planned: PlannedCommit,
    a: int,
    j: int,
    max: u64,
)
    requires
        index_laws::is_planned(before, tables, capacity, first, prepared, planned),
        publish::published(
            before,
            after,
            model::views(planned.validated.staged@),
            publish::previous_views(planned.validated.previous@),
            planned.version,
        ),
        0 <= a < tables.len(),
        0 <= j < tables[a].operations@.len(),
        tables[a].operations@[j].replay is None,
        planned.version <= max,
    ensures
        match tables[a].operations@[j].operation {
            None => after.row(tables[a].name@, tables[a].operations@[j].id@, max) == Ok::<Option<RecordView>, ErrorView>(None),
            Some(rec) => {
                let got = after.row(tables[a].name@, tables[a].operations@[j].id@, max);
                &&& got is Ok && got->Ok_0 is Some
                &&& forall|name: Seq<u8>|
                    #[trigger] record::is_column(tables[a].schema@.columns, name) && name != record::id_key()
                        ==> got->Ok_0->0.contains_key(name) && got->Ok_0->0[name] == (if rec@.contains_key(name) {
                        rec@[name]
                    } else {
                        ValueView::Null
                    })
                &&& tables[a].schema@.implicit_id ==> got->Ok_0->0.contains_key(record::id_key()) && got->Ok_0->0[record::id_key()]
                    == ValueView::Text(tables[a].operations@[j].id@)
            },
        },
{
    let all = model::views(planned.validated.staged@);
    let p = publish::previous_views(planned.validated.previous@);
    let from = prepare::arranged(tables);
    let i = lemma_place(tables, a);
    let o = tables[a].operations@[j];
    index_laws::lemma_accepted(before, after, tables, capacity, first, prepared, planned);
    assert(prepare::carries(prepared.staged@[i].changes@, from[i].schema@, from[i].operations@));
    conflict_laws::lemma_first_committer_wins(before, planned.validated, prepared.staged@, prepared.snapshot, i, j);
    let c = prepared.staged@[i].changes@[j];
    assert(c.replay is None);
    assert(all[i] == planned.validated.staged@[i]@);
    assert(all[i].changes[j] == prepare::stored_change(from[i].schema@, o));
    assert(staged::is_staged(all, i, j));
    assert forall|x: int| 0 <= x < all.len() implies encode_utf8((#[trigger] all[x]).name).len() <= u32::MAX by {
        before.lemma_table(all[x].name);
    }
    assert(before.table_view(all[i].name) == Some(all[i].schema));
    commit_laws::lemma_reads_commit(before, after, all, p, planned.version, i, j, max);
    assert(index_laws::change_stored(before, all, i, j));
    assert(after.table_view(all[i].name) == before.table_view(all[i].name));
    let v = apply::step_entry(publish::step_of(all[i], p[i], j), planned.version);
    if let Some(rec) = o.operation {
        let stored = record::projected(all[i].schema.columns, rec@);
        assert(segment::record_of(after.images(), after.blobs@, v.kind) == Ok::<RecordView, ErrorView>(stored));
        let row = state::with_id(all[i].schema, stored, o.id@);
        assert(after.row(all[i].name, o.id@, max) == Ok::<Option<RecordView>, ErrorView>(Some(row)));
        assert forall|name: Seq<u8>| #[trigger] record::is_column(tables[a].schema@.columns, name) && name != record::id_key() implies row.contains_key(
            name,
        ) && row[name] == (if rec@.contains_key(name) {
            rec@[name]
        } else {
            ValueView::Null
        }) by {
            assert(stored.contains_key(name) && stored[name] == record::value_in(rec@, name));
        }
    }
}

/// A record that a transaction does not change is read after its commit as before
/// it, by whatever reader.
pub proof fn lemma_commit_keeps_others(
    before: &State,
    after: &State,
    tables: Seq<StagedTable>,
    capacity: int,
    first: &State,
    prepared: PreparedCommit,
    planned: PlannedCommit,
    table: Seq<char>,
    id: Seq<char>,
    max: u64,
)
    requires
        index_laws::is_planned(before, tables, capacity, first, prepared, planned),
        publish::published(
            before,
            after,
            model::views(planned.validated.staged@),
            publish::previous_views(planned.validated.previous@),
            planned.version,
        ),
        before.table_view(table) is Some,
        forall|a: int, j: int| !(#[trigger] changes(tables, a, j, table, id)),
    ensures
        after.row(table, id, max) == before.row(table, id, max),
{
    let all = model::views(planned.validated.staged@);
    let p = publish::previous_views(planned.validated.previous@);
    let from = prepare::arranged(tables);
    index_laws::lemma_accepted(before, after, tables, capacity, first, prepared, planned);
    prepare::lemma_arranged(tables);
    before.lemma_table(table);
    assert forall|x: int| 0 <= x < all.len() implies encode_utf8((#[trigger] all[x]).name).len() <= u32::MAX by {
        before.lemma_table(all[x].name);
    }
    if staged::has_change(all, table, id) {
        let (i, j) = choose|i: int, j: int| #[trigger] staged::stages(all, i, j, table, id);
        assert(all[i] == planned.validated.staged@[i]@);
        assert(prepare::carries(prepared.staged@[i].changes@, from[i].schema@, from[i].operations@));
        conflict_laws::lemma_first_committer_wins(before, planned.validated, prepared.staged@, prepared.snapshot, i, j);
        assert(prepared.staged@[i].changes@[j]@ == prepare::stored_change(from[i].schema@, from[i].operations@[j]));
        assert(from.contains(from[i]));
        let a = tables.index_of(from[i]);
        assert(changes(tables, a, j, table, id));
    }
    commit_laws::lemma_untouched(before, after, all, p, planned.version, table, id, max);
}

// ---- What the transaction read ----------------------------------------------

/// The tables hold what a transaction does, record by record; where its blobs
/// stand is left open.
pub open spec fn are_changes_of(x: TxnView, tables: Seq<StagedTable>) -> bool {
    &&& tables.len() == x.tables.len()
    &&& forall|a: int| 0 <= a < tables.len() ==> {
        &&& (#[trigger] tables[a]).name@ == x.tables[a].name
        &&& tables[a].schema@ == x.tables[a].schema
        &&& pairs::to_map(txn::handed_pairs(tables[a].operations@)) == x.tables[a].operations
        &&& pairs::sorted(txn::handed_pairs(tables[a].operations@))
        &&& forall|j: int| 0 <= j < tables[a].operations@.len() ==> (#[trigger] tables[a].operations@[j]).replay is None
    }
}

/// What a transaction hands over holds what it does.
pub proof fn lemma_handed_over(x: TxnView, tables: Seq<StagedTable>)
    requires
        tables.len() == x.tables.len(),
        forall|i: int| 0 <= i < tables.len() ==> txn::is_handed(x.tables[i], #[trigger] tables[i]),
    ensures
        are_changes_of(x, tables),
{
    assert forall|a: int| 0 <= a < tables.len() implies {
        &&& (#[trigger] tables[a]).name@ == x.tables[a].name
        &&& tables[a].schema@ == x.tables[a].schema
        &&& pairs::to_map(txn::handed_pairs(tables[a].operations@)) == x.tables[a].operations
        &&& pairs::sorted(txn::handed_pairs(tables[a].operations@))
        &&& forall|j: int| 0 <= j < tables[a].operations@.len() ==> (#[trigger] tables[a].operations@[j]).replay is None
    } by {
        assert(txn::is_handed(x.tables[a], tables[a]));
        assert forall|j: int| 0 <= j < tables[a].operations@.len() implies (#[trigger] tables[a].operations@[j]).replay is None by {
            assert(txn::plain_change(x.tables[a].schema, tables[a].operations@[j]));
        }
    }
}

/// Once a transaction is committed, everyone reads what it read of the records
/// that it changed: none where it read none, and else a record with the same value
/// in every column that its own has; and of every other record they read what they
/// read before.
pub proof fn lemma_commit_reads_as_transaction(
    before: &State,
    after: &State,
    x: TxnView,
    tables: Seq<StagedTable>,
    capacity: int,
    first: &State,
    prepared: PreparedCommit,
    planned: PlannedCommit,
    table: Seq<char>,
    id: Seq<char>,
    max: u64,
)
    requires
        are_changes_of(x, tables),
        index_laws::is_planned(before, tables, capacity, first, prepared, planned),
        publish::published(
            before,
            after,
            model::views(planned.validated.staged@),
            publish::previous_views(planned.validated.previous@),
            planned.version,
        ),
        before.table_view(table) is Some,
        planned.version <= max,
    ensures
        match x.operation(table, id) {
            None => (forall|a: int, b: int| 0 <= a < b < x.tables.len() ==> (#[trigger] x.tables[a]).name != (#[trigger] x.tables[b]).name)
                ==> after.row(table, id, max) == before.row(table, id, max),
            Some(_) => {
                let mine = x.row(first, table, id);
                let got = after.row(table, id, max);
                &&& mine is Ok && got is Ok
                &&& mine->Ok_0 is Some <==> got->Ok_0 is Some
                &&& mine->Ok_0 is Some ==> forall|name: Seq<u8>|
                    #[trigger] record::is_column(x.schema_of(table).columns, name) && name != record::id_key()
                        ==> got->Ok_0->0.contains_key(name) && got->Ok_0->0[name] == (if mine->Ok_0->0.contains_key(name) {
                        mine->Ok_0->0[name]
                    } else {
                        ValueView::Null
                    })
            },
        },
{
    let key = encode_utf8(id);
    model::lemma_find(txn::txn_names(x.tables), table);
    match x.operation(table, id) {
        Some(op) => {
            let a = x.position(table)->0;
            assert(txn::txn_names(x.tables)[a] == x.tables[a].name);
            let s = txn::handed_pairs(tables[a].operations@);
            assert(pairs::to_map(s) == x.tables[a].operations);
            let j = pairs::index_of(s, key);
            assert(pairs::has_key(s, key));
            assert(s[j].0 == key);
            bytes::lemma_utf8_injective(tables[a].operations@[j].id@, id);
            assert(tables[a].operations@[j].replay is None);
            lemma_commit_gives_transaction(before, after, tables, capacity, first, prepared, planned, a, j, max);
        },
        None => {
            if forall|a: int, b: int| 0 <= a < b < x.tables.len() ==> (#[trigger] x.tables[a]).name != (#[trigger] x.tables[b]).name {
                assert forall|a: int, j: int| !(#[trigger] changes(tables, a, j, table, id)) by {
                    if changes(tables, a, j, table, id) {
                        let names = txn::txn_names(x.tables);
                        assert(tables[a].name@ == x.tables[a].name);
                        assert(names[a] == table);
                        assert(names.contains(table));
                        let b = x.position(table)->0;
                        assert(names[b] == x.tables[b].name);
                        assert(a == b);
                        let s = txn::handed_pairs(tables[a].operations@);
                        assert(s[j].0 == key);
                        pairs::lemma_to_map_at(s, j);
                    }
                }
                lemma_commit_keeps_others(before, after, tables, capacity, first, prepared, planned, table, id, max);
            }
        },
    }
}

} // verus!
