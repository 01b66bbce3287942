//! Text and vector indexes over a commit: played on an index that holds what the
//! records hold, the events of a commit leave it holding what the records hold
//! after the commit.

use crate::apply::{self, EventView, Step};
use crate::commit;
use crate::commit_laws;
use crate::conflict_laws;
use crate::error::ErrorView;
use crate::index_laws;
use crate::model;
use crate::pipeline::PlannedCommit;
use crate::prepare::{PreparedCommit, StagedTable};
use crate::publish::{self, PreviousView};
use crate::record::{self, RecordView};
use crate::schema::{IndexingMode, TableView};
use crate::segment;
use crate::staged::{self, PreparedChange, PreparedTable, StagedView};
use crate::state::{self, State};
use crate::value::ValueView;
use vstd::prelude::*;
use vstd::utf8::*;

verus! {

// ---- Text indexes -----------------------------------------------------------

/// A text that a text index holds.
#[verifier::ext_equal]
pub struct Posting {
    pub table: Seq<char>,
    pub column: Seq<char>,
    pub id: Seq<char>,
    pub text: Seq<char>,
}

/// What text indexes hold once an event is played.
pub open spec fn text_played(index: Set<Posting>, e: EventView) -> Set<Posting> {
    match e {
        EventView::TextRemoved { table, column, id, text } => index.remove(Posting { table, column, id, text }),
        EventView::TextAdded { table, column, id, text } => index.insert(Posting { table, column, id, text }),
        _ => index,
    }
}

pub open spec fn texts_played(index: Set<Posting>, events: Seq<EventView>) -> Set<Posting>
    decreases events.len(),
{
    if events.len() == 0 {
        index
    } else {
        text_played(texts_played(index, events.drop_last()), events.last())
    }
}

/// The newest version of a record has a text in a column.
pub open spec fn has_text(st: &State, table: Seq<char>, column: Seq<char>, id: Seq<char>, text: Seq<char>) -> bool {
    st.row(table, id, u64::MAX) matches Ok(Some(rec)) && rec.contains_key(encode_utf8(column)) && rec[encode_utf8(column)]
        == ValueView::Text(text)
}

/// The text index of a column holds exactly the texts that the records have.
pub open spec fn texts_held(st: &State, table: Seq<char>, column: Seq<char>, index: Set<Posting>) -> bool {
    forall|id: Seq<char>, text: Seq<char>|
        #[trigger] index.contains(Posting { table, column, id, text }) <==> has_text(st, table, column, id, text)
}

proof fn lemma_texts_concat(index: Set<Posting>, a: Seq<EventView>, b: Seq<EventView>)
    ensures
        texts_played(index, a + b) == texts_played(texts_played(index, a), b),
    decreases b.len(),
{
    if b.len() == 0 {
        assert(a + b =~= a);
    } else {
        assert((a + b).drop_last() =~= a + b.drop_last());
        assert((a + b).last() == b.last());
        lemma_texts_concat(index, a, b.drop_last());
    }
}

/// Some of the first text indexes of a table is on the column.
spec fn text_indexed(t: TableView, n: int, column: Seq<char>) -> bool {
    exists|k: int| 0 <= k < n && (#[trigger] t.text_indexes[k]).column == column
}

proof fn lemma_played_removed(index: Set<Posting>, s: Step, n: int, q: Posting)
    requires
        0 <= n <= s.schema.text_indexes.len(),
    ensures
        texts_played(index, apply::texts_removed(s, n)).contains(q) <==> index.contains(q) && !(q.table == s.table && q.id == s.id
            && text_indexed(s.schema, n, q.column) && apply::text_in(s.prior, q.column) == Some(q.text)),
    decreases n,
{
    if n > 0 {
        lemma_played_removed(index, s, n - 1, q);
        let column = s.schema.text_indexes[n - 1].column;
        lemma_indexed_more(s.schema, n, q.column);
        if let Some(text) = apply::text_in(s.prior, column) {
            let e = EventView::TextRemoved { table: s.table, column, id: s.id, text };
            let all = apply::texts_removed(s, n);
            assert(all.drop_last() =~= apply::texts_removed(s, n - 1));
            assert(all.last() == e);
        }
    }
}

proof fn lemma_indexed_more(t: TableView, n: int, column: Seq<char>)
    requires
        0 < n <= t.text_indexes.len(),
    ensures
        text_indexed(t, n, column) <==> text_indexed(t, n - 1, column) || t.text_indexes[n - 1].column == column,
{
    if text_indexed(t, n, column) {
        let k = choose|k: int| 0 <= k < n && (#[trigger] t.text_indexes[k]).column == column;
        if k < n - 1 {
            assert(t.text_indexes[k].column == column);
        }
    }
    if text_indexed(t, n - 1, column) {
        let k = choose|k: int| 0 <= k < n - 1 && (#[trigger] t.text_indexes[k]).column == column;
        assert(t.text_indexes[k].column == column);
    }
}

proof fn lemma_played_added(index: Set<Posting>, s: Step, n: int, q: Posting)
    requires
        0 <= n <= s.schema.text_indexes.len(),
    ensures
        texts_played(index, apply::texts_added(s, n)).contains(q) <==> index.contains(q) || (q.table == s.table && q.id == s.id
            && text_indexed(s.schema, n, q.column) && apply::text_in(s.put, q.column) == Some(q.text)),
    decreases n,
{
    if n > 0 {
        lemma_played_added(index, s, n - 1, q);
        let column = s.schema.text_indexes[n - 1].column;
        lemma_indexed_more(s.schema, n, q.column);
        if let Some(text) = apply::text_in(s.put, column) {
            let e = EventView::TextAdded { table: s.table, column, id: s.id, text };
            let all = apply::texts_added(s, n);
            assert(all.drop_last() =~= apply::texts_added(s, n - 1));
            assert(all.last() == e);
        }
    }
}

proof fn lemma_vectors_leave_texts(index: Set<Posting>, s: Step, n: int)
    requires
        0 <= n,
    ensures
        texts_played(index, apply::vectors_set(s, n)) == index,
    decreases n,
{
    if n > 0 {
        lemma_vectors_leave_texts(index, s, n - 1);
        assert(apply::vectors_set(s, n).drop_last() =~= apply::vectors_set(s, n - 1));
    }
}

/// One change: the text before it goes and the text after it comes.
proof fn lemma_step_texts(index: Set<Posting>, s: Step, q: Posting)
    ensures
        ({
            let own = q.table == s.table && q.id == s.id && text_indexed(s.schema, s.schema.text_indexes.len() as int, q.column);
            texts_played(index, apply::events_of(s)).contains(q) <==> (own && apply::text_in(s.put, q.column) == Some(q.text)) || (
            index.contains(q) && !(own && apply::text_in(s.prior, q.column) == Some(q.text)))
        }),
{
    let n = s.schema.text_indexes.len() as int;
    let m = s.schema.vector_indexes.len() as int;
    let a = apply::texts_removed(s, n);
    let b = apply::texts_added(s, n);
    let c = apply::vectors_set(s, m);
    lemma_texts_concat(index, a + b, c);
    lemma_texts_concat(index, a, b);
    let one = texts_played(index, a);
    let two = texts_played(one, b);
    lemma_played_removed(index, s, n, q);
    lemma_played_added(one, s, n, q);
    lemma_vectors_leave_texts(two, s, m);
}

/// Changes of other records leave the texts of a record alone.
proof fn lemma_other_texts(index: Set<Posting>, list: Seq<Step>, q: Posting)
    requires
        forall|k: int| 0 <= k < list.len() ==> (#[trigger] list[k]).table != q.table || list[k].id != q.id,
    ensures
        texts_played(index, publish::events_of(list)).contains(q) == index.contains(q),
    decreases list.len(),
{
    if list.len() > 0 {
        let t = list.drop_last();
        assert forall|k: int| 0 <= k < t.len() implies (#[trigger] t[k]).table != q.table || t[k].id != q.id by {
            assert(list[k].table != q.table || list[k].id != q.id);
        }
        lemma_other_texts(index, t, q);
        lemma_texts_concat(index, publish::events_of(t), apply::events_of(list.last()));
        assert(list[list.len() - 1].table != q.table || list[list.len() - 1].id != q.id);
        lemma_step_texts(texts_played(index, publish::events_of(t)), list.last(), q);
    }
}

/// The one change of a record decides what the index holds of it.
proof fn lemma_own_texts(index: Set<Posting>, list: Seq<Step>, k: int, q: Posting)
    requires
        0 <= k < list.len(),
        list[k].table == q.table,
        list[k].id == q.id,
        text_indexed(list[k].schema, list[k].schema.text_indexes.len() as int, q.column),
        forall|i: int| 0 <= i < list.len() && i != k ==> (#[trigger] list[i]).table != q.table || list[i].id != q.id,
        index.contains(q) <==> apply::text_in(list[k].prior, q.column) == Some(q.text),
    ensures
        texts_played(index, publish::events_of(list)).contains(q) <==> apply::text_in(list[k].put, q.column) == Some(q.text),
    decreases list.len(),
{
    let t = list.drop_last();
    let last = list.last();
    lemma_texts_concat(index, publish::events_of(t), apply::events_of(last));
    let mid = texts_played(index, publish::events_of(t));
    lemma_step_texts(mid, last, q);
    if k == list.len() - 1 {
        assert forall|i: int| 0 <= i < t.len() implies (#[trigger] t[i]).table != q.table || t[i].id != q.id by {
            assert(list[i].table != q.table || list[i].id != q.id);
        }
        lemma_other_texts(index, t, q);
    } else {
        assert(t[k] == list[k]);
        assert forall|i: int| 0 <= i < t.len() && i != k implies (#[trigger] t[i]).table != q.table || t[i].id != q.id by {
            assert(list[i].table != q.table || list[i].id != q.id);
        }
        lemma_own_texts(index, t, k, q);
        assert(list[list.len() - 1].table != q.table || list[list.len() - 1].id != q.id);
    }
}

// ---- Vector indexes ---------------------------------------------------------

/// What a vector index is asked about: a record's vector in a column.
#[verifier::ext_equal]
pub struct Place {
    pub table: Seq<char>,
    pub column: Seq<char>,
    pub id: Seq<char>,
}

/// What vector indexes hold once an event is played.
pub open spec fn vector_played(index: Map<Place, Seq<u32>>, e: EventView) -> Map<Place, Seq<u32>> {
    match e {
        EventView::VectorSet { table, column, id, vector, background } => index.insert(Place { table, column, id }, vector),
        EventView::VectorRemoved { table, column, id } => index.remove(Place { table, column, id }),
        _ => index,
    }
}

pub open spec fn vectors_played(index: Map<Place, Seq<u32>>, events: Seq<EventView>) -> Map<Place, Seq<u32>>
    decreases events.len(),
{
    if events.len() == 0 {
        index
    } else {
        vector_played(vectors_played(index, events.drop_last()), events.last())
    }
}

/// The newest version of a record has a vector in a column.
pub open spec fn has_vector(st: &State, table: Seq<char>, column: Seq<char>, id: Seq<char>, vector: Seq<u32>) -> bool {
    st.row(table, id, u64::MAX) matches Ok(Some(rec)) && rec.contains_key(encode_utf8(column)) && rec[encode_utf8(column)]
        == ValueView::Vector(vector)
}

pub open spec fn holds_vector(index: Map<Place, Seq<u32>>, at: Place, vector: Seq<u32>) -> bool {
    index.contains_key(at) && index[at] == vector
}

/// The vector index of a column holds exactly the vectors that the records have.
pub open spec fn vectors_held(st: &State, table: Seq<char>, column: Seq<char>, index: Map<Place, Seq<u32>>) -> bool {
    forall|id: Seq<char>, vector: Seq<u32>|
        #[trigger] holds_vector(index, Place { table, column, id }, vector) <==> has_vector(st, table, column, id, vector)
}

proof fn lemma_vectors_concat(index: Map<Place, Seq<u32>>, a: Seq<EventView>, b: Seq<EventView>)
    ensures
        vectors_played(index, a + b) == vectors_played(vectors_played(index, a), b),
    decreases b.len(),
{
    if b.len() == 0 {
        assert(a + b =~= a);
    } else {
        assert((a + b).drop_last() =~= a + b.drop_last());
        assert((a + b).last() == b.last());
        lemma_vectors_concat(index, a, b.drop_last());
    }
}

spec fn vector_indexed(t: TableView, n: int, column: Seq<char>) -> bool {
    exists|k: int| 0 <= k < n && (#[trigger] t.vector_indexes[k]).column == column
}

proof fn lemma_texts_leave_vectors(index: Map<Place, Seq<u32>>, s: Step, n: int)
    requires
        0 <= n,
    ensures
        vectors_played(index, apply::texts_removed(s, n)) == index,
        vectors_played(index, apply::texts_added(s, n)) == index,
    decreases n,
{
    if n > 0 {
        lemma_texts_leave_vectors(index, s, n - 1);
        let column = s.schema.text_indexes[n - 1].column;
        if apply::text_in(s.prior, column) is Some {
            assert(apply::texts_removed(s, n).drop_last() =~= apply::texts_removed(s, n - 1));
        }
        if apply::text_in(s.put, column) is Some {
            assert(apply::texts_added(s, n).drop_last() =~= apply::texts_added(s, n - 1));
        }
    }
}

proof fn lemma_played_vectors(index: Map<Place, Seq<u32>>, s: Step, n: int, at: Place, vector: Seq<u32>)
    requires
        0 <= n <= s.schema.vector_indexes.len(),
    ensures
        ({
            let own = at.table == s.table && at.id == s.id && vector_indexed(s.schema, n, at.column);
            holds_vector(vectors_played(index, apply::vectors_set(s, n)), at, vector) <==> if own {
                apply::vector_in(s.put, at.column) == Some(vector)
            } else {
                holds_vector(index, at, vector)
            }
        }),
    decreases n,
{
    if n > 0 {
        lemma_played_vectors(index, s, n - 1, at, vector);
        assert(apply::vectors_set(s, n).drop_last() =~= apply::vectors_set(s, n - 1));
        let column = s.schema.vector_indexes[n - 1].column;
        if vector_indexed(s.schema, n, at.column) {
            let k = choose|k: int| 0 <= k < n && (#[trigger] s.schema.vector_indexes[k]).column == at.column;
            if k < n - 1 {
                assert(s.schema.vector_indexes[k].column == at.column);
            }
        }
        if vector_indexed(s.schema, n - 1, at.column) {
            let k = choose|k: int| 0 <= k < n - 1 && (#[trigger] s.schema.vector_indexes[k]).column == at.column;
            assert(s.schema.vector_indexes[k].column == at.column);
        }
        assert(s.schema.vector_indexes[n - 1].column == column);
    }
}

proof fn lemma_step_vectors(index: Map<Place, Seq<u32>>, s: Step, at: Place, vector: Seq<u32>)
    ensures
        ({
            let own = at.table == s.table && at.id == s.id && vector_indexed(
                s.schema,
                s.schema.vector_indexes.len() as int,
                at.column,
            );
            holds_vector(vectors_played(index, apply::events_of(s)), at, vector) <==> if own {
                apply::vector_in(s.put, at.column) == Some(vector)
            } else {
                holds_vector(index, at, vector)
            }
        }),
{
    let n = s.schema.text_indexes.len() as int;
    let m = s.schema.vector_indexes.len() as int;
    let a = apply::texts_removed(s, n);
    let b = apply::texts_added(s, n);
    let c = apply::vectors_set(s, m);
    lemma_vectors_concat(index, a + b, c);
    lemma_vectors_concat(index, a, b);
    lemma_texts_leave_vectors(index, s, n);
    lemma_played_vectors(index, s, m, at, vector);
}

proof fn lemma_other_vectors(index: Map<Place, Seq<u32>>, list: Seq<Step>, at: Place, vector: Seq<u32>)
    requires
        forall|k: int| 0 <= k < list.len() ==> (#[trigger] list[k]).table != at.table || list[k].id != at.id,
    ensures
        holds_vector(vectors_played(index, publish::events_of(list)), at, vector) == holds_vector(index, at, vector),
    decreases list.len(),
{
    if list.len() > 0 {
        let t = list.drop_last();
        assert forall|k: int| 0 <= k < t.len() implies (#[trigger] t[k]).table != at.table || t[k].id != at.id by {
            assert(list[k].table != at.table || list[k].id != at.id);
        }
        lemma_other_vectors(index, t, at, vector);
        lemma_vectors_concat(index, publish::events_of(t), apply::events_of(list.last()));
        assert(list[list.len() - 1].table != at.table || list[list.len() - 1].id != at.id);
        lemma_step_vectors(vectors_played(index, publish::events_of(t)), list.last(), at, vector);
    }
}

proof fn lemma_own_vectors(index: Map<Place, Seq<u32>>, list: Seq<Step>, k: int, at: Place, vector: Seq<u32>)
    requires
        0 <= k < list.len(),
        list[k].table == at.table,
        list[k].id == at.id,
        vector_indexed(list[k].schema, list[k].schema.vector_indexes.len() as int, at.column),
        forall|i: int| 0 <= i < list.len() && i != k ==> (#[trigger] list[i]).table != at.table || list[i].id != at.id,
    ensures
        holds_vector(vectors_played(index, publish::events_of(list)), at, vector) <==> apply::vector_in(list[k].put, at.column) == Some(
            vector,
        ),
    decreases list.len(),
{
    let t = list.drop_last();
    let last = list.last();
    lemma_vectors_concat(index, publish::events_of(t), apply::events_of(last));
    lemma_step_vectors(vectors_played(index, publish::events_of(t)), last, at, vector);
    if k < list.len() - 1 {
        assert(t[k] == list[k]);
        assert forall|i: int| 0 <= i < t.len() && i != k implies (#[trigger] t[i]).table != at.table || t[i].id != at.id by {
            assert(list[i].table != at.table || list[i].id != at.id);
        }
        lemma_own_vectors(index, t, k, at, vector);
        assert(list[list.len() - 1].table != at.table || list[list.len() - 1].id != at.id);
    }
}

// ---- The records before and after -------------------------------------------

/// What a changed record has in a stored column once the commit is published, and
/// what it had before.
proof fn lemma_changed_cells(
    before: &State,
    after: &State,
    all: Seq<StagedView>,
    p: Seq<Seq<PreviousView>>,
    version: u64,
    i: int,
    j: int,
    column: Seq<char>,
)
    requires
        index_laws::accepted(before, after, all, p, version),
        staged::is_staged(all, i, j),
        record::is_column(all[i].schema.columns, encode_utf8(column)),
        encode_utf8(column) != record::id_key(),
    ensures
        forall|text: Seq<char>|
            #[trigger] has_text(after, all[i].name, column, all[i].changes[j].id, text) <==> apply::text_in(
                all[i].changes[j].operation,
                column,
            ) == Some(text),
        forall|vector: Seq<u32>|
            #[trigger] has_vector(after, all[i].name, column, all[i].changes[j].id, vector) <==> apply::vector_in(
                all[i].changes[j].operation,
                column,
            ) == Some(vector),
{
    let t = all[i];
    let c = t.changes[j];
    let name = encode_utf8(column);
    assert forall|x: int| 0 <= x < all.len() implies encode_utf8((#[trigger] all[x]).name).len() <= u32::MAX by {
        before.lemma_table(all[x].name);
    }
    assert(before.table_view(t.name) == Some(t.schema));
    commit_laws::lemma_reads_commit(before, after, all, p, version, i, j, u64::MAX);
    assert(index_laws::change_stored(before, all, i, j));
    assert(after.table_view(t.name) == before.table_view(t.name));
    let v = apply::step_entry(publish::step_of(t, p[i], j), version);
    if let Some(rec) = c.operation {
        let stored = record::projected(t.schema.columns, rec);
        assert(segment::record_of(after.images(), after.blobs@, v.kind) == Ok::<RecordView, ErrorView>(stored));
        let row = state::with_id(t.schema, stored, c.id);
        assert(after.row(t.name, c.id, u64::MAX) == Ok::<Option<RecordView>, ErrorView>(Some(row)));
        assert(stored.contains_key(name) && stored[name] == record::value_in(rec, name));
        assert(row.contains_key(name) && row[name] == stored[name]);
    } else {
        assert(after.row(t.name, c.id, u64::MAX) == Ok::<Option<RecordView>, ErrorView>(None));
    }
}

proof fn lemma_prior_text(st: &State, staged: Seq<PreparedTable>, checked: Seq<Vec<publish::Previous>>, snapshot: u64, i: int, j: int, column: Seq<char>, text: Seq<char>)
    requires
        commit::all_checked(st, staged, checked, snapshot),
        0 <= i < staged.len(),
        0 <= j < staged[i].changes@.len(),
        staged[i].schema@.text_indexes.len() > 0,
        encode_utf8(column) != record::id_key(),
    ensures
        has_text(st, staged[i].name@, column, staged[i].changes@[j].id@, text) <==> apply::text_in(
            publish::previous_views(checked)[i][j].prior,
            column,
        ) == Some(text),
{
    let t = staged[i];
    conflict_laws::lemma_named(st, t.name@);
    assert(commit::table_checked(st, t, checked[i]@, snapshot));
    let was = checked[i]@[j]@;
    assert(commit::checked_change(st, t.schema@, t.changes@[j], snapshot) == Ok::<PreviousView, ErrorView>(was));
    assert(publish::previous_views(checked)[i] == model::views(checked[i]@));
    assert(publish::previous_views(checked)[i][j] == was);
    lemma_checked_text(st, t.schema@, t.changes@[j], snapshot, was, column, text);
}

#[verifier::spinoff_prover]
proof fn lemma_checked_text(st: &State, t: TableView, c: PreparedChange, snapshot: u64, was: PreviousView, column: Seq<char>, text: Seq<char>)
    requires
        commit::checked_change(st, t, c, snapshot) == Ok::<PreviousView, ErrorView>(was),
        t.text_indexes.len() > 0,
        encode_utf8(column) != record::id_key(),
        st.table_view(t.name) == Some(t),
    ensures
        has_text(st, t.name, column, c.id@, text) <==> apply::text_in(was.prior, column) == Some(text),
{
    let name = encode_utf8(column);
    let entry = st.latest(t.name, encode_utf8(c.id@))->Ok_0;
    assert(commit::prior_of(st, t, entry) == Ok::<Option<RecordView>, ErrorView>(was.prior));
    if let Some(v) = entry {
        if !v.kind.is_tombstone() {
            let rec = segment::record_of(st.images(), st.blobs@, v.kind)->Ok_0;
            assert(was.prior == Some(rec));
            let row = state::with_id(t, rec, c.id@);
            assert(st.row(t.name, c.id@, u64::MAX) == Ok::<Option<RecordView>, ErrorView>(Some(row)));
            assert(row.contains_key(name) == rec.contains_key(name));
            if rec.contains_key(name) {
                assert(row[name] == rec[name]);
            }
        }
    }
}

/// Text indexes stay in step: where the text index of a column holds exactly the
/// texts that the records have before a commit, then, once the events of the
/// commit are played on it, it holds exactly those that the records have after
/// it, and nothing of deleted ones.
pub proof fn lemma_texts_in_step(
    before: &State,
    after: &State,
    tables: Seq<StagedTable>,
    capacity: int,
    first: &State,
    prepared: PreparedCommit,
    planned: PlannedCommit,
    table: Seq<char>,
    column: Seq<char>,
    index: Set<Posting>,
)
    requires
        index_laws::is_planned(before, tables, capacity, first, prepared, planned),
        publish::published(
            before,
            after,
            model::views(planned.validated.staged@),
            publish::previous_views(planned.validated.previous@),
            planned.version,
        ),
        before.table_view(table) is Some,
        exists|k: int|
            0 <= k < before.table_view(table)->0.text_indexes.len() && (#[trigger] before.table_view(table)->0.text_indexes[k]).column == column,
        record::is_column(before.table_view(table)->0.columns, encode_utf8(column)),
        encode_utf8(column) != record::id_key(),
        texts_held(before, table, column, index),
    ensures
        texts_held(
            after,
            table,
            column,
            texts_played(
                index,
                publish::events_of(
                    publish::steps(
                        model::views(planned.validated.staged@),
                        publish::previous_views(planned.validated.previous@),
                    ),
                ),
            ),
        ),
{
    let all = model::views(planned.validated.staged@);
    let checked = planned.validated.previous@;
    let p = publish::previous_views(checked);
    let list = publish::steps(all, p);
    let t = before.table_view(table)->0;
    index_laws::lemma_accepted(before, after, tables, capacity, first, prepared, planned);
    assert forall|x: int| 0 <= x < all.len() implies encode_utf8((#[trigger] all[x]).name).len() <= u32::MAX by {
        before.lemma_table(all[x].name);
    }
    before.lemma_table(table);
    commit_laws::lemma_keys_distinct(all, p);
    commit_laws::lemma_all_steps(all, p, all.len() as int);
    let done = texts_played(index, publish::events_of(list));
    assert forall|id: Seq<char>, text: Seq<char>|
        #[trigger] done.contains(Posting { table, column, id, text }) <==> has_text(after, table, column, id, text) by {
        let q = Posting { table, column, id, text };
        assert(index.contains(q) <==> has_text(before, table, column, id, text));
        if staged::has_change(all, table, id) {
            let (i, j) = choose|i: int, j: int| #[trigger] staged::stages(all, i, j, table, id);
            assert(staged::is_staged(all, i, j));
            let k = commit_laws::first_step(all, i) + j;
            assert(list[k] == publish::step_of(all[i], p[i], j));
            lemma_only_step(all, p, k, table, id);
            let staged_at = prepared.staged@[i];
            assert(before.table_view(staged_at.name@) == Some(staged_at.schema@));
            lemma_prior_text(before, prepared.staged@, checked, prepared.snapshot, i, j, column, text);
            lemma_own_texts(index, list, k, q);
            lemma_changed_cells(before, after, all, p, planned.version, i, j, column);
            assert(has_text(after, all[i].name, column, all[i].changes[j].id, text) <==> apply::text_in(
                all[i].changes[j].operation,
                column,
            ) == Some(text));
        } else {
            lemma_no_step(all, p, table, id);
            lemma_other_texts(index, list, q);
            commit_laws::lemma_untouched(before, after, all, p, planned.version, table, id, u64::MAX);
        }
    }
}

proof fn lemma_only_step(all: Seq<StagedView>, p: Seq<Seq<PreviousView>>, k: int, table: Seq<char>, id: Seq<char>)
    requires
        commit_laws::keys_distinct(publish::steps(all, p)),
        0 <= k < publish::steps(all, p).len(),
        publish::steps(all, p)[k].table == table,
        publish::steps(all, p)[k].id == id,
    ensures
        forall|q: int|
            0 <= q < publish::steps(all, p).len() && q != k ==> (#[trigger] publish::steps(all, p)[q]).table != table || publish::steps(
                all,
                p,
            )[q].id != id,
{
    let list = publish::steps(all, p);
    assert forall|q: int| 0 <= q < list.len() && q != k implies (#[trigger] list[q]).table != table || list[q].id != id by {
        if list[q].table == table && list[q].id == id {
            assert(apply::step_key(list[q]) == apply::step_key(list[k]));
        }
    }
}

proof fn lemma_no_step(all: Seq<StagedView>, p: Seq<Seq<PreviousView>>, table: Seq<char>, id: Seq<char>)
    requires
        !staged::has_change(all, table, id),
    ensures
        forall|q: int|
            0 <= q < publish::steps(all, p).len() ==> (#[trigger] publish::steps(all, p)[q]).table != table || publish::steps(all, p)[q].id
                != id,
{
    let list = publish::steps(all, p);
    assert forall|q: int| 0 <= q < list.len() implies (#[trigger] list[q]).table != table || list[q].id != id by {
        let (i, j) = commit_laws::lemma_step_place(all, p, q);
        if list[q].table == table && list[q].id == id {
            assert(staged::stages(all, i, j, table, id));
        }
    }
}

/// Vector indexes stay in step: where the vector index of a column holds exactly
/// the vectors that the records have before a commit, then, once the events of the
/// commit are played on it, it holds exactly those that the records have after it,
/// and nothing of deleted ones.
pub proof fn lemma_vectors_in_step(
    before: &State,
    after: &State,
    tables: Seq<StagedTable>,
    capacity: int,
    first: &State,
    prepared: PreparedCommit,
    planned: PlannedCommit,
    table: Seq<char>,
    column: Seq<char>,
    index: Map<Place, Seq<u32>>,
)
    requires
        index_laws::is_planned(before, tables, capacity, first, prepared, planned),
        publish::published(
            before,
            after,
            model::views(planned.validated.staged@),
            publish::previous_views(planned.validated.previous@),
            planned.version,
        ),
        before.table_view(table) is Some,
        exists|k: int|
            0 <= k < before.table_view(table)->0.vector_indexes.len() && (#[trigger] before.table_view(table)->0.vector_indexes[k]).column
                == column,
        record::is_column(before.table_view(table)->0.columns, encode_utf8(column)),
        encode_utf8(column) != record::id_key(),
        vectors_held(before, table, column, index),
    ensures
        vectors_held(
            after,
            table,
            column,
            vectors_played(
                index,
                publish::events_of(
                    publish::steps(
                        model::views(planned.validated.staged@),
                        publish::previous_views(planned.validated.previous@),
                    ),
                ),
            ),
        ),
{
    let all = model::views(planned.validated.staged@);
    let p = publish::previous_views(planned.validated.previous@);
    let list = publish::steps(all, p);
    index_laws::lemma_accepted(before, after, tables, capacity, first, prepared, planned);
    assert forall|x: int| 0 <= x < all.len() implies encode_utf8((#[trigger] all[x]).name).len() <= u32::MAX by {
        before.lemma_table(all[x].name);
    }
    before.lemma_table(table);
    commit_laws::lemma_keys_distinct(all, p);
    commit_laws::lemma_all_steps(all, p, all.len() as int);
    let done = vectors_played(index, publish::events_of(list));
    assert forall|id: Seq<char>, vector: Seq<u32>|
        #[trigger] holds_vector(done, Place { table, column, id }, vector) <==> has_vector(after, table, column, id, vector) by {
        let at = Place { table, column, id };
        assert(holds_vector(index, at, vector) <==> has_vector(before, table, column, id, vector));
        if staged::has_change(all, table, id) {
            let (i, j) = choose|i: int, j: int| #[trigger] staged::stages(all, i, j, table, id);
            assert(staged::is_staged(all, i, j));
            let k = commit_laws::first_step(all, i) + j;
            assert(list[k] == publish::step_of(all[i], p[i], j));
            lemma_only_step(all, p, k, table, id);
            assert(before.table_view(all[i].name) == Some(all[i].schema));
            lemma_own_vectors(index, list, k, at, vector);
            lemma_changed_cells(before, after, all, p, planned.version, i, j, column);
            assert(has_vector(after, all[i].name, column, all[i].changes[j].id, vector) <==> apply::vector_in(
                all[i].changes[j].operation,
                column,
            ) == Some(vector));
        } else {
            lemma_no_step(all, p, table, id);
            lemma_other_vectors(index, list, at, vector);
            commit_laws::lemma_untouched(before, after, all, p, planned.version, table, id, u64::MAX);
        }
    }
}

/// A vector is indexed in the background exactly where the index of its column is
/// one that asks for it.
pub proof fn lemma_background_as_asked(s: Step, n: int, e: int)
    requires
        0 <= n <= s.schema.vector_indexes.len(),
        0 <= e < apply::vectors_set(s, n).len(),
    ensures
        apply::vectors_set(s, n).len() == n,
        apply::vectors_set(s, n)[e] matches EventView::VectorSet { table, column, id, vector, background } ==> table == s.table && id
            == s.id && column == s.schema.vector_indexes[e].column && (background <==> s.schema.vector_indexes[e].mode
            == IndexingMode::Async),
    decreases n,
{
    if n > 0 && e < n - 1 {
        lemma_vector_count(s, n - 1);
        lemma_background_as_asked(s, n - 1, e);
    }
    lemma_vector_count(s, n);
    if n > 0 {
        lemma_vector_count(s, n - 1);
    }
}

proof fn lemma_vector_count(s: Step, n: int)
    requires
        0 <= n,
    ensures
        apply::vectors_set(s, n).len() == n,
    decreases n,
{
    if n > 0 {
        lemma_vector_count(s, n - 1);
    }
}

} // verus!
