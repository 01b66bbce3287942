//! What foreign keys promise: every reference finds a record, and no commit
//! that is accepted takes that away.

use crate::commit_laws::{self, current_key, index_agrees};
use crate::compact_laws;
use crate::error::ErrorView;
use crate::find_laws;
use crate::foreign;
use crate::index_laws::{self, accepted};
use crate::pipeline::PlannedCommit;
use crate::prepare::{PreparedCommit, StagedTable};
use crate::model;
use crate::publish::{self, PreviousView};
use crate::record::{self, RecordView};
use crate::schema::{self, TableView};
use crate::segment;
use crate::staged::{self, StagedView};
use crate::state::{self, State};
use crate::value::{self, ValueView};
use crate::version::{self, VersionView};
use vstd::prelude::*;
use vstd::utf8::*;

verus! {

/// What a row has in a column, where it is not null.
pub open spec fn cell(r: Result<Option<RecordView>, ErrorView>, column: Seq<char>) -> Option<ValueView> {
    match r {
        Ok(Some(rec)) => if rec.contains_key(encode_utf8(column)) && !(rec[encode_utf8(column)] is Null) {
            Some(rec[encode_utf8(column)])
        } else {
            None
        },
        _ => None,
    }
}

/// The value with which a record refers to another table now.
pub open spec fn refers_now(st: &State, c: int, f: int, id: Seq<char>) -> Option<ValueView> {
    cell(st.row(st.catalog@[c].name, id, u64::MAX), st.catalog@[c].foreign_keys[f].column)
}

/// A record has a value in a column now.
pub open spec fn holds_now(st: &State, table: Seq<char>, column: Seq<char>, v: ValueView, id: Seq<char>) -> bool {
    cell(st.row(table, id, u64::MAX), column) matches Some(x) && value::value_eq(x, v)
}

/// Some record has the value that is referred to.
pub open spec fn finds_now(st: &State, c: int, f: int, v: ValueView) -> bool {
    exists|id: Seq<char>|
        #[trigger] holds_now(
            st,
            st.catalog@[c].foreign_keys[f].referenced_table,
            st.catalog@[c].foreign_keys[f].referenced_column,
            v,
            id,
        )
}

/// Every reference finds a record.
pub open spec fn references_found(st: &State) -> bool {
    forall|c: int, f: int, id: Seq<char>|
        foreign::is_foreign_key(st.catalog@, c, f) && (#[trigger] refers_now(st, c, f, id)) is Some ==> finds_now(
            st,
            c,
            f,
            refers_now(st, c, f, id)->0,
        )
}

/// A column of the table, or its id that is not stored.
pub open spec fn has_column(t: TableView, column: Seq<char>) -> bool {
    record::is_column(t.columns, encode_utf8(column)) || (t.implicit_id && column == schema::id_name())
}

/// A foreign key leads from a stored column of its table to a column of another.
pub open spec fn key_sound(st: &State, c: int, f: int) -> bool {
    let t = st.catalog@[c];
    let fk = t.foreign_keys[f];
    &&& st.table_view(t.name) == Some(t)
    &&& record::is_column(t.columns, encode_utf8(fk.column))
    &&& index_laws::stored_column(t, fk.column)
    &&& st.table_view(fk.referenced_table) matches Some(p) && has_column(p, fk.referenced_column)
}

pub open spec fn keys_sound(st: &State) -> bool {
    forall|c: int, f: int| #[trigger] foreign::is_foreign_key(st.catalog@, c, f) ==> key_sound(st, c, f)
}

/// A reference that is looked up by an index can be: a zero is told apart from
/// its negative there, and a value too long for a key is not in it.
pub open spec fn lookup_fits(st: &State, c: int, f: int, id: Seq<char>) -> bool {
    refers_now(st, c, f, id) matches Some(v) ==> {
        ||| state::slot_of(st.secondary@, st.catalog@[c].name, st.catalog@[c].foreign_keys[f].column) is None
        ||| find_laws::is_exact(v) && staged::indexable(v)
    }
}

// ---- Rows after a commit ----------------------------------------------------

/// What a column holds after a commit is what the staged changes say, or what it
/// held.
proof fn lemma_cell_after(
    before: &State,
    after: &State,
    all: Seq<StagedView>,
    p: Seq<Seq<PreviousView>>,
    version: u64,
    table: Seq<char>,
    column: Seq<char>,
    id: Seq<char>,
)
    requires
        accepted(before, after, all, p, version),
        before.table_view(table) matches Some(t) && has_column(t, column),
    ensures
        cell(after.row(table, id, u64::MAX), column) == cell(staged::final_row(before, all, table, id), column),
{
    let t = before.table_view(table)->0;
    assert forall|i: int| 0 <= i < all.len() implies encode_utf8((#[trigger] all[i]).name).len() <= u32::MAX by {
        before.lemma_table(all[i].name);
    }
    before.lemma_table(table);
    if staged::has_change(all, table, id) {
        let (i, j) = choose|i: int, j: int| #[trigger] staged::stages(all, i, j, table, id);
        assert(staged::is_staged(all, i, j));
        assert(before.table_view(all[i].name) == Some(all[i].schema));
        commit_laws::lemma_reads_commit(before, after, all, p, version, i, j, u64::MAX);
        assert(index_laws::change_stored(before, all, i, j));
        if all[i].changes[j].operation is Some {
            let rec = all[i].changes[j].operation->0;
            lemma_projected_cell(t, rec, id, column);
            assert(after.row(table, id, u64::MAX) == Ok::<Option<RecordView>, ErrorView>(
                Some(state::with_id(t, record::projected(t.columns, rec), id)),
            ));
        }
    } else {
        commit_laws::lemma_untouched(before, after, all, p, version, table, id, u64::MAX);
    }
}

proof fn lemma_projected_cell(t: TableView, rec: RecordView, id: Seq<char>, column: Seq<char>)
    requires
        has_column(t, column),
    ensures
        ({
            let a: Result<Option<RecordView>, ErrorView> = Ok(Some(state::with_id(t, record::projected(t.columns, rec), id)));
            let b: Result<Option<RecordView>, ErrorView> = Ok(Some(state::with_id(t, rec, id)));
            cell(a, column) == cell(b, column)
        }),
{
    let name = encode_utf8(column);
    let full = record::projected(t.columns, rec);
    if !(t.implicit_id && name == record::id_key()) {
        assert(full.contains_key(name));
        assert(full[name] == record::value_in(rec, name));
    }
}

// ---- Equal values -----------------------------------------------------------

/// Equal values are equal either way round, and to whatever equals one of them; null
/// equals null alone.
pub proof fn lemma_equal_values(a: ValueView, b: ValueView, c: ValueView)
    ensures
        value::value_eq(a, b) ==> value::value_eq(b, a),
        value::value_eq(a, b) && value::value_eq(b, c) ==> value::value_eq(a, c),
        value::value_eq(a, b) ==> (a is Null <==> b is Null),
{
    match (a, b) {
        (ValueView::Vector(x), ValueView::Vector(y)) => {
            if value::vector_eq(x, y) {
                assert forall|i: int| 0 <= i < y.len() implies value::float32_eq(#[trigger] y[i], x[i]) by {
                    assert(value::float32_eq(x[i], y[i]));
                }
                if let ValueView::Vector(z) = c {
                    if value::vector_eq(y, z) {
                        assert forall|i: int| 0 <= i < x.len() implies value::float32_eq(#[trigger] x[i], z[i]) by {
                            assert(value::float32_eq(x[i], y[i]));
                            assert(value::float32_eq(y[i], z[i]));
                        }
                    }
                }
            }
        },
        _ => {},
    }
}

/// A match among the final rows has the value after the commit.
proof fn lemma_match_holds(
    before: &State,
    after: &State,
    all: Seq<StagedView>,
    p: Seq<Seq<PreviousView>>,
    version: u64,
    t: TableView,
    column: Seq<char>,
    v: ValueView,
    w: ValueView,
    id: Seq<char>,
)
    requires
        accepted(before, after, all, p, version),
        before.table_view(t.name) == Some(t),
        has_column(t, column),
        foreign::is_match(before, all, t, column, v, id),
        !(v is Null),
        value::value_eq(v, w),
    ensures
        holds_now(after, t.name, column, w, id),
{
    lemma_cell_after(before, after, all, p, version, t.name, column, id);
    let rec = staged::final_row(before, all, t.name, id)->Ok_0->0;
    lemma_equal_values(rec[encode_utf8(column)], v, w);
}

/// A record that was there and is not changed is offered for its value.
proof fn lemma_offered(before: &State, c: int, f: int, id: Seq<char>, old: ValueView)
    requires
        before.wf(),
        foreign::is_foreign_key(before.catalog@, c, f),
        key_sound(before, c, f),
        lookup_fits(before, c, f, id),
        forall|at: int| 0 <= at < before.secondary@.len() ==> index_agrees(before, #[trigger] before.secondary@[at]),
        refers_now(before, c, f, id) matches Some(v) && value::value_eq(old, v),
    ensures
        foreign::offered(before, before.catalog@[c], before.catalog@[c].foreign_keys[f].column, old, id),
{
    let t = before.catalog@[c];
    let column = t.foreign_keys[f].column;
    let v = refers_now(before, c, f, id)->0;
    let name = encode_utf8(column);
    let rec = before.row(t.name, id, u64::MAX)->Ok_0->0;
    let u = before.latest(t.name, encode_utf8(id))->Ok_0->0;
    let raw = segment::record_of(before.images(), before.blobs@, u.kind)->Ok_0;
    if column == schema::id_name() && t.implicit_id {
        assert(rec[name] == ValueView::Text(id));
    } else {
        state::lemma_slot_of(before.secondary@, t.name, column);
        match state::slot_of(before.secondary@, t.name, column) {
            Some(at) => {
                find_laws::lemma_exact(old, v);
                if t.implicit_id && name == record::id_key() {
                    crate::bytes::lemma_utf8_injective(column, schema::id_name());
                }
                assert(rec == state::with_id(t, raw, id));
                assert(raw.contains_key(name) && raw[name] == v);
                let slot = before.secondary@[at];
                assert(index_agrees(before, slot));
                assert(current_key(before, slot.table@, slot.column@, id) == Some(value::encoded(v)));
                assert(slot.index.member(value::encoded(v), encode_utf8(id)));
            },
            None => {
                let key = version::key_of(encode_utf8(t.name), encode_utf8(id));
                let s = before.versions(t.name, encode_utf8(id))->Ok_0;
                crate::primary::lemma_newest_of(s, u64::MAX);
                if !before.index.has_record(encode_utf8(t.name), encode_utf8(id)) {
                    compact_laws::lemma_unheld(before.index.runs@, key);
                    assert(s =~= Seq::<VersionView>::empty());
                }
            },
        }
    }
}

/// A record with the value that an unchanged reference leads to is there after
/// the commit.
proof fn lemma_parent_stays(
    before: &State,
    after: &State,
    all: Seq<StagedView>,
    p: Seq<Seq<PreviousView>>,
    version: u64,
    c: int,
    f: int,
    id: Seq<char>,
)
    requires
        accepted(before, after, all, p, version),
        foreign::is_foreign_key(before.catalog@, c, f),
        key_sound(before, c, f),
        foreign::foreign_ok(before, all),
        references_found(before),
        lookup_fits(before, c, f, id),
        forall|at: int| 0 <= at < before.secondary@.len() ==> index_agrees(before, #[trigger] before.secondary@[at]),
        refers_now(before, c, f, id) is Some,
        !staged::has_change(all, before.catalog@[c].name, id),
    ensures
        exists|x: Seq<char>|
            #[trigger] holds_now(
                after,
                before.catalog@[c].foreign_keys[f].referenced_table,
                before.catalog@[c].foreign_keys[f].referenced_column,
                refers_now(before, c, f, id)->0,
                x,
            ),
{
    let child = before.catalog@[c];
    let fk = child.foreign_keys[f];
    let v = refers_now(before, c, f, id)->0;
    let parent = before.table_view(fk.referenced_table)->0;
    before.lemma_table(fk.referenced_table);
    assert(finds_now(before, c, f, v));
    let y = choose|y: Seq<char>| #[trigger] holds_now(before, fk.referenced_table, fk.referenced_column, v, y);
    let old = cell(before.row(fk.referenced_table, y, u64::MAX), fk.referenced_column)->0;
    lemma_equal_values(old, v, v);
    lemma_cell_after(before, after, all, p, version, fk.referenced_table, fk.referenced_column, y);
    if staged::has_change(all, fk.referenced_table, y) {
        let (i, j) = choose|i: int, j: int| #[trigger] staged::stages(all, i, j, fk.referenced_table, y);
        assert(staged::is_staged(all, i, j));
        assert(before.table_view(all[i].name) == Some(all[i].schema));
        assert(foreign::replaced(before, all, i, j) == before.row(fk.referenced_table, y, u64::MAX));
        assert(foreign::old_value(before, all, i, j, c, f) == Some(old));
        if foreign::keeps_value(before, all, i, j, c, f) {
            let rec = all[i].changes[j].operation->0;
            if all[i].schema.implicit_id && fk.referenced_column == schema::id_name() {
                assert(holds_now(after, fk.referenced_table, fk.referenced_column, v, y));
            } else {
                lemma_equal_values(rec[encode_utf8(fk.referenced_column)], old, v);
                if all[i].schema.implicit_id && encode_utf8(fk.referenced_column) == record::id_key() {
                    crate::bytes::lemma_utf8_injective(fk.referenced_column, schema::id_name());
                }
                assert(holds_now(after, fk.referenced_table, fk.referenced_column, v, y));
            }
        } else {
            assert(foreign::withdraws(before, all, i, j, c, f));
            assert(!foreign::breaks(before, all, i, j, c, f));
            lemma_offered(before, c, f, id, old);
            lemma_equal_values(v, old, old);
            assert(staged::final_row(before, all, child.name, id) == before.row(child.name, id, u64::MAX));
            assert(foreign::is_match(before, all, child, fk.column, old, id));
            assert(foreign::any_match(before, all, parent, fk.referenced_column, old));
            let x = choose|x: Seq<char>| #[trigger] foreign::is_match(before, all, parent, fk.referenced_column, old, x);
            lemma_match_holds(before, after, all, p, version, parent, fk.referenced_column, old, v, x);
        }
    } else {
        assert(holds_now(after, fk.referenced_table, fk.referenced_column, v, y));
    }
}

/// A commit that validation let through keeps every reference: where each found
/// a record before, each finds one after it.
pub proof fn lemma_references_kept(before: &State, after: &State, all: Seq<StagedView>, p: Seq<Seq<PreviousView>>, version: u64)
    requires
        accepted(before, after, all, p, version),
        keys_sound(before),
        foreign::any_foreign_key(before.catalog@) ==> foreign::foreign_ok(before, all),
        references_found(before),
        forall|c: int, f: int, id: Seq<char>| #[trigger] lookup_fits(before, c, f, id),
        forall|at: int| 0 <= at < before.secondary@.len() ==> index_agrees(before, #[trigger] before.secondary@[at]),
    ensures
        references_found(after),
{
    assert forall|c: int, f: int, id: Seq<char>|
        foreign::is_foreign_key(after.catalog@, c, f) && (#[trigger] refers_now(after, c, f, id)) is Some implies finds_now(
        after,
        c,
        f,
        refers_now(after, c, f, id)->0,
    ) by {
        let child = before.catalog@[c];
        let fk = child.foreign_keys[f];
        let v = refers_now(after, c, f, id)->0;
        assert(foreign::is_foreign_key(before.catalog@, c, f));
        assert(key_sound(before, c, f));
        lemma_cell_after(before, after, all, p, version, child.name, fk.column, id);
        if staged::has_change(all, child.name, id) {
            let (i, j) = choose|i: int, j: int| #[trigger] staged::stages(all, i, j, child.name, id);
            assert(staged::is_staged(all, i, j));
            assert(before.table_view(all[i].name) == Some(all[i].schema));
            lemma_child_resolves(before, after, all, p, version, c, f, i, j);
        } else {
            assert(lookup_fits(before, c, f, id));
            assert(refers_now(before, c, f, id) == Some(v));
            lemma_parent_stays(before, after, all, p, version, c, f, id);
        }
    }
}

/// The same of a transaction that was prepared and planned, once it is
/// published.
pub proof fn lemma_commit_references(
    before: &State,
    after: &State,
    tables: Seq<StagedTable>,
    capacity: int,
    first: &State,
    prepared: PreparedCommit,
    planned: PlannedCommit,
)
    requires
        index_laws::is_planned(before, tables, capacity, first, prepared, planned),
        publish::published(
            before,
            after,
            model::views(planned.validated.staged@),
            publish::previous_views(planned.validated.previous@),
            planned.version,
        ),
        keys_sound(before),
        references_found(before),
        forall|c: int, f: int, id: Seq<char>| #[trigger] lookup_fits(before, c, f, id),
        forall|at: int| 0 <= at < before.secondary@.len() ==> index_agrees(before, #[trigger] before.secondary@[at]),
    ensures
        references_found(after),
{
    let all = model::views(planned.validated.staged@);
    let p = publish::previous_views(planned.validated.previous@);
    index_laws::lemma_accepted(before, after, tables, capacity, first, prepared, planned);
    lemma_references_kept(before, after, all, p, planned.version);
}

/// What leaves every row as it was, as checkpoints, compactions and opening do,
/// leaves every reference as it was.
pub proof fn lemma_same_references(before: &State, after: &State)
    requires
        after.catalog@ == before.catalog@,
        forall|table: Seq<char>, id: Seq<char>| #[trigger] after.row(table, id, u64::MAX) == before.row(table, id, u64::MAX),
        references_found(before),
    ensures
        references_found(after),
{
    assert forall|c: int, f: int, id: Seq<char>|
        foreign::is_foreign_key(after.catalog@, c, f) && (#[trigger] refers_now(after, c, f, id)) is Some implies finds_now(
        after,
        c,
        f,
        refers_now(after, c, f, id)->0,
    ) by {
        let fk = before.catalog@[c].foreign_keys[f];
        assert(refers_now(before, c, f, id) == refers_now(after, c, f, id));
        let v = refers_now(before, c, f, id)->0;
        assert(finds_now(before, c, f, v));
        let x = choose|x: Seq<char>| #[trigger] holds_now(before, fk.referenced_table, fk.referenced_column, v, x);
        assert(holds_now(after, fk.referenced_table, fk.referenced_column, v, x));
    }
}

/// The reference of a changed record finds one after the commit.
#[verifier::spinoff_prover]
#[verifier::rlimit(60)]
proof fn lemma_child_resolves(
    before: &State,
    after: &State,
    all: Seq<StagedView>,
    p: Seq<Seq<PreviousView>>,
    version: u64,
    c: int,
    f: int,
    i: int,
    j: int,
)
    requires
        accepted(before, after, all, p, version),
        foreign::is_foreign_key(before.catalog@, c, f),
        key_sound(before, c, f),
        foreign::foreign_ok(before, all),
        staged::is_staged(all, i, j),
        all[i].name == before.catalog@[c].name,
        all[i].schema == before.catalog@[c],
        refers_now(after, c, f, all[i].changes[j].id) is Some,
        cell(
            staged::final_row(before, all, all[i].name, all[i].changes[j].id),
            before.catalog@[c].foreign_keys[f].column,
        ) == refers_now(after, c, f, all[i].changes[j].id),
    ensures
        finds_now(after, c, f, refers_now(after, c, f, all[i].changes[j].id)->0),
{
    let child = before.catalog@[c];
    let fk = child.foreign_keys[f];
    let id = all[i].changes[j].id;
    let v = refers_now(after, c, f, id)->0;
    let parent = before.table_view(fk.referenced_table)->0;
    before.lemma_table(fk.referenced_table);
    assert(staged::stages(all, i, j, child.name, id));
    let (x, y) = choose|x: int, y: int| #[trigger] staged::stages(all, x, y, child.name, id);
    assert(staged::is_staged(all, x, y));
    assert(x == i && y == j);
    assert(foreign::refers(all, i, j, f));
    assert(foreign::resolves(before, all, i, j, f));
    assert(foreign::reference(all, i, j, f) == Some(v));
    let z = choose|z: Seq<char>| #[trigger] foreign::is_match(before, all, parent, fk.referenced_column, v, z);
    let found = staged::final_row(before, all, parent.name, z)->Ok_0->0[encode_utf8(fk.referenced_column)];
    lemma_equal_values(found, v, found);
    lemma_equal_values(v, found, v);
    lemma_match_holds(before, after, all, p, version, parent, fk.referenced_column, v, v, z);
    assert(holds_now(after, fk.referenced_table, fk.referenced_column, v, z));
}

} // verus!
