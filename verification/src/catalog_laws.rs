//! Tables and indexes that come and go: what is accepted, and what else stays as
//! it was.

use crate::catalog::{self, IndexKind};
use crate::ddl;
use crate::ddl_laws::{self, has_column, has_equality_index, has_text_index, has_vector_index};
use crate::derived::{self, ColumnValueView};
use crate::error::ErrorView;
use crate::find_laws;
use crate::foreign_laws::cell;
use crate::index_laws;
use crate::model;
use crate::reads;
use crate::schema::{self, IndexDef, IndexView, TableSchema, TableView, TextIndexDef, TextIndexView, VectorIndexDef, VectorIndexView};
use crate::segment;
use crate::state::{self, State};
use crate::value::{ColumnType, ValueView};
use crate::version;
use crate::visit::{self, GroupView};
use vstd::prelude::*;
use vstd::utf8::*;

verus! {

/// The table has a column of a name and a type.
pub open spec fn column_is(t: TableView, name: Seq<char>, ty: ColumnType) -> bool {
    exists|i: int| 0 <= i < t.columns.len() && (#[trigger] t.columns[i]).name == name && t.columns[i].ty == ty
}

proof fn lemma_column_is(t: TableView, name: Seq<char>, ty: ColumnType)
    requires
        ddl_laws::columns_apart(t),
    ensures
        column_is(t, name, ty) <==> schema::column_of(t.columns, name) is Some && schema::column_of(t.columns, name)->0.ty == ty,
        has_column(t, name) <==> schema::column_of(t.columns, name) is Some,
{
    let names = schema::column_names(t.columns);
    model::lemma_find(names, name);
    ddl_laws::lemma_has_column(t, name);
    if column_is(t, name, ty) {
        let i = choose|i: int| 0 <= i < t.columns.len() && (#[trigger] t.columns[i]).name == name && t.columns[i].ty == ty;
        assert(names[i] == name);
        assert forall|j: int| 0 <= j < i implies names[j] != name by {
            assert(t.columns[j].name != t.columns[i].name);
        }
        model::lemma_find_is(names, name, i);
    }
    if let Some(i) = model::find(names, name) {
        assert(t.columns[i].name == name);
    }
}

proof fn lemma_has_index(t: TableView, column: Seq<char>)
    ensures
        catalog::has_index(t, column, IndexKind::Secondary) == has_equality_index(t, column),
        catalog::has_index(t, column, IndexKind::Vector) == has_vector_index(t, column),
        catalog::has_index(t, column, IndexKind::Text) == has_text_index(t, column),
{
    if has_equality_index(t, column) {
        let i = choose|i: int| 0 <= i < t.indexes.len() && (#[trigger] t.indexes[i]).column == column;
        assert(<IndexDef as ddl::Labeled>::label_of(t.indexes[i]) == column);
    }
    if has_vector_index(t, column) {
        let i = choose|i: int| 0 <= i < t.vector_indexes.len() && (#[trigger] t.vector_indexes[i]).column == column;
        assert(<VectorIndexDef as ddl::Labeled>::label_of(t.vector_indexes[i]) == column);
    }
    if has_text_index(t, column) {
        let i = choose|i: int| 0 <= i < t.text_indexes.len() && (#[trigger] t.text_indexes[i]).column == column;
        assert(<TextIndexDef as ddl::Labeled>::label_of(t.text_indexes[i]) == column);
    }
}

/// An index is accepted exactly where the database can be written and the table
/// has the column, of a type that the index is for, without an index of the kind:
/// a vector index is for vectors, a text index for texts, and an equality index
/// for everything but vectors.
pub proof fn lemma_index_accepted(st: &State, read_only: bool, k: int, column: Seq<char>)
    requires
        ddl_laws::tables_apart(st.catalog@),
        0 <= k < st.catalog@.len(),
        ddl_laws::columns_apart(st.catalog@[k]),
    ensures
        ({
            let t = st.catalog@[k];
            &&& catalog::index_complaint(st, read_only, t.name, column, IndexKind::Secondary) is None <==> !read_only && has_column(t, column)
                && !column_is(t, column, ColumnType::Vector) && !has_equality_index(t, column)
            &&& catalog::index_complaint(st, read_only, t.name, column, IndexKind::Vector) is None <==> !read_only && column_is(
                t,
                column,
                ColumnType::Vector,
            ) && !has_vector_index(t, column)
            &&& catalog::index_complaint(st, read_only, t.name, column, IndexKind::Text) is None <==> !read_only && column_is(
                t,
                column,
                ColumnType::Text,
            ) && !has_text_index(t, column)
        }),
{
    let t = st.catalog@[k];
    ddl_laws::lemma_table_place(st.catalog@, k);
    lemma_column_is(t, column, ColumnType::Vector);
    lemma_column_is(t, column, ColumnType::Text);
    lemma_has_index(t, column);
}

/// A sound table is accepted exactly where the database can be written, no table
/// has its name, its equality indexes are on columns of it, its vector indexes on
/// vector columns and its text indexes on text columns.
pub proof fn lemma_table_accepted(st: &State, read_only: bool, t: TableView)
    requires
        ddl_laws::columns_apart(t),
    ensures
        catalog::table_complaint(st, read_only, None, t) is None <==> {
            &&& !read_only
            &&& forall|i: int| 0 <= i < st.catalog@.len() ==> (#[trigger] st.catalog@[i]).name != t.name
            &&& forall|i: int| 0 <= i < t.indexes.len() ==> has_column(t, (#[trigger] t.indexes[i]).column)
            &&& forall|i: int| 0 <= i < t.vector_indexes.len() ==> column_is(t, (#[trigger] t.vector_indexes[i]).column, ColumnType::Vector)
            &&& forall|i: int| 0 <= i < t.text_indexes.len() ==> column_is(t, (#[trigger] t.text_indexes[i]).column, ColumnType::Text)
        },
{
    let names = schema::table_names(st.catalog@);
    model::lemma_find(names, t.name);
    if st.table_view(t.name) is None {
        assert forall|i: int| 0 <= i < st.catalog@.len() implies (#[trigger] st.catalog@[i]).name != t.name by {
            assert(names[i] == st.catalog@[i].name);
            if names[i] == t.name {
                assert(names.contains(t.name));
            }
        }
    } else {
        let i = model::find(names, t.name)->0;
        assert(st.catalog@[i].name == t.name);
    }
    lemma_sound_until(t, 0);
    let v = catalog::vector_columns(t);
    let x = catalog::text_columns(t);
    lemma_first_other(t, v, ColumnType::Vector, 0);
    lemma_first_other(t, x, ColumnType::Text, 0);
    if catalog::first_other(t, v, ColumnType::Vector, 0) is None {
        assert forall|i: int| 0 <= i < t.vector_indexes.len() implies column_is(t, (#[trigger] t.vector_indexes[i]).column, ColumnType::Vector) by {
            assert(v[i] == t.vector_indexes[i].column);
        }
    } else {
        let i = catalog::first_other(t, v, ColumnType::Vector, 0)->0;
        assert(v[i] == t.vector_indexes[i].column);
    }
    if catalog::first_other(t, x, ColumnType::Text, 0) is None {
        assert forall|i: int| 0 <= i < t.text_indexes.len() implies column_is(t, (#[trigger] t.text_indexes[i]).column, ColumnType::Text) by {
            assert(x[i] == t.text_indexes[i].column);
        }
    } else {
        let i = catalog::first_other(t, x, ColumnType::Text, 0)->0;
        assert(x[i] == t.text_indexes[i].column);
    }
}

proof fn lemma_sound_until(t: TableView, i: int)
    requires
        0 <= i <= t.indexes.len(),
    ensures
        i <= catalog::sound_until(t, i) <= t.indexes.len(),
        forall|k: int| i <= k < catalog::sound_until(t, i) ==> has_column(t, (#[trigger] t.indexes[k]).column),
        catalog::sound_until(t, i) < t.indexes.len() ==> !has_column(t, t.indexes[catalog::sound_until(t, i)].column),
    decreases t.indexes.len() - i,
{
    if i < t.indexes.len() {
        ddl_laws::lemma_has_column(t, t.indexes[i].column);
        if schema::column_of(t.columns, t.indexes[i].column) is Some {
            lemma_sound_until(t, i + 1);
        }
    }
}

proof fn lemma_first_other(t: TableView, columns: Seq<Seq<char>>, ty: ColumnType, i: int)
    requires
        ddl_laws::columns_apart(t),
        0 <= i <= columns.len(),
    ensures
        match catalog::first_other(t, columns, ty, i) {
            None => forall|k: int| i <= k < columns.len() ==> column_is(t, #[trigger] columns[k], ty),
            Some(k) => i <= k < columns.len() && !column_is(t, columns[k], ty),
        },
    decreases columns.len() - i,
{
    if i < columns.len() {
        lemma_column_is(t, columns[i], ty);
        if catalog::has_column_of(t, columns[i], ty) {
            lemma_first_other(t, columns, ty, i + 1);
        }
    }
}

/// Dropping an index takes away the indexes of its kind on its column, and leaves
/// everything else of the table as it was.
pub proof fn lemma_index_is_dropped(t: TableView, column: Seq<char>, other: Seq<char>)
    requires
        other != column,
    ensures
        ({
            let e = catalog::without_index(t, column, IndexKind::Secondary);
            let v = catalog::without_index(t, column, IndexKind::Vector);
            let x = catalog::without_index(t, column, IndexKind::Text);
            &&& e.indexes == t.indexes.filter(|d: IndexView| d.column != column)
            &&& v.vector_indexes == t.vector_indexes.filter(|d: VectorIndexView| d.column != column)
            &&& x.text_indexes == t.text_indexes.filter(|d: TextIndexView| d.column != column)
            &&& !has_equality_index(e, column) && has_equality_index(e, other) == has_equality_index(t, other)
            &&& !has_vector_index(v, column) && has_vector_index(v, other) == has_vector_index(t, other)
            &&& !has_text_index(x, column) && has_text_index(x, other) == has_text_index(t, other)
            &&& e == (TableView { indexes: e.indexes, ..t })
            &&& v == (TableView { vector_indexes: v.vector_indexes, ..t })
            &&& x == (TableView { text_indexes: x.text_indexes, ..t })
        }),
{
    let (fe, fv, fx) = (
        |d: IndexView| d.column != column,
        |d: VectorIndexView| d.column != column,
        |d: TextIndexView| d.column != column,
    );
    assert(ddl::follows_other::<IndexDef>(column) =~= fe);
    assert(ddl::follows_other::<VectorIndexDef>(column) =~= fv);
    assert(ddl::follows_other::<TextIndexDef>(column) =~= fx);
    ddl::lemma_filter_twice(t.indexes, fe);
    ddl::lemma_filter_twice(t.vector_indexes, fv);
    ddl::lemma_filter_twice(t.text_indexes, fx);
    let e = catalog::without_index(t, column, IndexKind::Secondary);
    let v = catalog::without_index(t, column, IndexKind::Vector);
    let x = catalog::without_index(t, column, IndexKind::Text);
    if has_equality_index(t, other) {
        let i = choose|i: int| 0 <= i < t.indexes.len() && (#[trigger] t.indexes[i]).column == other;
        let j = ddl_laws::lemma_filter_keeps(t.indexes, fe, i);
        assert(e.indexes[j].column == other);
    }
    if has_equality_index(e, other) {
        let j = choose|j: int| 0 <= j < e.indexes.len() && (#[trigger] e.indexes[j]).column == other;
        let i = ddl_laws::lemma_filter_from(t.indexes, fe, j);
        assert(t.indexes[i].column == other);
    }
    if has_vector_index(t, other) {
        let i = choose|i: int| 0 <= i < t.vector_indexes.len() && (#[trigger] t.vector_indexes[i]).column == other;
        let j = ddl_laws::lemma_filter_keeps(t.vector_indexes, fv, i);
        assert(v.vector_indexes[j].column == other);
    }
    if has_vector_index(v, other) {
        let j = choose|j: int| 0 <= j < v.vector_indexes.len() && (#[trigger] v.vector_indexes[j]).column == other;
        let i = ddl_laws::lemma_filter_from(t.vector_indexes, fv, j);
        assert(t.vector_indexes[i].column == other);
    }
    if has_text_index(t, other) {
        let i = choose|i: int| 0 <= i < t.text_indexes.len() && (#[trigger] t.text_indexes[i]).column == other;
        let j = ddl_laws::lemma_filter_keeps(t.text_indexes, fx, i);
        assert(x.text_indexes[j].column == other);
    }
    if has_text_index(x, other) {
        let j = choose|j: int| 0 <= j < x.text_indexes.len() && (#[trigger] x.text_indexes[j]).column == other;
        let i = ddl_laws::lemma_filter_from(t.text_indexes, fx, j);
        assert(t.text_indexes[i].column == other);
    }
}

/// Dropping a table takes the one table out of the catalog and leaves every record
/// of every other table as it was, for every reader.
pub proof fn lemma_drop_keeps_others(before: &State, after: &State, table: Seq<char>, other: Seq<char>, id: Seq<char>, max: u64)
    requires
        before.wf(),
        ddl_laws::tables_apart(before.catalog@),
        encode_utf8(table).len() <= u32::MAX,
        other != table,
        after.catalog@ == ddl::drop_labeled::<TableSchema>(before.catalog@, table),
        after.index.runs == before.index.runs,
        after.index.frozen == before.index.frozen,
        after.index.delta@ == visit::without_prefix(before.index.delta@, version::table_prefix(encode_utf8(table))),
        after.segments == before.segments,
        after.blobs == before.blobs,
    ensures
        after.catalog@ == before.catalog@.filter(|t: TableView| t.name != table),
        after.table_view(other) == before.table_view(other),
        after.row(other, id, max) == before.row(other, id, max),
{
    let f = |t: TableView| t.name != table;
    assert(ddl::follows_other::<TableSchema>(table) =~= f);
    lemma_kept_table(before.catalog@, after.catalog@, table, other);
    if before.table_view(other) is Some {
        before.lemma_table(other);
        let key = version::key_of(encode_utf8(other), encode_utf8(id));
        let prefix = version::table_prefix(encode_utf8(table));
        assert(!prefix.is_prefix_of(key)) by {
            if prefix.is_prefix_of(key) {
                version::lemma_key_table(encode_utf8(table), encode_utf8(other), encode_utf8(id));
                crate::bytes::lemma_utf8_injective(table, other);
            }
        }
        assert(after.index.delta@.contains_key(key) == before.index.delta@.contains_key(key));
        assert(after.index.entries(key) == before.index.entries(key));
        assert(after.images() == before.images());
    }
}

proof fn lemma_kept_table(tables: Seq<TableView>, kept: Seq<TableView>, table: Seq<char>, other: Seq<char>)
    requires
        ddl_laws::tables_apart(tables),
        kept == tables.filter(|t: TableView| t.name != table),
        other != table,
    ensures
        schema::table_of(kept, other) == schema::table_of(tables, other),
{
    let f = |t: TableView| t.name != table;
    let names = schema::table_names(tables);
    let left = schema::table_names(kept);
    model::lemma_find(names, other);
    model::lemma_find(left, other);
    match model::find(names, other) {
        Some(i) => {
            assert(tables[i].name == other);
            let j = ddl_laws::lemma_filter_keeps(tables, f, i);
            assert(left[j] == other);
            assert(left.contains(other));
        },
        None => {},
    }
    if let Some(j) = model::find(left, other) {
        assert(kept[j].name == other);
        let i = ddl_laws::lemma_filter_from(tables, f, j);
        assert(names[i] == other);
        assert(names.contains(other));
        let k = model::find(names, other)->0;
        if k < i {
            assert(tables[k].name != tables[i].name);
        } else if i < k {
            assert(tables[i].name != tables[k].name);
        }
    }
}

/// The rows that dropping a table reports are the listed records whose newest
/// version is no deletion.
pub proof fn lemma_rows_counted(groups: Seq<GroupView>, n: int)
    requires
        0 <= n <= groups.len(),
    ensures
        catalog::live_count(groups, n) == groups.subrange(0, n).filter(
            |g: GroupView| g.versions.len() > 0 && !g.versions.last().kind.is_tombstone(),
        ).len(),
    decreases n,
{
    reveal(Seq::filter);
    let f = |g: GroupView| g.versions.len() > 0 && !g.versions.last().kind.is_tombstone();
    if n > 0 {
        lemma_rows_counted(groups, n - 1);
        let s = groups.subrange(0, n);
        assert(s.drop_last() =~= groups.subrange(0, n - 1));
        assert(s.last() == groups[n - 1]);
    }
}

// ---- What an index is built from --------------------------------------------

/// The values that an index of a column is built from are those that the records
/// have in it now and that are not null, each with the id of its record, in the
/// order of the ids.
pub proof fn lemma_values_are_current(
    st: &State,
    t: TableView,
    groups: Seq<GroupView>,
    column: Seq<char>,
    values: Seq<ColumnValueView>,
    id: Seq<char>,
    v: ValueView,
)
    requires
        st.wf(),
        st.versions_ok(),
        st.table_view(t.name) == Some(t),
        index_laws::stored_column(t, column),
        derived::lists_table(st, t.name, groups),
        derived::column_values(st, t.name, groups, column, groups.len() as int) == Ok::<Seq<ColumnValueView>, ErrorView>(values),
    ensures
        values.contains(ColumnValueView { id: encode_utf8(id), value: v }) <==> cell(st.row(t.name, id, u64::MAX), column) == Some(v),
        forall|i: int, j: int|
            0 <= i < j < values.len() ==> crate::bytes::lex_lt((#[trigger] values[i]).id, (#[trigger] values[j]).id),
{
    lemma_values_from(st, t, groups, column, groups.len() as int, values);
    let c = ColumnValueView { id: encode_utf8(id), value: v };
    if values.contains(c) {
        let q = choose|q: int| #[trigger] gives(st, t, groups, column, groups.len() as int, q, c);
        lemma_value_is_cell(st, t, groups[q], column, id);
    }
    if cell(st.row(t.name, id, u64::MAX), column) == Some(v) {
        assert(st.shows(t.name, encode_utf8(id), u64::MAX));
        reads::lemma_versions_held(st, t.name, encode_utf8(id), u64::MAX);
        assert(st.index.has_record(encode_utf8(t.name), encode_utf8(id)));
        assert(visit::lists_id(groups, encode_utf8(id)));
        let q = choose|q: int| 0 <= q < groups.len() && (#[trigger] groups[q]).id == encode_utf8(id);
        lemma_value_is_cell(st, t, groups[q], column, id);
        assert(gives(st, t, groups, column, groups.len() as int, q, c));
    }
}

spec fn gives(st: &State, t: TableView, groups: Seq<GroupView>, column: Seq<char>, n: int, q: int, c: ColumnValueView) -> bool {
    &&& 0 <= q < n
    &&& groups[q].id == c.id
    &&& derived::column_value(st, t.name, groups[q], column) == Ok::<Option<ValueView>, ErrorView>(Some(c.value))
}

proof fn lemma_values_from(st: &State, t: TableView, groups: Seq<GroupView>, column: Seq<char>, n: int, values: Seq<ColumnValueView>)
    requires
        0 <= n <= groups.len(),
        derived::column_values(st, t.name, groups, column, n) == Ok::<Seq<ColumnValueView>, ErrorView>(values),
        forall|i: int, j: int| 0 <= i < j < groups.len() ==> crate::bytes::lex_lt((#[trigger] groups[i]).id, (#[trigger] groups[j]).id),
    ensures
        forall|c: ColumnValueView| #[trigger] values.contains(c) ==> exists|q: int| #[trigger] gives(st, t, groups, column, n, q, c),
        forall|c: ColumnValueView, q: int| #[trigger] gives(st, t, groups, column, n, q, c) ==> values.contains(c),
        forall|q: int| 0 <= q < n ==> derived::column_value(st, t.name, #[trigger] groups[q], column) is Ok,
        forall|i: int, j: int|
            0 <= i < j < values.len() ==> crate::bytes::lex_lt((#[trigger] values[i]).id, (#[trigger] values[j]).id),
    decreases n,
{
    if n > 0 {
        let before = derived::column_values(st, t.name, groups, column, n - 1)->Ok_0;
        lemma_values_from(st, t, groups, column, n - 1, before);
        assert forall|c: ColumnValueView| #[trigger] values.contains(c) implies exists|q: int| #[trigger] gives(st, t, groups, column, n, q, c) by {
            let i = values.index_of(c);
            if i < before.len() {
                assert(before[i] == c);
                assert(before.contains(c));
                let q = choose|q: int| #[trigger] gives(st, t, groups, column, n - 1, q, c);
                assert(gives(st, t, groups, column, n, q, c));
            } else {
                assert(gives(st, t, groups, column, n, n - 1, c));
            }
        }
        assert forall|c: ColumnValueView, q: int| #[trigger] gives(st, t, groups, column, n, q, c) implies values.contains(c) by {
            if q < n - 1 {
                assert(gives(st, t, groups, column, n - 1, q, c));
                assert(before.contains(c));
                assert(values[before.index_of(c)] == c);
            } else {
                assert(values[values.len() - 1] == c);
            }
        }
        assert forall|i: int, j: int| 0 <= i < j < values.len() implies crate::bytes::lex_lt(
            (#[trigger] values[i]).id,
            (#[trigger] values[j]).id,
        ) by {
            assert(values[i] == before[i]);
            if j >= before.len() {
                assert(before.contains(before[i]));
                let q = choose|q: int| #[trigger] gives(st, t, groups, column, n - 1, q, before[i]);
                assert(crate::bytes::lex_lt(groups[q].id, groups[n - 1].id));
            } else {
                assert(values[j] == before[j]);
            }
        }
    }
}

proof fn lemma_value_is_cell(st: &State, t: TableView, g: GroupView, column: Seq<char>, id: Seq<char>)
    requires
        st.versions_ok(),
        st.table_view(t.name) == Some(t),
        index_laws::stored_column(t, column),
        st.index.is_record(encode_utf8(t.name), None, g),
        g.id == encode_utf8(id),
        derived::column_value(st, t.name, g, column) is Ok,
    ensures
        derived::column_value(st, t.name, g, column)->Ok_0 == cell(st.row(t.name, id, u64::MAX), column),
{
    reveal(derived::column_value);
    find_laws::lemma_group_now(st, t, g);
    let name = encode_utf8(column);
    if g.versions.len() > 0 && g.versions.last().version <= t.epoch {
        find_laws::lemma_none_past(g.versions, t.epoch);
    }
    if derived::is_held(g, t.epoch) {
        let rec = segment::record_of(st.images(), st.blobs@, g.versions.last().kind)->Ok_0;
        let row = state::with_id(t, rec, id);
        assert(row.contains_key(name) == rec.contains_key(name));
        if rec.contains_key(name) {
            assert(row[name] == rec[name]);
        }
    }
}

} // verus!
