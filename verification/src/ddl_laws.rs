//! What a schema change does to the tables and to the stored records, column by
//! column and index by index.

use crate::alter;
use crate::catalog;
use crate::ddl::{self, RewriteView};
use crate::model;
use crate::payload::{self, RawField};
use crate::plain_laws;
use crate::schema::{self, Column, ColumnView, IndexDef, IndexView, TableView, TextIndexDef, TextIndexView, VectorIndexDef, VectorIndexView};
use crate::state::State;
use crate::value;
use vstd::prelude::*;
use vstd::utf8::*;

verus! {

// ---- What a table has -------------------------------------------------------

pub open spec fn has_column(t: TableView, name: Seq<char>) -> bool {
    exists|i: int| 0 <= i < t.columns.len() && (#[trigger] t.columns[i]).name == name
}

pub open spec fn has_equality_index(t: TableView, name: Seq<char>) -> bool {
    exists|i: int| 0 <= i < t.indexes.len() && (#[trigger] t.indexes[i]).column == name
}

pub open spec fn has_vector_index(t: TableView, name: Seq<char>) -> bool {
    exists|i: int| 0 <= i < t.vector_indexes.len() && (#[trigger] t.vector_indexes[i]).column == name
}

pub open spec fn has_text_index(t: TableView, name: Seq<char>) -> bool {
    exists|i: int| 0 <= i < t.text_indexes.len() && (#[trigger] t.text_indexes[i]).column == name
}

/// Every index of the table is on a column that the table has.
pub open spec fn indexes_on_columns(t: TableView) -> bool {
    &&& forall|i: int| 0 <= i < t.indexes.len() ==> has_column(t, (#[trigger] t.indexes[i]).column)
    &&& forall|i: int| 0 <= i < t.vector_indexes.len() ==> has_column(t, (#[trigger] t.vector_indexes[i]).column)
    &&& forall|i: int| 0 <= i < t.text_indexes.len() ==> has_column(t, (#[trigger] t.text_indexes[i]).column)
}

pub open spec fn columns_apart(t: TableView) -> bool {
    forall|i: int, j: int| 0 <= i < j < t.columns.len() ==> (#[trigger] t.columns[i]).name != (#[trigger] t.columns[j]).name
}

pub open spec fn tables_apart(tables: Seq<TableView>) -> bool {
    forall|i: int, j: int| 0 <= i < j < tables.len() ==> (#[trigger] tables[i]).name != (#[trigger] tables[j]).name
}

/// A table is found under its name, where no other has it.
pub proof fn lemma_table_place(tables: Seq<TableView>, k: int)
    requires
        tables_apart(tables),
        0 <= k < tables.len(),
    ensures
        model::find(schema::table_names(tables), tables[k].name) == Some(k),
{
    model::lemma_find_is(schema::table_names(tables), tables[k].name, k);
}

// ---- Renaming a column ------------------------------------------------------

/// After a column is renamed, the column that had the old name has the new one
/// and nothing else of it changed; every equality, vector and text index that was
/// on it is on it still, under its new name and otherwise as it was; and all other
/// columns, indexes and tables are as they were.
pub proof fn lemma_column_is_renamed(tables: Seq<TableView>, k: int, from: Seq<char>, to: Seq<char>)
    requires
        tables_apart(tables),
        0 <= k < tables.len(),
        columns_apart(tables[k]),
        has_column(tables[k], from),
    ensures
        ({
            let after = ddl::applied(RewriteView::RenameColumn { table: tables[k].name, from, to }, tables);
            let t = tables[k];
            let n = after[k];
            &&& after.len() == tables.len()
            &&& forall|i: int| 0 <= i < tables.len() && i != k ==> #[trigger] after[i] == tables[i]
            &&& n.name == t.name && n.foreign_keys == t.foreign_keys && n.epoch == t.epoch && n.implicit_id == t.implicit_id
            &&& n.columns.len() == t.columns.len()
            &&& n.indexes.len() == t.indexes.len()
            &&& n.vector_indexes.len() == t.vector_indexes.len()
            &&& n.text_indexes.len() == t.text_indexes.len()
            &&& forall|i: int| 0 <= i < t.columns.len() ==> #[trigger] n.columns[i] == (ColumnView {
                name: if t.columns[i].name == from { to } else { t.columns[i].name },
                ..t.columns[i]
            })
            &&& forall|i: int| 0 <= i < t.indexes.len() ==> #[trigger] n.indexes[i] == (IndexView {
                column: if t.indexes[i].column == from { to } else { t.indexes[i].column },
                ..t.indexes[i]
            })
            &&& forall|i: int| 0 <= i < t.vector_indexes.len() ==> #[trigger] n.vector_indexes[i] == (VectorIndexView {
                column: if t.vector_indexes[i].column == from { to } else { t.vector_indexes[i].column },
                ..t.vector_indexes[i]
            })
            &&& forall|i: int| 0 <= i < t.text_indexes.len() ==> #[trigger] n.text_indexes[i] == (TextIndexView {
                column: if t.text_indexes[i].column == from { to } else { t.text_indexes[i].column },
            })
        }),
{
    lemma_table_place(tables, k);
    let t = tables[k];
    let names = schema::column_names(t.columns);
    model::lemma_find(names, from);
    let c = choose|c: int| 0 <= c < t.columns.len() && (#[trigger] t.columns[c]).name == from;
    assert(names[c] == from);
    model::lemma_find_is(names, from, c);
}

/// After a column is renamed to a name that no column of the table had, the new
/// name has an equality, vector or text index exactly where the old name had one,
/// the old name has no column and no index, every other name has the indexes that
/// it had, and every index names a column that the table has.
pub proof fn lemma_renamed_indexes(tables: Seq<TableView>, k: int, from: Seq<char>, to: Seq<char>, other: Seq<char>)
    requires
        tables_apart(tables),
        0 <= k < tables.len(),
        columns_apart(tables[k]),
        indexes_on_columns(tables[k]),
        has_column(tables[k], from),
        !has_column(tables[k], to),
        other != from,
        other != to,
    ensures
        ({
            let t = tables[k];
            let n = ddl::applied(RewriteView::RenameColumn { table: t.name, from, to }, tables)[k];
            &&& has_column(n, to) && !has_column(n, from)
            &&& has_column(n, other) == has_column(t, other)
            &&& has_equality_index(n, to) == has_equality_index(t, from)
            &&& has_vector_index(n, to) == has_vector_index(t, from)
            &&& has_text_index(n, to) == has_text_index(t, from)
            &&& !has_equality_index(n, from) && !has_vector_index(n, from) && !has_text_index(n, from)
            &&& has_equality_index(n, other) == has_equality_index(t, other)
            &&& has_vector_index(n, other) == has_vector_index(t, other)
            &&& has_text_index(n, other) == has_text_index(t, other)
            &&& indexes_on_columns(n)
            &&& columns_apart(n)
        }),
{
    lemma_column_is_renamed(tables, k, from, to);
    let t = tables[k];
    let n = ddl::applied(RewriteView::RenameColumn { table: t.name, from, to }, tables)[k];
    let c = choose|c: int| 0 <= c < t.columns.len() && (#[trigger] t.columns[c]).name == from;
    assert(n.columns[c].name == to);
    lemma_moved_columns(t, n, from, to);
    lemma_moved_equality(t, n, from, to);
    lemma_moved_vectors(t, n, from, to);
    lemma_moved_texts(t, n, from, to);
}

spec fn moved(name: Seq<char>, from: Seq<char>, to: Seq<char>) -> Seq<char> {
    if name == from {
        to
    } else {
        name
    }
}

proof fn lemma_moved_columns(t: TableView, n: TableView, from: Seq<char>, to: Seq<char>)
    requires
        n.columns.len() == t.columns.len(),
        forall|i: int| 0 <= i < t.columns.len() ==> (#[trigger] n.columns[i]).name == moved(t.columns[i].name, from, to),
        columns_apart(t),
        !has_column(t, to),
        from != to,
    ensures
        columns_apart(n),
        !has_column(n, from),
        forall|name: Seq<char>| name != from && name != to ==> #[trigger] has_column(n, name) == has_column(t, name),
        forall|name: Seq<char>| #[trigger] has_column(t, name) ==> has_column(n, moved(name, from, to)),
{
    assert forall|name: Seq<char>| name != from && name != to implies #[trigger] has_column(n, name) == has_column(t, name) by {
        if has_column(n, name) {
            let i = choose|i: int| 0 <= i < n.columns.len() && (#[trigger] n.columns[i]).name == name;
            assert(t.columns[i].name == name);
        }
        if has_column(t, name) {
            let i = choose|i: int| 0 <= i < t.columns.len() && (#[trigger] t.columns[i]).name == name;
            assert(n.columns[i].name == name);
        }
    }
    assert forall|name: Seq<char>| #[trigger] has_column(t, name) implies has_column(n, moved(name, from, to)) by {
        let i = choose|i: int| 0 <= i < t.columns.len() && (#[trigger] t.columns[i]).name == name;
        assert(n.columns[i].name == moved(name, from, to));
    }
    assert forall|i: int, j: int| 0 <= i < j < n.columns.len() implies (#[trigger] n.columns[i]).name != (#[trigger] n.columns[j]).name by {
        assert(t.columns[i].name != t.columns[j].name);
        assert(t.columns[i].name != to && t.columns[j].name != to);
    }
}

proof fn lemma_moved_equality(t: TableView, n: TableView, from: Seq<char>, to: Seq<char>)
    requires
        n.indexes.len() == t.indexes.len(),
        forall|i: int| 0 <= i < t.indexes.len() ==> (#[trigger] n.indexes[i]).column == moved(t.indexes[i].column, from, to),
        forall|i: int| 0 <= i < t.indexes.len() ==> has_column(t, (#[trigger] t.indexes[i]).column),
        forall|name: Seq<char>| #[trigger] has_column(t, name) ==> has_column(n, moved(name, from, to)),
        !has_column(t, to),
        from != to,
    ensures
        has_equality_index(n, to) == has_equality_index(t, from),
        !has_equality_index(n, from),
        forall|name: Seq<char>| name != from && name != to ==> #[trigger] has_equality_index(n, name) == has_equality_index(t, name),
        forall|i: int| 0 <= i < n.indexes.len() ==> has_column(n, (#[trigger] n.indexes[i]).column),
{
    if has_equality_index(n, to) {
        let i = choose|i: int| 0 <= i < n.indexes.len() && (#[trigger] n.indexes[i]).column == to;
        assert(has_column(t, t.indexes[i].column));
        assert(t.indexes[i].column == from);
    }
    if has_equality_index(t, from) {
        let i = choose|i: int| 0 <= i < t.indexes.len() && (#[trigger] t.indexes[i]).column == from;
        assert(n.indexes[i].column == to);
    }
    assert forall|name: Seq<char>| name != from && name != to implies #[trigger] has_equality_index(n, name) == has_equality_index(t, name) by {
        if has_equality_index(n, name) {
            let i = choose|i: int| 0 <= i < n.indexes.len() && (#[trigger] n.indexes[i]).column == name;
            assert(t.indexes[i].column == name);
        }
        if has_equality_index(t, name) {
            let i = choose|i: int| 0 <= i < t.indexes.len() && (#[trigger] t.indexes[i]).column == name;
            assert(n.indexes[i].column == name);
        }
    }
    assert forall|i: int| 0 <= i < n.indexes.len() implies has_column(n, (#[trigger] n.indexes[i]).column) by {
        assert(has_column(t, t.indexes[i].column));
    }
}

proof fn lemma_moved_vectors(t: TableView, n: TableView, from: Seq<char>, to: Seq<char>)
    requires
        n.vector_indexes.len() == t.vector_indexes.len(),
        forall|i: int| 0 <= i < t.vector_indexes.len() ==> (#[trigger] n.vector_indexes[i]).column == moved(t.vector_indexes[i].column, from, to),
        forall|i: int| 0 <= i < t.vector_indexes.len() ==> has_column(t, (#[trigger] t.vector_indexes[i]).column),
        forall|name: Seq<char>| #[trigger] has_column(t, name) ==> has_column(n, moved(name, from, to)),
        !has_column(t, to),
        from != to,
    ensures
        has_vector_index(n, to) == has_vector_index(t, from),
        !has_vector_index(n, from),
        forall|name: Seq<char>| name != from && name != to ==> #[trigger] has_vector_index(n, name) == has_vector_index(t, name),
        forall|i: int| 0 <= i < n.vector_indexes.len() ==> has_column(n, (#[trigger] n.vector_indexes[i]).column),
{
    if has_vector_index(n, to) {
        let i = choose|i: int| 0 <= i < n.vector_indexes.len() && (#[trigger] n.vector_indexes[i]).column == to;
        assert(has_column(t, t.vector_indexes[i].column));
        assert(t.vector_indexes[i].column == from);
    }
    if has_vector_index(t, from) {
        let i = choose|i: int| 0 <= i < t.vector_indexes.len() && (#[trigger] t.vector_indexes[i]).column == from;
        assert(n.vector_indexes[i].column == to);
    }
    assert forall|name: Seq<char>| name != from && name != to implies #[trigger] has_vector_index(n, name) == has_vector_index(t, name) by {
        if has_vector_index(n, name) {
            let i = choose|i: int| 0 <= i < n.vector_indexes.len() && (#[trigger] n.vector_indexes[i]).column == name;
            assert(t.vector_indexes[i].column == name);
        }
        if has_vector_index(t, name) {
            let i = choose|i: int| 0 <= i < t.vector_indexes.len() && (#[trigger] t.vector_indexes[i]).column == name;
            assert(n.vector_indexes[i].column == name);
        }
    }
    assert forall|i: int| 0 <= i < n.vector_indexes.len() implies has_column(n, (#[trigger] n.vector_indexes[i]).column) by {
        assert(has_column(t, t.vector_indexes[i].column));
    }
}

proof fn lemma_moved_texts(t: TableView, n: TableView, from: Seq<char>, to: Seq<char>)
    requires
        n.text_indexes.len() == t.text_indexes.len(),
        forall|i: int| 0 <= i < t.text_indexes.len() ==> (#[trigger] n.text_indexes[i]).column == moved(t.text_indexes[i].column, from, to),
        forall|i: int| 0 <= i < t.text_indexes.len() ==> has_column(t, (#[trigger] t.text_indexes[i]).column),
        forall|name: Seq<char>| #[trigger] has_column(t, name) ==> has_column(n, moved(name, from, to)),
        !has_column(t, to),
        from != to,
    ensures
        has_text_index(n, to) == has_text_index(t, from),
        !has_text_index(n, from),
        forall|name: Seq<char>| name != from && name != to ==> #[trigger] has_text_index(n, name) == has_text_index(t, name),
        forall|i: int| 0 <= i < n.text_indexes.len() ==> has_column(n, (#[trigger] n.text_indexes[i]).column),
{
    if has_text_index(n, to) {
        let i = choose|i: int| 0 <= i < n.text_indexes.len() && (#[trigger] n.text_indexes[i]).column == to;
        assert(has_column(t, t.text_indexes[i].column));
        assert(t.text_indexes[i].column == from);
    }
    if has_text_index(t, from) {
        let i = choose|i: int| 0 <= i < t.text_indexes.len() && (#[trigger] t.text_indexes[i]).column == from;
        assert(n.text_indexes[i].column == to);
    }
    assert forall|name: Seq<char>| name != from && name != to implies #[trigger] has_text_index(n, name) == has_text_index(t, name) by {
        if has_text_index(n, name) {
            let i = choose|i: int| 0 <= i < n.text_indexes.len() && (#[trigger] n.text_indexes[i]).column == name;
            assert(t.text_indexes[i].column == name);
        }
        if has_text_index(t, name) {
            let i = choose|i: int| 0 <= i < t.text_indexes.len() && (#[trigger] t.text_indexes[i]).column == name;
            assert(n.text_indexes[i].column == name);
        }
    }
    assert forall|i: int| 0 <= i < n.text_indexes.len() implies has_column(n, (#[trigger] n.text_indexes[i]).column) by {
        assert(has_column(t, t.text_indexes[i].column));
    }
}

// ---- Dropping a column ------------------------------------------------------

/// After a column is dropped, the table has neither the column nor an index on
/// it; it has every other column and every other index, in the order in which it
/// had them; and every other table is as it was.
pub proof fn lemma_column_is_dropped(tables: Seq<TableView>, k: int, column: Seq<char>)
    requires
        tables_apart(tables),
        0 <= k < tables.len(),
    ensures
        ({
            let after = ddl::applied(RewriteView::DropColumn { table: tables[k].name, column }, tables);
            let t = tables[k];
            let n = after[k];
            &&& after.len() == tables.len()
            &&& forall|i: int| 0 <= i < tables.len() && i != k ==> #[trigger] after[i] == tables[i]
            &&& n.name == t.name && n.foreign_keys == t.foreign_keys && n.epoch == t.epoch && n.implicit_id == t.implicit_id
            &&& n.columns == t.columns.filter(|c: ColumnView| c.name != column)
            &&& n.indexes == t.indexes.filter(|d: IndexView| d.column != column)
            &&& n.vector_indexes == t.vector_indexes.filter(|d: VectorIndexView| d.column != column)
            &&& n.text_indexes == t.text_indexes.filter(|d: TextIndexView| d.column != column)
            &&& !has_column(n, column)
            &&& !has_equality_index(n, column) && !has_vector_index(n, column) && !has_text_index(n, column)
        }),
{
    lemma_table_place(tables, k);
    let t = tables[k];
    assert(ddl::follows_other::<Column>(column) =~= (|c: ColumnView| c.name != column));
    assert(ddl::follows_other::<IndexDef>(column) =~= (|d: IndexView| d.column != column));
    assert(ddl::follows_other::<VectorIndexDef>(column) =~= (|d: VectorIndexView| d.column != column));
    assert(ddl::follows_other::<TextIndexDef>(column) =~= (|d: TextIndexView| d.column != column));
    ddl::lemma_filter_twice(t.columns, |c: ColumnView| c.name != column);
    ddl::lemma_filter_twice(t.indexes, |d: IndexView| d.column != column);
    ddl::lemma_filter_twice(t.vector_indexes, |d: VectorIndexView| d.column != column);
    ddl::lemma_filter_twice(t.text_indexes, |d: TextIndexView| d.column != column);
}

/// What a filter keeps is in the filtered list.
pub proof fn lemma_filter_keeps<X>(s: Seq<X>, f: spec_fn(X) -> bool, i: int) -> (j: int)
    requires
        0 <= i < s.len(),
        f(s[i]),
    ensures
        0 <= j < s.filter(f).len(),
        s.filter(f)[j] == s[i],
    decreases s.len(),
{
    reveal(Seq::filter);
    if i == s.len() - 1 {
        s.filter(f).len() - 1
    } else {
        lemma_filter_keeps(s.drop_last(), f, i)
    }
}

/// What is in a filtered list was in the list, and the filter keeps it.
pub proof fn lemma_filter_from<X>(s: Seq<X>, f: spec_fn(X) -> bool, j: int) -> (i: int)
    requires
        0 <= j < s.filter(f).len(),
    ensures
        0 <= i < s.len(),
        s.filter(f)[j] == s[i],
        f(s[i]),
    decreases s.len(),
{
    reveal(Seq::filter);
    if f(s.last()) && j == s.filter(f).len() - 1 {
        s.len() - 1
    } else {
        lemma_filter_from(s.drop_last(), f, j)
    }
}

/// After a column is dropped, every other name has the column and the indexes
/// that it had, and every index names a column that the table has.
pub proof fn lemma_dropped_indexes(tables: Seq<TableView>, k: int, column: Seq<char>, other: Seq<char>)
    requires
        tables_apart(tables),
        0 <= k < tables.len(),
        indexes_on_columns(tables[k]),
        other != column,
    ensures
        ({
            let t = tables[k];
            let n = ddl::applied(RewriteView::DropColumn { table: t.name, column }, tables)[k];
            &&& has_column(n, other) == has_column(t, other)
            &&& has_equality_index(n, other) == has_equality_index(t, other)
            &&& has_vector_index(n, other) == has_vector_index(t, other)
            &&& has_text_index(n, other) == has_text_index(t, other)
            &&& indexes_on_columns(n)
        }),
{
    lemma_column_is_dropped(tables, k, column);
    let t = tables[k];
    let n = ddl::applied(RewriteView::DropColumn { table: t.name, column }, tables)[k];
    lemma_kept_column(t, n, column, other);
    let f = |d: IndexView| d.column != column;
    if has_equality_index(t, other) {
        let i = choose|i: int| 0 <= i < t.indexes.len() && (#[trigger] t.indexes[i]).column == other;
        let j = lemma_filter_keeps(t.indexes, f, i);
        assert(n.indexes[j].column == other);
    }
    if has_equality_index(n, other) {
        let j = choose|j: int| 0 <= j < n.indexes.len() && (#[trigger] n.indexes[j]).column == other;
        let i = lemma_filter_from(t.indexes, f, j);
        assert(t.indexes[i].column == other);
    }
    assert forall|j: int| 0 <= j < n.indexes.len() implies has_column(n, (#[trigger] n.indexes[j]).column) by {
        let i = lemma_filter_from(t.indexes, f, j);
        assert(has_column(t, t.indexes[i].column));
        lemma_kept_column(t, n, column, t.indexes[i].column);
    }
    let f = |d: VectorIndexView| d.column != column;
    if has_vector_index(t, other) {
        let i = choose|i: int| 0 <= i < t.vector_indexes.len() && (#[trigger] t.vector_indexes[i]).column == other;
        let j = lemma_filter_keeps(t.vector_indexes, f, i);
        assert(n.vector_indexes[j].column == other);
    }
    if has_vector_index(n, other) {
        let j = choose|j: int| 0 <= j < n.vector_indexes.len() && (#[trigger] n.vector_indexes[j]).column == other;
        let i = lemma_filter_from(t.vector_indexes, f, j);
        assert(t.vector_indexes[i].column == other);
    }
    assert forall|j: int| 0 <= j < n.vector_indexes.len() implies has_column(n, (#[trigger] n.vector_indexes[j]).column) by {
        let i = lemma_filter_from(t.vector_indexes, f, j);
        assert(has_column(t, t.vector_indexes[i].column));
        lemma_kept_column(t, n, column, t.vector_indexes[i].column);
    }
    let f = |d: TextIndexView| d.column != column;
    if has_text_index(t, other) {
        let i = choose|i: int| 0 <= i < t.text_indexes.len() && (#[trigger] t.text_indexes[i]).column == other;
        let j = lemma_filter_keeps(t.text_indexes, f, i);
        assert(n.text_indexes[j].column == other);
    }
    if has_text_index(n, other) {
        let j = choose|j: int| 0 <= j < n.text_indexes.len() && (#[trigger] n.text_indexes[j]).column == other;
        let i = lemma_filter_from(t.text_indexes, f, j);
        assert(t.text_indexes[i].column == other);
    }
    assert forall|j: int| 0 <= j < n.text_indexes.len() implies has_column(n, (#[trigger] n.text_indexes[j]).column) by {
        let i = lemma_filter_from(t.text_indexes, f, j);
        assert(has_column(t, t.text_indexes[i].column));
        lemma_kept_column(t, n, column, t.text_indexes[i].column);
    }
}

proof fn lemma_kept_column(t: TableView, n: TableView, column: Seq<char>, other: Seq<char>)
    requires
        n.columns == t.columns.filter(|c: ColumnView| c.name != column),
        other != column,
    ensures
        has_column(n, other) == has_column(t, other),
{
    let f = |c: ColumnView| c.name != column;
    if has_column(t, other) {
        let i = choose|i: int| 0 <= i < t.columns.len() && (#[trigger] t.columns[i]).name == other;
        let j = lemma_filter_keeps(t.columns, f, i);
        assert(n.columns[j].name == other);
    }
    if has_column(n, other) {
        let j = choose|j: int| 0 <= j < n.columns.len() && (#[trigger] n.columns[j]).name == other;
        let i = lemma_filter_from(t.columns, f, j);
        assert(t.columns[i].name == other);
    }
}

// ---- Renaming a table -------------------------------------------------------

/// After a table is renamed, it has the new name and is otherwise as it was, and
/// so is every other table.
pub proof fn lemma_table_is_renamed(tables: Seq<TableView>, k: int, to: Seq<char>)
    requires
        tables_apart(tables),
        0 <= k < tables.len(),
    ensures
        ({
            let after = ddl::applied(RewriteView::RenameTable { from: tables[k].name, to }, tables);
            let t = tables[k];
            let n = after[k];
            &&& after.len() == tables.len()
            &&& forall|i: int| 0 <= i < tables.len() && i != k ==> #[trigger] after[i] == tables[i]
            &&& n.name == to
            &&& n.columns == t.columns && n.indexes == t.indexes && n.vector_indexes == t.vector_indexes
            &&& n.text_indexes == t.text_indexes && n.foreign_keys == t.foreign_keys
            &&& n.epoch == t.epoch && n.implicit_id == t.implicit_id
        }),
{
    lemma_table_place(tables, k);
}

// ---- Adding a column --------------------------------------------------------

/// Beginning to add a column that the table lacks puts it behind the other
/// columns, open to nulls and otherwise as it was asked for, and changes nothing
/// else.
pub proof fn lemma_column_is_added(tables: Seq<TableView>, k: int, c: ColumnView)
    requires
        tables_apart(tables),
        0 <= k < tables.len(),
        !has_column(tables[k], c.name),
    ensures
        ({
            let t = tables[k];
            let after = catalog::with_table(tables, t.name, alter::column_begun(t, c));
            let n = after[k];
            &&& after.len() == tables.len()
            &&& forall|i: int| 0 <= i < tables.len() && i != k ==> #[trigger] after[i] == tables[i]
            &&& n.columns.len() == t.columns.len() + 1
            &&& forall|i: int| 0 <= i < t.columns.len() ==> #[trigger] n.columns[i] == t.columns[i]
            &&& n.columns[t.columns.len() as int] == (ColumnView { nullable: true, ..c })
            &&& n.name == t.name && n.indexes == t.indexes && n.vector_indexes == t.vector_indexes
            &&& n.text_indexes == t.text_indexes && n.foreign_keys == t.foreign_keys
            &&& n.epoch == t.epoch && n.implicit_id == t.implicit_id
        }),
{
    lemma_table_place(tables, k);
    let t = tables[k];
    let names = schema::column_names(t.columns);
    assert forall|j: int| 0 <= j < names.len() implies names[j] != c.name by {
        assert(t.columns[j].name != c.name);
    }
    model::lemma_find_none(names, c.name);
}

/// Finishing to add a column refuses nulls in that column and changes nothing
/// else.
pub proof fn lemma_column_is_closed(tables: Seq<TableView>, k: int, c: int)
    requires
        tables_apart(tables),
        0 <= k < tables.len(),
        columns_apart(tables[k]),
        0 <= c < tables[k].columns.len(),
    ensures
        ({
            let t = tables[k];
            let after = catalog::with_table(tables, t.name, alter::column_closed(t, t.columns[c].name));
            let n = after[k];
            &&& after.len() == tables.len()
            &&& forall|i: int| 0 <= i < tables.len() && i != k ==> #[trigger] after[i] == tables[i]
            &&& n.columns.len() == t.columns.len()
            &&& forall|i: int| 0 <= i < t.columns.len() && i != c ==> #[trigger] n.columns[i] == t.columns[i]
            &&& n.columns[c] == (ColumnView { nullable: false, ..t.columns[c] })
            &&& n.name == t.name && n.indexes == t.indexes && n.vector_indexes == t.vector_indexes
            &&& n.text_indexes == t.text_indexes && n.foreign_keys == t.foreign_keys
            &&& n.epoch == t.epoch && n.implicit_id == t.implicit_id
        }),
{
    lemma_table_place(tables, k);
    let t = tables[k];
    let names = schema::column_names(t.columns);
    model::lemma_find_is(names, t.columns[c].name, c);
}

// ---- What is accepted -------------------------------------------------------

/// The tables have names of their own and at least one column each, whose names
/// differ, and their indexes are on columns that they have.
pub open spec fn tables_sound(tables: Seq<TableView>) -> bool {
    &&& tables_apart(tables)
    &&& forall|i: int| 0 <= i < tables.len() ==> {
        &&& columns_apart(#[trigger] tables[i])
        &&& indexes_on_columns(tables[i])
        &&& tables[i].columns.len() > 0
    }
}

proof fn lemma_has_table(st: &State, name: Seq<char>) -> (k: int)
    requires
        st.table_view(name) is Some,
    ensures
        0 <= k < st.catalog@.len(),
        st.catalog@[k].name == name,
        st.table_view(name) == Some(st.catalog@[k]),
{
    let names = schema::table_names(st.catalog@);
    model::lemma_find(names, name);
    model::find(names, name)->0
}

/// A column is found by its name exactly where the table has one of that name.
pub proof fn lemma_has_column(t: TableView, name: Seq<char>)
    ensures
        has_column(t, name) == (schema::column_of(t.columns, name) is Some),
{
    let names = schema::column_names(t.columns);
    model::lemma_find(names, name);
    if has_column(t, name) {
        let i = choose|i: int| 0 <= i < t.columns.len() && (#[trigger] t.columns[i]).name == name;
        assert(names[i] == name);
        assert(names.contains(name));
    }
    if let Some(i) = model::find(names, name) {
        assert(t.columns[i].name == name);
    }
}

/// Renaming a column is accepted exactly where the database can be written, the
/// table has the column, and the new name is not empty, is not the primary key's
/// and is no column's of the table. The tables are sound after it, the new name
/// is a column of the table and the old one is none.
pub proof fn lemma_rename_column_accepted(st: &State, read_only: bool, k: int, column: Seq<char>, to: Seq<char>)
    requires
        tables_sound(st.catalog@),
        0 <= k < st.catalog@.len(),
        column != to,
    ensures
        ({
            let t = st.catalog@[k];
            let plan = alter::rename_column_plan(st, read_only, t.name, column, to);
            &&& plan is Ok <==> !read_only && has_column(t, column) && !has_column(t, to) && to.len() > 0 && to != schema::id_name()
            &&& plan is Ok ==> plan->Ok_0 is Carry && {
                let rw = alter::rewrite_of(plan->Ok_0->Carry_0);
                &&& rw is Some
                &&& tables_sound(ddl::applied(rw->0, st.catalog@))
                &&& has_column(ddl::applied(rw->0, st.catalog@)[k], to)
                &&& !has_column(ddl::applied(rw->0, st.catalog@)[k], column)
            }
        }),
{
    let tables = st.catalog@;
    let t = tables[k];
    lemma_table_place(tables, k);
    lemma_has_column(t, column);
    lemma_has_column(t, to);
    if alter::rename_column_plan(st, read_only, t.name, column, to) is Ok {
        let after = ddl::applied(RewriteView::RenameColumn { table: t.name, from: column, to }, tables);
        lemma_column_is_renamed(tables, k, column, to);
        lemma_renamed_indexes(tables, k, column, to, column + to + seq!['x']);
        lemma_names_kept(tables, after, k);
    }
}

proof fn lemma_names_kept(tables: Seq<TableView>, after: Seq<TableView>, k: int)
    requires
        tables_sound(tables),
        0 <= k < tables.len() == after.len(),
        forall|i: int| 0 <= i < tables.len() && i != k ==> #[trigger] after[i] == tables[i],
        after[k].name == tables[k].name,
        columns_apart(after[k]),
        indexes_on_columns(after[k]),
        after[k].columns.len() > 0,
    ensures
        tables_sound(after),
{
    assert forall|i: int, j: int| 0 <= i < j < after.len() implies (#[trigger] after[i]).name != (#[trigger] after[j]).name by {
        assert(tables[i].name != tables[j].name);
    }
    assert forall|i: int| 0 <= i < after.len() implies {
        &&& columns_apart(#[trigger] after[i])
        &&& indexes_on_columns(after[i])
        &&& after[i].columns.len() > 0
    } by {
        if i != k {
            assert(after[i] == tables[i]);
        }
    }
}

/// Dropping a column is accepted exactly where the database can be written and
/// the table has the column and another one. The tables are sound after it, and
/// the column is gone.
pub proof fn lemma_drop_column_accepted(st: &State, read_only: bool, k: int, column: Seq<char>)
    requires
        tables_sound(st.catalog@),
        0 <= k < st.catalog@.len(),
    ensures
        ({
            let t = st.catalog@[k];
            let plan = alter::drop_column_plan(st, read_only, t.name, column);
            &&& plan is Ok <==> !read_only && has_column(t, column) && t.columns.len() > 1
            &&& plan is Ok ==> plan->Ok_0 is Carry && {
                let rw = alter::rewrite_of(plan->Ok_0->Carry_0);
                &&& rw is Some
                &&& tables_sound(ddl::applied(rw->0, st.catalog@))
                &&& !has_column(ddl::applied(rw->0, st.catalog@)[k], column)
            }
        }),
{
    let tables = st.catalog@;
    let t = tables[k];
    lemma_table_place(tables, k);
    lemma_has_column(t, column);
    if alter::drop_column_plan(st, read_only, t.name, column) is Ok {
        let after = ddl::applied(RewriteView::DropColumn { table: t.name, column }, tables);
        lemma_column_is_dropped(tables, k, column);
        assert(column.push('x').len() != column.len());
        lemma_dropped_indexes(tables, k, column, column.push('x'));
        let f = |c: ColumnView| c.name != column;
        let i = if t.columns[0].name == column { 1int } else { 0int };
        assert(f(t.columns[i]));
        let _ = lemma_filter_keeps(t.columns, f, i);
        lemma_filter_apart(t.columns, f);
        lemma_names_kept(tables, after, k);
    }
}

proof fn lemma_filter_apart(s: Seq<ColumnView>, f: spec_fn(ColumnView) -> bool)
    requires
        forall|i: int, j: int| 0 <= i < j < s.len() ==> (#[trigger] s[i]).name != (#[trigger] s[j]).name,
    ensures
        forall|i: int, j: int| 0 <= i < j < s.filter(f).len() ==> (#[trigger] s.filter(f)[i]).name != (#[trigger] s.filter(f)[j]).name,
    decreases s.len(),
{
    reveal(Seq::filter);
    if s.len() > 0 {
        let t = s.drop_last();
        assert forall|i: int, j: int| 0 <= i < j < t.len() implies (#[trigger] t[i]).name != (#[trigger] t[j]).name by {
            assert(s[i].name != s[j].name);
        }
        lemma_filter_apart(t, f);
        let out = s.filter(f);
        assert forall|i: int, j: int| 0 <= i < j < out.len() implies (#[trigger] out[i]).name != (#[trigger] out[j]).name by {
            if j >= t.filter(f).len() {
                let a = lemma_filter_from(t, f, i);
                assert(s[a].name != s[s.len() - 1].name);
            }
        }
    }
}

/// Renaming a table to another name is accepted exactly where the database can
/// be written and the new name is not empty and is no table's. The tables are
/// sound after it.
pub proof fn lemma_rename_table_accepted(st: &State, read_only: bool, k: int, to: Seq<char>)
    requires
        tables_sound(st.catalog@),
        0 <= k < st.catalog@.len(),
        st.catalog@[k].name != to,
    ensures
        ({
            let t = st.catalog@[k];
            let plan = alter::rename_table_plan(st, read_only, t.name, to);
            &&& plan is Ok <==> !read_only && to.len() > 0 && forall|i: int| 0 <= i < st.catalog@.len() ==> (#[trigger] st.catalog@[i]).name != to
            &&& plan is Ok ==> plan->Ok_0 is Carry && {
                let rw = alter::rewrite_of(plan->Ok_0->Carry_0);
                &&& rw is Some
                &&& tables_sound(ddl::applied(rw->0, st.catalog@))
                &&& ddl::applied(rw->0, st.catalog@)[k].name == to
            }
        }),
{
    let tables = st.catalog@;
    let names = schema::table_names(tables);
    lemma_table_place(tables, k);
    model::lemma_find(names, to);
    assert forall|i: int| 0 <= i < tables.len() && st.table_view(to) is None implies (#[trigger] tables[i]).name != to by {
        assert(names[i] == tables[i].name);
        if names[i] == to {
            assert(names.contains(to));
        }
    }
    if st.table_view(to) is Some {
        let i = lemma_has_table(st, to);
        assert(tables[i].name == to);
    }
    if alter::rename_table_plan(st, read_only, tables[k].name, to) is Ok {
        lemma_table_is_renamed(tables, k, to);
        let after = ddl::applied(RewriteView::RenameTable { from: tables[k].name, to }, tables);
        assert forall|i: int, j: int| 0 <= i < j < after.len() implies (#[trigger] after[i]).name != (#[trigger] after[j]).name by {
            assert(tables[i].name != tables[j].name);
            assert(tables[i].name != to && tables[j].name != to);
        }
        assert forall|i: int| 0 <= i < after.len() implies {
            &&& columns_apart(#[trigger] after[i])
            &&& indexes_on_columns(after[i])
            &&& after[i].columns.len() > 0
        } by {
            let t = tables[i];
            assert(columns_apart(t) && indexes_on_columns(t));
            assert forall|x: int| 0 <= x < after[i].indexes.len() implies has_column(after[i], (#[trigger] after[i].indexes[x]).column) by {
                lemma_same_columns(t, after[i], t.indexes[x].column);
            }
            assert forall|x: int| 0 <= x < after[i].vector_indexes.len() implies has_column(after[i], (#[trigger] after[i].vector_indexes[x]).column) by {
                lemma_same_columns(t, after[i], t.vector_indexes[x].column);
            }
            assert forall|x: int| 0 <= x < after[i].text_indexes.len() implies has_column(after[i], (#[trigger] after[i].text_indexes[x]).column) by {
                lemma_same_columns(t, after[i], t.text_indexes[x].column);
            }
        }
    }
}

proof fn lemma_same_columns(t: TableView, n: TableView, name: Seq<char>)
    requires
        n.columns == t.columns,
    ensures
        has_column(n, name) == has_column(t, name),
{
}

// ---- Stored records ---------------------------------------------------------

/// Renaming a column renames the field of that column in every record of the
/// table and keeps every value, byte for byte and in its place; the records of
/// other tables are as they were.
pub proof fn lemma_record_renamed(table: Seq<char>, from: Seq<char>, to: Seq<char>, p: Seq<u8>, other: Seq<char>)
    requires
        payload::fields_of(p) is Ok,
        encode_utf8(to).len() <= u16::MAX,
        other != table,
    ensures
        ({
            let rw = RewriteView::RenameColumn { table, from, to };
            let fields = payload::fields_of(p)->Ok_0;
            let q = payload::transformed(rw, table, p);
            &&& payload::transformed(rw, other, p) == Ok::<Seq<u8>, Seq<char>>(p)
            &&& q is Ok && payload::fields_of(q->Ok_0) is Ok && {
                let out = payload::fields_of(q->Ok_0)->Ok_0;
                &&& out.len() == fields.len()
                &&& forall|i: int| 0 <= i < fields.len() ==> (#[trigger] out[i]).1 == fields[i].1 && out[i].0 == (if fields[i].0
                    == encode_utf8(from) {
                    encode_utf8(to)
                } else {
                    fields[i].0
                })
            }
        }),
{
    let fields = payload::fields_of(p)->Ok_0;
    let (a, b) = (encode_utf8(from), encode_utf8(to));
    let out = payload::rewritten(fields, Some((a, b)), None);
    payload::lemma_fields_renamed(fields, a, b);
    lemma_fields_whole(p);
    encode_utf8_valid_utf8(to);
    assert forall|i: int| 0 <= i < out.len() implies payload::whole_field(#[trigger] out[i]) by {
        assert(payload::whole_field(fields[i]));
    }
    payload::lemma_payload_round_trip(out);
}

proof fn lemma_fields_count(buf: Seq<u8>, pos: int, count: nat)
    ensures
        payload::fields_from(buf, pos, count) matches Ok(fields) ==> fields.len() == count,
    decreases count,
{
    if count > 0 {
        if let Ok((_, at)) = payload::text_name_at(buf, pos) {
            if let Ok(end) = value::field_end(buf, at) {
                lemma_fields_count(buf, end, (count - 1) as nat);
            }
        }
    }
}

proof fn lemma_fields_whole(p: Seq<u8>)
    requires
        payload::fields_of(p) is Ok,
    ensures
        ({
            let fields = payload::fields_of(p)->Ok_0;
            &&& fields.len() <= u16::MAX
            &&& forall|i: int| 0 <= i < fields.len() ==> payload::whole_field(#[trigger] fields[i])
        }),
{
    let fields = payload::fields_of(p)->Ok_0;
    crate::bytes::lemma_radix_small();
    crate::bytes::lemma_le_value_bound(p.subrange(0, 2));
    plain_laws::lemma_whole_fields(p, 2, payload::count_of(p)->Ok_0, fields);
    lemma_fields_count(p, 2, payload::count_of(p)->Ok_0);
}

/// Dropping a column takes its field out of every record of the table and keeps
/// every other field, byte for byte and in order; the records of other tables are
/// as they were.
pub proof fn lemma_record_dropped(table: Seq<char>, column: Seq<char>, p: Seq<u8>, other: Seq<char>)
    requires
        payload::fields_of(p) is Ok,
        other != table,
    ensures
        ({
            let rw = RewriteView::DropColumn { table, column };
            let fields = payload::fields_of(p)->Ok_0;
            let q = payload::transformed(rw, table, p);
            &&& payload::transformed(rw, other, p) == Ok::<Seq<u8>, Seq<char>>(p)
            &&& q is Ok && payload::fields_of(q->Ok_0) == Ok::<Seq<RawField>, Seq<char>>(
                fields.filter(|f: RawField| f.0 != encode_utf8(column)),
            )
        }),
{
    let fields = payload::fields_of(p)->Ok_0;
    let name = encode_utf8(column);
    let f = |f: RawField| f.0 != name;
    lemma_rewritten_filter(fields, name);
    lemma_fields_whole(p);
    let out = fields.filter(f);
    assert forall|i: int| 0 <= i < out.len() implies payload::whole_field(#[trigger] out[i]) by {
        let j = lemma_filter_from(fields, f, i);
        assert(payload::whole_field(fields[j]));
    }
    payload::lemma_payload_round_trip(out);
}

proof fn lemma_rewritten_filter(fields: Seq<RawField>, name: Seq<u8>)
    ensures
        payload::rewritten(fields, None, Some(name)) == fields.filter(|f: RawField| f.0 != name),
        fields.filter(|f: RawField| f.0 != name).len() <= fields.len(),
    decreases fields.len(),
{
    reveal(Seq::filter);
    if fields.len() > 0 {
        lemma_rewritten_filter(fields.drop_last(), name);
    }
}

/// Renaming a table rewrites its records under the new name and those of other
/// tables under their own, and leaves their bytes as they were.
pub proof fn lemma_records_moved(from: Seq<char>, to: Seq<char>, p: Seq<u8>, other: Seq<char>)
    requires
        other != from,
    ensures
        ({
            let rw = RewriteView::RenameTable { from, to };
            &&& ddl::output_name(rw, from) == to
            &&& ddl::output_name(rw, other) == other
            &&& payload::transformed(rw, from, p) == Ok::<Seq<u8>, Seq<char>>(p)
            &&& payload::transformed(rw, other, p) == Ok::<Seq<u8>, Seq<char>>(p)
        }),
{
}

} // verus!
