//! Schema changes that also touch data: the pending-operation record and the
//! catalog half of each change.
//!
//! Renaming a table or a column, dropping a column and backfilling a new
//! column's default are two-part operations: rewrite the data, then publish the
//! new catalog. The operation first records what it is about to do; opening the
//! database replays a pending record to completion. Every step is idempotent,
//! so replaying a step that already ran changes nothing.

use crate::bytes::same_text;
use crate::model;
use crate::order::Datum;
use crate::schema::{
    Catalog, Column, ColumnView, IndexDef, IndexView, TableSchema, TableView, TextIndexDef, TextIndexView, VectorIndexDef,
    VectorIndexView,
};
use crate::schema;
use vstd::prelude::*;
use vstd::string::*;

verus! {

/// A schema change that was started and may not have finished.
#[derive(Debug)]
#[allow(inconsistent_fields)]
pub enum DdlIntent {
    RenameTable { table: String, to: String },
    RenameColumn { table: String, column: String, to: String },
    DropColumn { table: String, column: String },
    AddColumn {
        table: String,
        column: Column,
        /// Nulls are refused only after every record has been backfilled.
        not_null: bool,
    },
}

impl DdlIntent {
    /// The statement that the change came from.
    pub open spec fn statement(self) -> Seq<char> {
        match self {
            DdlIntent::RenameTable { table, to } => "ALTER TABLE "@ + table@ + " RENAME TO "@ + to@,
            DdlIntent::RenameColumn { table, column, to } => "ALTER TABLE "@ + table@ + " RENAME COLUMN "@ + column@ + " TO "@
                + to@,
            DdlIntent::DropColumn { table, column } => "ALTER TABLE "@ + table@ + " DROP COLUMN "@ + column@,
            DdlIntent::AddColumn { table, column, .. } => "ALTER TABLE "@ + table@ + " ADD COLUMN "@ + column.name@,
        }
    }

    pub fn describe(&self) -> (r: String)
        ensures
            r@ == self.statement(),
    {
        match self {
            DdlIntent::RenameTable { table, to } => "ALTER TABLE ".to_owned().concat(table.as_str()).concat(
                " RENAME TO ",
            ).concat(to.as_str()),
            DdlIntent::RenameColumn { table, column, to } => "ALTER TABLE ".to_owned().concat(table.as_str()).concat(
                " RENAME COLUMN ",
            ).concat(column.as_str()).concat(" TO ").concat(to.as_str()),
            DdlIntent::DropColumn { table, column } => "ALTER TABLE ".to_owned().concat(table.as_str()).concat(
                " DROP COLUMN ",
            ).concat(column.as_str()),
            DdlIntent::AddColumn { table, column, .. } => "ALTER TABLE ".to_owned().concat(table.as_str()).concat(
                " ADD COLUMN ",
            ).concat(column.name.as_str()),
        }
    }
}

/// A transform applied while every segment is rewritten. `Plain` is a plain
/// compaction; the others carry a schema change through both the data and the
/// catalog in one pass.
#[derive(Debug, Clone, Copy)]
pub enum Rewrite<'a> {
    Plain,
    RenameTable { from: &'a str, to: &'a str },
    RenameColumn { table: &'a str, from: &'a str, to: &'a str },
    DropColumn { table: &'a str, column: &'a str },
}

/// Something that has a name, or follows a column of a table.
pub trait Labeled: Datum {
    spec fn label_of(v: Self::V) -> Seq<char>;

    spec fn relabeled(v: Self::V, to: Seq<char>) -> Self::V;

    fn label(&self) -> (r: &str)
        ensures
            r@ == Self::label_of(self@),
    ;

    fn relabel(&mut self, to: &str)
        ensures
            final(self)@ == Self::relabeled(old(self)@, to@),
    ;
}

impl Labeled for Column {
    open spec fn label_of(v: ColumnView) -> Seq<char> {
        v.name
    }

    open spec fn relabeled(v: ColumnView, to: Seq<char>) -> ColumnView {
        ColumnView { name: to, ..v }
    }

    fn label(&self) -> (r: &str) {
        self.name.as_str()
    }

    fn relabel(&mut self, to: &str) {
        self.name = to.to_owned();
    }
}

impl Labeled for IndexDef {
    open spec fn label_of(v: IndexView) -> Seq<char> {
        v.column
    }

    open spec fn relabeled(v: IndexView, to: Seq<char>) -> IndexView {
        IndexView { column: to, ..v }
    }

    fn label(&self) -> (r: &str) {
        self.column.as_str()
    }

    fn relabel(&mut self, to: &str) {
        self.column = to.to_owned();
    }
}

impl Labeled for VectorIndexDef {
    open spec fn label_of(v: VectorIndexView) -> Seq<char> {
        v.column
    }

    open spec fn relabeled(v: VectorIndexView, to: Seq<char>) -> VectorIndexView {
        VectorIndexView { column: to, ..v }
    }

    fn label(&self) -> (r: &str) {
        self.column.as_str()
    }

    fn relabel(&mut self, to: &str) {
        self.column = to.to_owned();
    }
}

impl Labeled for TextIndexDef {
    open spec fn label_of(v: TextIndexView) -> Seq<char> {
        v.column
    }

    open spec fn relabeled(v: TextIndexView, to: Seq<char>) -> TextIndexView {
        TextIndexView { column: to }
    }

    fn label(&self) -> (r: &str) {
        self.column.as_str()
    }

    fn relabel(&mut self, to: &str) {
        self.column = to.to_owned();
    }
}

impl Labeled for TableSchema {
    open spec fn label_of(v: TableView) -> Seq<char> {
        v.name
    }

    open spec fn relabeled(v: TableView, to: Seq<char>) -> TableView {
        TableView { name: to, ..v }
    }

    fn label(&self) -> (r: &str) {
        self.name.as_str()
    }

    fn relabel(&mut self, to: &str) {
        self.name = to.to_owned();
    }
}

/// Whether an element follows `name`.
pub open spec fn has_label<T: Labeled>(s: Seq<T::V>, name: Seq<char>) -> bool {
    exists|i: int| 0 <= i < s.len() && T::label_of(#[trigger] s[i]) == name
}

pub fn any_labeled<T: Labeled>(v: &Vec<T>, name: &str) -> (r: bool)
    ensures
        r == has_label::<T>(model::views(v@), name@),
{
    let ghost s = model::views(v@);
    let mut i: usize = 0;
    while i < v.len()
        invariant
            i <= v@.len(),
            s == model::views(v@),
            forall|j: int| 0 <= j < i ==> T::label_of(#[trigger] s[j]) != name@,
        decreases v@.len() - i,
    {
        assert(s[i as int] == v@[i as int]@);
        if same_text(v[i].label(), name) {
            return true;
        }
        i = i + 1;
    }
    false
}

/// Every element that follows `from` follows `to` instead.
pub open spec fn relabel_all<T: Labeled>(s: Seq<T::V>, from: Seq<char>, to: Seq<char>) -> Seq<T::V> {
    Seq::new(
        s.len(),
        |i: int|
            if T::label_of(s[i]) == from {
                T::relabeled(s[i], to)
            } else {
                s[i]
            },
    )
}

pub open spec fn follows_other<T: Labeled>(name: Seq<char>) -> spec_fn(T::V) -> bool {
    |v: T::V| T::label_of(v) != name
}

/// The elements that do not follow `name`.
pub open spec fn drop_labeled<T: Labeled>(s: Seq<T::V>, name: Seq<char>) -> Seq<T::V> {
    s.filter(follows_other::<T>(name))
}

fn relabel_each<T: Labeled>(v: &mut Vec<T>, from: &str, to: &str)
    ensures
        model::views(final(v)@) == relabel_all::<T>(model::views(old(v)@), from@, to@),
{
    let ghost before = model::views(v@);
    let mut i: usize = 0;
    while i < v.len()
        invariant
            i <= v@.len() == before.len(),
            forall|j: int| 0 <= j < i ==> (#[trigger] v@[j])@ == relabel_all::<T>(before, from@, to@)[j],
            forall|j: int| i <= j < v@.len() ==> (#[trigger] v@[j])@ == before[j],
        decreases v@.len() - i,
    {
        if same_text(v[i].label(), from) {
            let item = &mut v[i];
            item.relabel(to);
        }
        i = i + 1;
    }
    assert(model::views(v@) =~= relabel_all::<T>(before, from@, to@));
}

pub fn drop_each<T: Labeled>(v: &Vec<T>, name: &str) -> (r: Vec<T>)
    ensures
        model::views(r@) == drop_labeled::<T>(model::views(v@), name@),
{
    let ghost all = model::views(v@);
    let ghost f = follows_other::<T>(name@);
    let mut out: Vec<T> = Vec::new();
    let mut i: usize = 0;
    proof {
        reveal(Seq::filter);
        assert(model::views(out@) =~= all.subrange(0, 0).filter(f));
    }
    while i < v.len()
        invariant
            i <= v@.len(),
            all == model::views(v@),
            f == follows_other::<T>(name@),
            model::views(out@) == all.subrange(0, i as int).filter(f),
        decreases v@.len() - i,
    {
        let ghost kept = model::views(out@);
        proof {
            reveal(Seq::filter);
            let s = all.subrange(0, i + 1);
            assert(s.drop_last() =~= all.subrange(0, i as int));
            assert(s.last() == v@[i as int]@);
        }
        if !same_text(v[i].label(), name) {
            out.push(v[i].duplicate());
            assert(model::views(out@) =~= kept.push(v@[i as int]@));
        }
        i = i + 1;
    }
    assert(all.subrange(0, i as int) =~= all);
    out
}

/// A rewrite with its names as character sequences.
#[verifier::ext_equal]
pub enum RewriteView {
    Plain,
    RenameTable { from: Seq<char>, to: Seq<char> },
    RenameColumn { table: Seq<char>, from: Seq<char>, to: Seq<char> },
    DropColumn { table: Seq<char>, column: Seq<char> },
}

impl<'a> View for Rewrite<'a> {
    type V = RewriteView;

    open spec fn view(&self) -> RewriteView {
        match self {
            Rewrite::Plain => RewriteView::Plain,
            Rewrite::RenameTable { from, to } => RewriteView::RenameTable { from: from@, to: to@ },
            Rewrite::RenameColumn { table, from, to } => RewriteView::RenameColumn { table: table@, from: from@, to: to@ },
            Rewrite::DropColumn { table, column } => RewriteView::DropColumn { table: table@, column: column@ },
        }
    }
}

/// The table with its first column `from`, and every index on `from`, under `to`.
pub open spec fn column_renamed(t: TableView, from: Seq<char>, to: Seq<char>) -> TableView {
    TableView {
        columns: match model::find(schema::column_names(t.columns), from) {
            Some(i) => t.columns.update(i, ColumnView { name: to, ..t.columns[i] }),
            None => t.columns,
        },
        indexes: relabel_all::<IndexDef>(t.indexes, from, to),
        vector_indexes: relabel_all::<VectorIndexDef>(t.vector_indexes, from, to),
        text_indexes: relabel_all::<TextIndexDef>(t.text_indexes, from, to),
        ..t
    }
}

/// The table without a column and without the indexes on it.
pub open spec fn column_dropped(t: TableView, column: Seq<char>) -> TableView {
    TableView {
        columns: drop_labeled::<Column>(t.columns, column),
        indexes: drop_labeled::<IndexDef>(t.indexes, column),
        vector_indexes: drop_labeled::<VectorIndexDef>(t.vector_indexes, column),
        text_indexes: drop_labeled::<TextIndexDef>(t.text_indexes, column),
        ..t
    }
}

/// What a rewrite makes of a catalog.
pub open spec fn applied(rw: RewriteView, tables: Seq<TableView>) -> Seq<TableView> {
    match rw {
        RewriteView::Plain => tables,
        RewriteView::RenameTable { from, to } => match model::find(schema::table_names(tables), from) {
            Some(i) => tables.update(i, TableView { name: to, ..tables[i] }),
            None => tables,
        },
        RewriteView::RenameColumn { table, from, to } => match model::find(schema::table_names(tables), table) {
            Some(i) => tables.update(i, column_renamed(tables[i], from, to)),
            None => tables,
        },
        RewriteView::DropColumn { table, column } => match model::find(schema::table_names(tables), table) {
            Some(i) => tables.update(i, column_dropped(tables[i], column)),
            None => tables,
        },
    }
}

/// The name that a table's entries are written under after a rewrite.
pub open spec fn output_name(rw: RewriteView, table: Seq<char>) -> Seq<char> {
    match rw {
        RewriteView::RenameTable { from, to } => if from == table {
            to
        } else {
            table
        },
        _ => table,
    }
}

impl<'a> Rewrite<'a> {
    pub fn is_ddl(&self) -> (r: bool)
        ensures
            r == !(self@ is Plain),
    {
        match self {
            Rewrite::Plain => false,
            _ => true,
        }
    }

    /// The name that a table's entries are written under after the transform.
    pub fn output_table(&self, table: &str) -> (r: String)
        ensures
            r@ == output_name(self@, table@),
    {
        match *self {
            Rewrite::RenameTable { from, to } => {
                if same_text(from, table) {
                    to.to_owned()
                } else {
                    table.to_owned()
                }
            },
            _ => table.to_owned(),
        }
    }

    /// Apply the catalog half of the transform.
    pub fn apply_to_catalog(&self, catalog: &mut Catalog)
        ensures
            final(catalog)@ == applied(self@, old(catalog)@),
    {
        let ghost before = catalog@;
        match *self {
            Rewrite::Plain => {},
            Rewrite::RenameTable { from, to } => {
                match catalog.table_position(from) {
                    Some(i) => {
                        let t = &mut catalog.tables[i];
                        t.name = to.to_owned();
                    },
                    None => {},
                }
            },
            Rewrite::RenameColumn { table, from, to } => {
                match catalog.table_position(table) {
                    Some(i) => {
                        let t = &mut catalog.tables[i];
                        rename_column(t, from, to);
                    },
                    None => {},
                }
            },
            Rewrite::DropColumn { table, column } => {
                match catalog.table_position(table) {
                    Some(i) => {
                        let t = &mut catalog.tables[i];
                        drop_column(t, column);
                    },
                    None => {},
                }
            },
        }
        assert(catalog@ =~= applied(self@, before));
    }
}

fn rename_column(t: &mut TableSchema, from: &str, to: &str)
    ensures
        final(t)@ == column_renamed(old(t)@, from@, to@),
{
    let ghost before = t@;
    match t.column_position(from) {
        Some(j) => {
            let c = &mut t.columns[j];
            c.name = to.to_owned();
        },
        None => {},
    }
    relabel_each(&mut t.indexes, from, to);
    relabel_each(&mut t.vector_indexes, from, to);
    relabel_each(&mut t.text_indexes, from, to);
    assert(t@.columns =~= column_renamed(before, from@, to@).columns);
}

fn drop_column(t: &mut TableSchema, column: &str)
    ensures
        final(t)@ == column_dropped(old(t)@, column@),
{
    let columns = drop_each(&t.columns, column);
    let indexes = drop_each(&t.indexes, column);
    let vector_indexes = drop_each(&t.vector_indexes, column);
    let text_indexes = drop_each(&t.text_indexes, column);
    t.columns = columns;
    t.indexes = indexes;
    t.vector_indexes = vector_indexes;
    t.text_indexes = text_indexes;
}

// ---- Laws -------------------------------------------------------------------

proof fn lemma_relabel_twice<T: Labeled>(s: Seq<T::V>, from: Seq<char>, to: Seq<char>)
    requires
        forall|v: T::V, n: Seq<char>| #[trigger] T::label_of(T::relabeled(v, n)) == n,
        forall|v: T::V, n: Seq<char>| #[trigger] T::relabeled(T::relabeled(v, n), n) == T::relabeled(v, n),
    ensures
        relabel_all::<T>(relabel_all::<T>(s, from, to), from, to) == relabel_all::<T>(s, from, to),
{
    let once = relabel_all::<T>(s, from, to);
    let twice = relabel_all::<T>(once, from, to);
    assert forall|i: int| 0 <= i < s.len() implies twice[i] == once[i] by {
        if T::label_of(s[i]) == from {
            assert(T::label_of(T::relabeled(s[i], to)) == to);
            assert(T::relabeled(T::relabeled(s[i], to), to) == T::relabeled(s[i], to));
        }
    }
    assert(twice =~= once);
}

pub proof fn lemma_filter_twice<X>(s: Seq<X>, f: spec_fn(X) -> bool)
    ensures
        s.filter(f).filter(f) == s.filter(f),
        forall|i: int| 0 <= i < s.filter(f).len() ==> f(#[trigger] s.filter(f)[i]),
    decreases s.len(),
{
    reveal(Seq::filter);
    if s.len() > 0 {
        let t = s.drop_last();
        lemma_filter_twice(t, f);
        if f(s.last()) {
            let kept = t.filter(f);
            assert(kept.push(s.last()).drop_last() =~= kept);
        }
    }
}

/// Applying a rewrite to a catalog that it was already applied to changes
/// nothing, where no two tables and no two columns of a table share a name.
pub proof fn lemma_applied_twice(rw: RewriteView, tables: Seq<TableView>)
    requires
        model::distinct(schema::table_names(tables)),
        forall|i: int| 0 <= i < tables.len() ==> model::distinct(schema::column_names((#[trigger] tables[i]).columns)),
    ensures
        applied(rw, applied(rw, tables)) == applied(rw, tables),
{
    let names = schema::table_names(tables);
    let once = applied(rw, tables);
    let again = schema::table_names(once);
    match rw {
        RewriteView::Plain => {},
        RewriteView::RenameTable { from, to } => {
            model::lemma_find(names, from);
            match model::find(names, from) {
                Some(i) => {
                    if from == to {
                        assert(again =~= names);
                        assert(once[i].name == from);
                        assert(once =~= once.update(i, TableView { name: to, ..once[i] }));
                    } else {
                        assert forall|j: int| 0 <= j < again.len() implies again[j] != from by {
                            if j < i {
                                assert(names[j] != from);
                            } else if j > i {
                                assert(names[i] != names[j]);
                            }
                        }
                        model::lemma_find_none(again, from);
                    }
                },
                None => {},
            }
        },
        RewriteView::RenameColumn { table, from, to } => {
            model::lemma_find(names, table);
            match model::find(names, table) {
                Some(i) => {
                    assert(again =~= names);
                    lemma_column_renamed_twice(tables[i], from, to);
                    assert(once[i] == column_renamed(tables[i], from, to));
                    assert(applied(rw, once) =~= once);
                },
                None => {},
            }
        },
        RewriteView::DropColumn { table, column } => {
            model::lemma_find(names, table);
            match model::find(names, table) {
                Some(i) => {
                    assert(again =~= names);
                    let t = tables[i];
                    lemma_filter_twice(t.columns, follows_other::<Column>(column));
                    lemma_filter_twice(t.indexes, follows_other::<IndexDef>(column));
                    lemma_filter_twice(t.vector_indexes, follows_other::<VectorIndexDef>(column));
                    lemma_filter_twice(t.text_indexes, follows_other::<TextIndexDef>(column));
                    assert(once[i] == column_dropped(t, column));
                    assert(applied(rw, once) =~= once);
                },
                None => {},
            }
        },
    }
}

proof fn lemma_column_renamed_twice(t: TableView, from: Seq<char>, to: Seq<char>)
    requires
        model::distinct(schema::column_names(t.columns)),
    ensures
        column_renamed(column_renamed(t, from, to), from, to) == column_renamed(t, from, to),
{
    let names = schema::column_names(t.columns);
    let once = column_renamed(t, from, to);
    let twice = column_renamed(once, from, to);
    let again = schema::column_names(once.columns);
    lemma_relabel_twice::<IndexDef>(t.indexes, from, to);
    lemma_relabel_twice::<VectorIndexDef>(t.vector_indexes, from, to);
    lemma_relabel_twice::<TextIndexDef>(t.text_indexes, from, to);
    model::lemma_find(names, from);
    match model::find(names, from) {
        Some(i) => {
            if from == to {
                assert(again =~= names);
                assert(twice.columns =~= once.columns);
            } else {
                assert forall|j: int| 0 <= j < again.len() implies again[j] != from by {
                    if j < i {
                        assert(names[j] != from);
                    } else if j > i {
                        assert(names[i] != names[j]);
                    }
                }
                model::lemma_find_none(again, from);
            }
        },
        None => {},
    }
    assert(twice.columns =~= once.columns);
}

} // verus!
