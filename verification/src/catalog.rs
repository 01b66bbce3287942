//! Creating and dropping tables and indexes.

use crate::bytes::{self, same_text};
use crate::cow::CowMap;
use crate::ddl::{self, any_labeled, drop_each};
use crate::derived::{self, write_secondary_from_canonical, DERIVED_BASE_LEVEL};
use crate::error::{invalid, table_not_found, Error, ErrorView};
use crate::model;
use crate::order::Datum;
use crate::paged::{self, PagedIndex};
use crate::primary::{Run, RunMeta, RunMetaView};
use crate::record;
use crate::schema::{self, Catalog, IndexDef, IndexView, TableSchema, TableView, TextIndexDef, TextIndexView, VectorIndexDef, VectorIndexView};
use crate::secondary::{self, secondary_pair_parts, PairChange, SecIdx};
use crate::state::{self, SecSlot, State};
use crate::value::ColumnType;
use crate::version;
use crate::visit::{self, Group, GroupView};
use std::sync::Arc;
use vstd::prelude::*;
use vstd::string::*;
use vstd::utf8::*;

verus! {

// ---- The indexes of columns -------------------------------------------------

/// An index that holds nothing.
pub open spec fn is_fresh(slot: SecSlot, table: Seq<char>, column: Seq<char>) -> bool {
    &&& slot.table@ == table
    &&& slot.column@ == column
    &&& slot.index.wf()
    &&& slot.index.generation == 0
    &&& slot.index.runs@.len() == 0
    &&& slot.index.overlay@ == Map::<Seq<u8>, PairChange>::empty()
}

/// `after` has `slot` as the index of its column, and is `before` otherwise.
pub open spec fn slot_put(before: Seq<SecSlot>, slot: SecSlot, after: Seq<SecSlot>) -> bool {
    match state::slot_of(before, slot.table@, slot.column@) {
        Some(i) => after == before.update(i, slot),
        None => after == before.push(slot),
    }
}

proof fn lemma_slot_put(before: Seq<SecSlot>, slot: SecSlot, after: Seq<SecSlot>)
    requires
        slot_put(before, slot, after),
        state::slots_distinct(before),
        slot.index.wf(),
        forall|i: int| 0 <= i < before.len() ==> (#[trigger] before[i]).index.wf(),
    ensures
        state::slots_distinct(after),
        forall|i: int| 0 <= i < after.len() ==> (#[trigger] after[i]).index.wf(),
{
    state::lemma_slot_of(before, slot.table@, slot.column@);
    match state::slot_of(before, slot.table@, slot.column@) {
        Some(k) => {
            assert forall|i: int, j: int| 0 <= i < j < after.len() implies (#[trigger] after[i]).table@ != (#[trigger] after[j]).table@
                || after[i].column@ != after[j].column@ by {
                assert(before[i].table@ != before[j].table@ || before[i].column@ != before[j].column@);
            }
            assert forall|i: int| 0 <= i < after.len() implies (#[trigger] after[i]).index.wf() by {
                if i != k {
                    assert(after[i] == before[i]);
                }
            }
        },
        None => {
            assert forall|i: int, j: int| 0 <= i < j < after.len() implies (#[trigger] after[i]).table@ != (#[trigger] after[j]).table@
                || after[i].column@ != after[j].column@ by {
                assert(after[i] == before[i]);
                if j < before.len() {
                    assert(after[j] == before[j]);
                }
            }
            assert forall|i: int| 0 <= i < after.len() implies (#[trigger] after[i]).index.wf() by {
                if i < before.len() {
                    assert(after[i] == before[i]);
                }
            }
        },
    }
}

impl State {
    /// Everything but the equality indexes and the catalog is as it was.
    pub open spec fn keeps_records(&self, before: &State) -> bool {
        &&& self.committed_version == before.committed_version
        &&& self.index == before.index
        &&& self.high_ids == before.high_ids
        &&& self.superseded == before.superseded
        &&& self.identities == before.identities
        &&& self.segments == before.segments
        &&& self.metas == before.metas
        &&& self.next_segment_id == before.next_segment_id
        &&& self.blobs == before.blobs
    }

    fn put_slot(&mut self, slot: SecSlot)
        requires
            old(self).wf(),
            slot.index.wf(),
        ensures
            final(self).wf(),
            final(self).keeps_records(old(self)),
            final(self).catalog == old(self).catalog,
            slot_put(old(self).secondary@, slot, final(self).secondary@),
    {
        let ghost before = self.secondary@;
        proof {
            state::lemma_slot_of(before, slot.table@, slot.column@);
        }
        match self.slot(slot.table.as_str(), slot.column.as_str()) {
            Some(i) => {
                self.secondary.set(i, slot);
            },
            None => {
                self.secondary.push(slot);
            },
        }
        proof {
            lemma_slot_put(before, slot, self.secondary@);
        }
    }
}

// ---- Creating a table -------------------------------------------------------

/// The leading indexes, from the `i`th on, whose columns are there: where the
/// first one stands whose column is not.
pub open spec fn sound_until(t: TableView, i: int) -> int
    decreases t.indexes.len() - i,
{
    if i < t.indexes.len() && schema::column_of(t.columns, t.indexes[i].column) is Some {
        sound_until(t, i + 1)
    } else {
        i
    }
}

pub open spec fn has_column_of(t: TableView, column: Seq<char>, ty: ColumnType) -> bool {
    schema::column_of(t.columns, column) matches Some(c) && c.ty == ty
}

/// The first of a list of columns, from the `i`th on, that is not of a type.
pub open spec fn first_other(t: TableView, columns: Seq<Seq<char>>, ty: ColumnType, i: int) -> Option<int>
    decreases columns.len() - i,
{
    if i >= columns.len() {
        None
    } else if has_column_of(t, columns[i], ty) {
        first_other(t, columns, ty, i + 1)
    } else {
        Some(i)
    }
}

pub open spec fn vector_columns(t: TableView) -> Seq<Seq<char>> {
    Seq::new(t.vector_indexes.len(), |i: int| t.vector_indexes[i].column)
}

pub open spec fn text_columns(t: TableView) -> Seq<Seq<char>> {
    Seq::new(t.text_indexes.len(), |i: int| t.text_indexes[i].column)
}

/// Why a table cannot be created.
pub open spec fn table_complaint(st: &State, read_only: bool, sound: Option<ErrorView>, t: TableView) -> Option<ErrorView> {
    if read_only {
        Some(ErrorView::ReadOnly)
    } else if sound is Some {
        sound
    } else if st.table_view(t.name) is Some {
        Some(ErrorView::TableExists(t.name))
    } else if sound_until(t, 0) < t.indexes.len() {
        Some(ErrorView::SchemaViolation("index over unknown column '"@ + t.indexes[sound_until(t, 0)].column + "'"@))
    } else {
        match first_other(t, vector_columns(t), ColumnType::Vector, 0) {
            Some(i) => Some(ErrorView::SchemaViolation("vector index over non-vector column '"@ + vector_columns(t)[i] + "'"@)),
            None => match first_other(t, text_columns(t), ColumnType::Text, 0) {
                Some(i) => Some(ErrorView::SchemaViolation("text index over non-text column '"@ + text_columns(t)[i] + "'"@)),
                None => None,
            },
        }
    }
}

/// `after` has empty indexes for the first definitions of a table.
pub open spec fn slots_begun(before: Seq<SecSlot>, t: TableView, n: int, after: Seq<SecSlot>) -> bool
    decreases n,
{
    if n <= 0 {
        after == before
    } else {
        exists|mid: Seq<SecSlot>, slot: SecSlot|
            slots_begun(before, t, n - 1, mid) && #[trigger] slot_put(mid, slot, after) && is_fresh(
                slot,
                t.name,
                t.indexes[n - 1].column,
            )
    }
}

fn is_column_of(schema: &TableSchema, column: &str, ty: ColumnType) -> (r: bool)
    ensures
        r == has_column_of(schema@, column@, ty),
{
    match schema.column(column) {
        Some(c) => c.ty == ty,
        None => false,
    }
}

fn check_vector_columns(schema: &TableSchema) -> (r: Result<(), Error>)
    ensures
        match first_other(schema@, vector_columns(schema@), ColumnType::Vector, 0) {
            Some(i) => r is Err && r->Err_0@ == ErrorView::SchemaViolation(
                "vector index over non-vector column '"@ + vector_columns(schema@)[i] + "'"@,
            ),
            None => r is Ok,
        },
{
    let ghost t = schema@;
    let ghost names = vector_columns(t);
    let mut i: usize = 0;
    while i < schema.vector_indexes.len()
        invariant
            t == schema@,
            names == vector_columns(t),
            i <= schema.vector_indexes@.len(),
            first_other(t, names, ColumnType::Vector, 0) == first_other(t, names, ColumnType::Vector, i as int),
        decreases schema.vector_indexes@.len() - i,
    {
        let column = schema.vector_indexes[i].column.as_str();
        assert(names[i as int] == column@);
        if !is_column_of(schema, column, ColumnType::Vector) {
            return Err(Error::SchemaViolation("vector index over non-vector column '".to_owned().concat(column).concat("'")));
        }
        i = i + 1;
    }
    Ok(())
}

fn check_text_columns(schema: &TableSchema) -> (r: Result<(), Error>)
    ensures
        match first_other(schema@, text_columns(schema@), ColumnType::Text, 0) {
            Some(i) => r is Err && r->Err_0@ == ErrorView::SchemaViolation(
                "text index over non-text column '"@ + text_columns(schema@)[i] + "'"@,
            ),
            None => r is Ok,
        },
{
    let ghost t = schema@;
    let ghost names = text_columns(t);
    let mut i: usize = 0;
    while i < schema.text_indexes.len()
        invariant
            t == schema@,
            names == text_columns(t),
            i <= schema.text_indexes@.len(),
            first_other(t, names, ColumnType::Text, 0) == first_other(t, names, ColumnType::Text, i as int),
        decreases schema.text_indexes@.len() - i,
    {
        let column = schema.text_indexes[i].column.as_str();
        assert(names[i as int] == column@);
        if !is_column_of(schema, column, ColumnType::Text) {
            return Err(Error::SchemaViolation("text index over non-text column '".to_owned().concat(column).concat("'")));
        }
        i = i + 1;
    }
    Ok(())
}

impl State {
    /// Create a table. It owns only what is committed from now on: anything
    /// older under its name belongs to a table that was dropped. Indexes of a
    /// refused table that were begun before its fault was found stay, empty.
    /// `sound` is what came of validating the schema on its own.
    pub fn create_table(&mut self, read_only: bool, sound: Result<(), Error>, schema: TableSchema) -> (r: Result<(), Error>)
        requires
            old(self).wf(),
            state::schema_fits(schema@),
        ensures
            final(self).wf(),
            final(self).keeps_records(old(self)),
            crate::error::error_of(r) == table_complaint(old(self), read_only, crate::error::error_of(sound), schema@),
            r is Ok ==> final(self).catalog@ == old(self).catalog@.push(
                TableView { epoch: old(self).committed_version, ..schema@ },
            ),
            r is Err ==> final(self).catalog@ == old(self).catalog@,
            if read_only || sound is Err || old(self).table_view(schema@.name) is Some {
                final(self).secondary@ == old(self).secondary@
            } else {
                slots_begun(old(self).secondary@, schema@, sound_until(schema@, 0), final(self).secondary@)
            },
    {
        if read_only {
            return Err(Error::ReadOnly);
        }
        match sound {
            Ok(()) => {},
            Err(e) => {
                return Err(e);
            },
        }
        let ghost t = schema@;
        let mut made = schema;
        if self.catalog.table(made.name.as_str()).is_some() {
            return Err(Error::TableExists(made.name));
        }
        let ghost first = *self;
        let mut i: usize = 0;
        while i < made.indexes.len()
            invariant
                sound is Ok,
                t == schema@,
                t == made@,
                i <= made.indexes@.len(),
                self.wf(),
                self.keeps_records(&first),
                self.catalog == first.catalog,
                first == *old(self),
                !read_only,
                first.table_view(t.name) is None,
                sound_until(t, 0) == sound_until(t, i as int),
                slots_begun(first.secondary@, t, i as int, self.secondary@),
            decreases made.indexes@.len() - i,
        {
            let column = made.indexes[i].column.as_str();
            assert(t.indexes[i as int].column == column@);
            if made.column(column).is_none() {
                return Err(Error::SchemaViolation("index over unknown column '".to_owned().concat(column).concat("'")));
            }
            let ghost mid = self.secondary@;
            let slot = SecSlot {
                table: made.name.clone(),
                column: column.to_owned(),
                index: SecIdx::resident(CowMap::new()),
            };
            self.put_slot(slot);
            proof {
                assert(slots_begun(first.secondary@, t, (i + 1) - 1, mid));
                assert(slot_put(mid, slot, self.secondary@));
                assert(is_fresh(slot, t.name, t.indexes[(i + 1) - 1].column));
                assert(slots_begun(first.secondary@, t, i + 1, self.secondary@));
            }
            i = i + 1;
        }
        match check_vector_columns(&made) {
            Err(e) => {
                return Err(e);
            },
            Ok(_) => {},
        }
        match check_text_columns(&made) {
            Err(e) => {
                return Err(e);
            },
            Ok(_) => {},
        }
        made.epoch = self.committed_version;
        let ghost before = self.catalog@;
        self.catalog.tables.push(made);
        proof {
            assert(self.catalog@ =~= before.push(TableView { epoch: first.committed_version, ..t }));
            assert forall|k: int| 0 <= k < self.catalog@.len() implies state::schema_fits(#[trigger] self.catalog@[k]) by {
                if k < before.len() {
                    assert(self.catalog@[k] == before[k]);
                } else {
                    assert(state::schema_fits(t));
                }
            }
        }
        Ok(())
    }
}

// ---- Creating an index ------------------------------------------------------

/// The kinds of index that a column can have.
#[derive(Clone, Copy, PartialEq, Eq, Structural, Debug)]
pub enum IndexKind {
    Secondary,
    Vector,
    Text,
}

/// Whether a column has an index of the kind.
pub open spec fn has_index(t: TableView, column: Seq<char>, kind: IndexKind) -> bool {
    match kind {
        IndexKind::Secondary => ddl::has_label::<IndexDef>(t.indexes, column),
        IndexKind::Vector => ddl::has_label::<VectorIndexDef>(t.vector_indexes, column),
        IndexKind::Text => ddl::has_label::<TextIndexDef>(t.text_indexes, column),
    }
}

fn is_indexed(schema: &TableSchema, column: &str, kind: IndexKind) -> (r: bool)
    ensures
        r == has_index(schema@, column@, kind),
{
    match kind {
        IndexKind::Secondary => any_labeled(&schema.indexes, column),
        IndexKind::Vector => any_labeled(&schema.vector_indexes, column),
        IndexKind::Text => any_labeled(&schema.text_indexes, column),
    }
}

pub open spec fn dotted(table: Seq<char>, column: Seq<char>) -> Seq<char> {
    table + "."@ + column
}

/// What a column's type has against an index of the kind.
pub open spec fn type_complaint(table: Seq<char>, column: Seq<char>, ty: ColumnType, kind: IndexKind) -> Option<ErrorView> {
    match kind {
        IndexKind::Secondary => if ty == ColumnType::Vector {
            Some(ErrorView::SchemaViolation(dotted(table, column) + " is a vector column; use create_vector_index"@))
        } else {
            None
        },
        IndexKind::Vector => if ty != ColumnType::Vector {
            Some(ErrorView::SchemaViolation(dotted(table, column) + " is not a vector column"@))
        } else {
            None
        },
        IndexKind::Text => if ty != ColumnType::Text {
            Some(ErrorView::SchemaViolation(dotted(table, column) + " is not a text column"@))
        } else {
            None
        },
    }
}

pub open spec fn kind_name(kind: IndexKind) -> Seq<char> {
    match kind {
        IndexKind::Secondary => "index on "@,
        IndexKind::Vector => "vector index on "@,
        IndexKind::Text => "text index on "@,
    }
}

/// Why an index of the kind cannot be created.
pub open spec fn index_complaint(st: &State, read_only: bool, table: Seq<char>, column: Seq<char>, kind: IndexKind) -> Option<ErrorView> {
    if read_only {
        Some(ErrorView::ReadOnly)
    } else {
        match st.table_view(table) {
            None => Some(ErrorView::TableNotFound(table)),
            Some(t) => match schema::column_of(t.columns, column) {
                None => Some(record::unknown_column(column)),
                Some(c) => match type_complaint(table, column, c.ty, kind) {
                    Some(e) => Some(e),
                    None => if has_index(t, column, kind) {
                        Some(ErrorView::InvalidArgument(kind_name(kind) + dotted(table, column) + " already exists"@))
                    } else {
                        None
                    },
                },
            },
        }
    }
}

pub fn dotted_text(table: &str, column: &str) -> (r: String)
    ensures
        r@ == dotted(table@, column@),
{
    table.to_owned().concat(".").concat(column)
}

fn check_type(table: &str, column: &str, ty: ColumnType, kind: IndexKind) -> (r: Result<(), Error>)
    ensures
        crate::error::error_of(r) == type_complaint(table@, column@, ty, kind),
{
    match kind {
        IndexKind::Secondary => {
            if ty == ColumnType::Vector {
                return Err(
                    Error::SchemaViolation(dotted_text(table, column).concat(" is a vector column; use create_vector_index")),
                );
            }
        },
        IndexKind::Vector => {
            if ty != ColumnType::Vector {
                return Err(Error::SchemaViolation(dotted_text(table, column).concat(" is not a vector column")));
            }
        },
        IndexKind::Text => {
            if ty != ColumnType::Text {
                return Err(Error::SchemaViolation(dotted_text(table, column).concat(" is not a text column")));
            }
        },
    }
    Ok(())
}

/// Whether one key of an equality index leads to two records.
pub open spec fn repeats(rows: Seq<(Seq<u8>, Seq<u8>)>) -> bool {
    exists|i: int, j: int| 0 <= i < j < rows.len() && same_key(rows, i, j)
}

pub open spec fn same_key(rows: Seq<(Seq<u8>, Seq<u8>)>, i: int, j: int) -> bool {
    key_at(rows, i) is Some && key_at(rows, i) == key_at(rows, j)
}

pub open spec fn key_at(rows: Seq<(Seq<u8>, Seq<u8>)>, i: int) -> Option<Seq<u8>> {
    match secondary::pair_parts(rows[i].0) {
        Ok((key, _)) => Some(key),
        Err(_) => None,
    }
}

/// A row that is no pair.
pub open spec fn bad_row(rows: Seq<(Seq<u8>, Seq<u8>)>, i: int, m: Seq<char>) -> bool {
    0 <= i < rows.len() && rows[i].0 != secondary::format_key() && secondary::pair_parts(rows[i].0) == Err::<
        (Seq<u8>, Seq<u8>),
        Seq<char>,
    >(m)
}

/// A pair begins with the prefix of its key.
proof fn lemma_parts_prefix(pair: Seq<u8>)
    requires
        secondary::pair_parts(pair) is Ok,
    ensures
        secondary::pair_parts(pair)->Ok_0.0.len() <= u32::MAX,
        secondary::pair_prefix(secondary::pair_parts(pair)->Ok_0.0).is_prefix_of(pair),
{
    let key = secondary::pair_parts(pair)->Ok_0.0;
    bytes::lemma_radix_small();
    bytes::lemma_be_value_bound(pair.subrange(1, 5));
    bytes::lemma_be_of_value(pair.subrange(1, 5));
    let p = secondary::pair_prefix(key);
    bytes::lemma_be_len(key.len(), 4);
    assert(pair.subrange(0, p.len() as int) =~= p) by {
        assert forall|i: int| 0 <= i < p.len() implies pair[i] == p[i] by {
            if 1 <= i < 5 {
                assert(pair.subrange(1, 5)[i - 1] == bytes::be(key.len(), 4)[i - 1]);
            } else if i >= 5 {
                assert(key[i - 5] == pair[i]);
            }
        }
    }
}

/// Where rows are in order, what lies between two rows of a key is of that key.
proof fn lemma_between(rows: Seq<(Seq<u8>, Seq<u8>)>, i: int, k: int, n: int)
    requires
        paged::in_order(rows),
        0 <= i <= k < n < rows.len(),
        same_key(rows, i, n),
        key_at(rows, k) is Some,
    ensures
        key_at(rows, k) == key_at(rows, n),
{
    let key = key_at(rows, n)->0;
    let p = secondary::pair_prefix(key);
    lemma_parts_prefix(rows[i].0);
    lemma_parts_prefix(rows[n].0);
    assert(bytes::lex_le(rows[i].0, rows[k].0) && bytes::lex_le(rows[k].0, rows[n].0));
    bytes::lemma_prefix_convex(p, rows[i].0, rows[k].0, rows[n].0);
    secondary::lemma_parts_of_prefix(key, rows[k].0);
    lemma_parts_prefix(rows[k].0);
    let mine = key_at(rows, k)->0;
    secondary::lemma_parts_of_prefix(mine, rows[k].0);
    let id = secondary::pair_parts(rows[k].0)->Ok_0.1;
    secondary::lemma_pair_injective(key, id, mine, id);
}

/// Whether no key of an equality index leads to two records.
fn check_unique(run: &PagedIndex, table: &str, column: &str) -> (r: Result<(), Error>)
    requires
        run.wf(),
    ensures
        match r {
            Ok(_) => !repeats(run.rows()),
            Err(e) => (repeats(run.rows()) && e@ == ErrorView::UniqueViolation { table: table@, column: column@ }) || exists|
                i: int,
                m: Seq<char>,
            | #[trigger] bad_row(run.rows(), i, m) && e@ == ErrorView::Corrupt(m),
        },
{
    let ghost rows = run.rows();
    proof {
        run.lemma_wf();
    }
    let format = crate::secondary::secondary_format_row();
    let mut previous: Option<Vec<u8>> = None;
    let ghost mut at: int = -1;
    let mut n: usize = 0;
    while n < run.len()
        invariant
            run.wf(),
            rows == run.rows(),
            paged::in_order(rows),
            format.key@ == secondary::format_key(),
            n <= rows.len(),
            -1 <= at < n,
            at >= 0 ==> previous is Some && key_at(rows, at) == Some(previous->0@),
            at < 0 ==> previous is None,
            forall|i: int| at < i < n ==> key_at(rows, i) is None,
            forall|i: int, j: int| 0 <= i < j < n ==> !#[trigger] same_key(rows, i, j),
        decreases rows.len() - n,
    {
        let pair = run.key_at(n);
        if bytes::same_bytes(pair, format.key.as_slice()) {
            assert(key_at(rows, n as int) is None);
        } else {
            let key = match secondary_pair_parts(pair) {
                Err(e) => {
                    assert(bad_row(rows, n as int, secondary::pair_parts(rows[n as int].0)->Err_0));
                    return Err(e);
                },
                Ok((key, _)) => key,
            };
            let repeated = match &previous {
                Some(p) => bytes::same_bytes(p.as_slice(), key.as_slice()),
                None => false,
            };
            if repeated {
                assert(same_key(rows, at, n as int));
                return Err(Error::UniqueViolation { table: table.to_owned(), column: column.to_owned() });
            }
            proof {
                assert forall|i: int, j: int| 0 <= i < j < n + 1 implies !#[trigger] same_key(rows, i, j) by {
                    if j == n && same_key(rows, i, j) {
                        lemma_between(rows, i, at, n as int);
                    }
                }
                at = n as int;
            }
            previous = Some(key);
        }
        n = n + 1;
    }
    Ok(())
}

/// A catalog in which a table is changed.
pub open spec fn with_table(tables: Seq<TableView>, table: Seq<char>, t: TableView) -> Seq<TableView> {
    tables.update(model::find(schema::table_names(tables), table)->0, t)
}

/// An equality index that was made for a column, and the catalog that has it.
pub struct BuiltIndex {
    pub catalog: Catalog,
    pub run: PagedIndex,
}

impl State {
    /// Whether an index of a kind may be created.
    pub fn check_index(&self, read_only: bool, table: &str, column: &str, kind: IndexKind) -> (r: Result<usize, Error>)
        ensures
            crate::error::error_of(r) == index_complaint(self, read_only, table@, column@, kind),
            r matches Ok(i) ==> model::find(schema::table_names(self.catalog@), table@) == Some(i as int) && i
                < self.catalog.tables@.len(),
    {
        if read_only {
            return Err(Error::ReadOnly);
        }
        let i = match self.catalog.table_position(table) {
            None => {
                return Err(table_not_found(table));
            },
            Some(i) => i,
        };
        let schema = &self.catalog.tables[i];
        let ty = match schema.column(column) {
            None => {
                return Err(Error::SchemaViolation("unknown column '".to_owned().concat(column).concat("'")));
            },
            Some(c) => c.ty,
        };
        match check_type(table, column, ty, kind) {
            Err(e) => {
                return Err(e);
            },
            Ok(_) => {},
        }
        if is_indexed(schema, column, kind) {
            let what = match kind {
                IndexKind::Secondary => "index on ",
                IndexKind::Vector => "vector index on ",
                IndexKind::Text => "text index on ",
            };
            return Err(
                Error::InvalidArgument(what.to_owned().concat(dotted_text(table, column).as_str()).concat(" already exists")),
            );
        }
        Ok(i)
    }

    /// Make an equality index over a column from what is committed. Nothing
    /// changes before the index is adopted.
    pub fn create_index(&self, read_only: bool, table: &str, column: &str, unique: bool) -> (r: Result<BuiltIndex, Error>)
        requires
            self.wf(),
        ensures
            match index_complaint(self, read_only, table@, column@, IndexKind::Secondary) {
                Some(e) => r is Err && r->Err_0@ == e,
                None => match r {
                    Ok(b) => {
                        let t = self.table_view(table@)->0;
                        &&& exists|groups: Seq<GroupView>|
                            #[trigger] derived::is_built(self, table@, column@, self.committed_version, groups, b.run)
                        &&& unique ==> !repeats(b.run.rows())
                        &&& b.catalog@ == with_table(
                            self.catalog@,
                            table@,
                            TableView { indexes: t.indexes.push(IndexView { column: column@, unique }), ..t },
                        )
                    },
                    Err(e) => derived::values_fault(self, table@, column@, e@) || (unique && exists|
                        groups: Seq<GroupView>,
                        run: PagedIndex,
                    |
                        #[trigger] derived::is_built(self, table@, column@, self.committed_version, groups, run) && unique_fault(
                            run.rows(),
                            table@,
                            column@,
                            e@,
                        )),
                },
            },
    {
        let i = match self.check_index(read_only, table, column, IndexKind::Secondary) {
            Err(e) => {
                return Err(e);
            },
            Ok(i) => i,
        };
        proof {
            self.lemma_table(table@);
        }
        let run = match write_secondary_from_canonical(self, table, column, self.committed_version) {
            Err(e) => {
                return Err(e);
            },
            Ok(run) => run,
        };
        let ghost groups = choose|groups: Seq<GroupView>|
            #[trigger] derived::is_built(self, table@, column@, self.committed_version, groups, run);
        if unique {
            match check_unique(&run, table, column) {
                Err(e) => {
                    assert(unique_fault(run.rows(), table@, column@, e@));
                    assert(derived::is_built(self, table@, column@, self.committed_version, groups, run));
                    return Err(e);
                },
                Ok(_) => {},
            }
        }
        let mut catalog = self.catalog.duplicate();
        let ghost t = self.table_view(table@)->0;
        assert(catalog.tables@.len() == catalog@.len());
        assert(catalog.tables@[i as int]@ == catalog@[i as int]);
        catalog.tables[i].indexes.push(IndexDef { column: column.to_owned(), unique });
        proof {
            let new = TableView { indexes: t.indexes.push(IndexView { column: column@, unique }), ..t };
            assert(catalog.tables@[i as int]@.indexes =~= new.indexes);
            assert(catalog.tables@[i as int]@ =~= new);
            assert(catalog@ =~= with_table(self.catalog@, table@, new));
        }
        let done: Result<BuiltIndex, Error> = Ok(BuiltIndex { catalog, run });
        assert(derived::is_built(self, table@, column@, self.committed_version, groups, done->Ok_0.run));
        done
    }

    /// Take an index into use once its file and the catalog are written.
    pub fn adopt_index(&mut self, table: &str, column: &str, built: BuiltIndex, file: String, bytes: u64)
        requires
            old(self).wf(),
            built.run.wf(),
            forall|i: int| 0 <= i < built.catalog@.len() ==> state::schema_fits(#[trigger] built.catalog@[i]),
        ensures
            final(self).wf(),
            final(self).keeps_records(old(self)),
            final(self).catalog == built.catalog,
            exists|slot: SecSlot|
                #[trigger] slot_put(old(self).secondary@, slot, final(self).secondary@) && is_based(
                    slot,
                    table@,
                    column@,
                    old(self).committed_version,
                    built.run,
                    (RunMetaView { file: file@, level: DERIVED_BASE_LEVEL, bytes, generation: old(self).committed_version }),
                ),
    {
        let version: u64 = self.committed_version;
        let BuiltIndex { catalog, run } = built;
        let meta = RunMeta { file, level: DERIVED_BASE_LEVEL, bytes, generation: version };
        let mut runs: Vec<Run> = Vec::new();
        runs.push(Run { meta, index: Arc::new(run) });
        let index = SecIdx { generation: version, runs, overlay: CowMap::new() };
        let slot = SecSlot { table: table.to_owned(), column: column.to_owned(), index };
        proof {
            let wanted = RunMetaView { file: file@, level: DERIVED_BASE_LEVEL, bytes, generation: version };
            assert(slot.index.runs@[0].meta@ =~= wanted);
            assert(is_based(slot, table@, column@, version, built.run, wanted));
        }
        let ghost before = self.secondary@;
        let ghost put = slot;
        self.put_slot(slot);
        self.catalog = catalog;
        proof {
            let wanted = RunMetaView { file: file@, level: DERIVED_BASE_LEVEL, bytes, generation: version };
            assert(slot_put(before, put, self.secondary@));
            assert(is_based(put, table@, column@, version, built.run, wanted));
        }
    }

    /// The catalog once a table has a vector index.
    pub fn with_vector_index(&self, read_only: bool, table: &str, def: VectorIndexDef) -> (r: Result<Catalog, Error>)
        ensures
            match vector_complaint(self, read_only, table@, def@) {
                Some(e) => r is Err && r->Err_0@ == e,
                None => {
                    let t = self.table_view(table@)->0;
                    r is Ok && r->Ok_0@ == with_table(
                        self.catalog@,
                        table@,
                        TableView { vector_indexes: t.vector_indexes.push(def@), ..t },
                    )
                },
            },
    {
        let i = match self.check_index(read_only, table, def.column.as_str(), IndexKind::Vector) {
            Err(e) => {
                return Err(e);
            },
            Ok(i) => i,
        };
        if def.m == 0 || def.m > 256 {
            return Err(invalid("m must be between 1 and 256"));
        }
        let mut catalog = self.catalog.duplicate();
        let ghost t = self.table_view(table@)->0;
        assert(catalog.tables@.len() == catalog@.len());
        assert(catalog.tables@[i as int]@ == catalog@[i as int]);
        catalog.tables[i].vector_indexes.push(def);
        proof {
            let new = TableView { vector_indexes: t.vector_indexes.push(def@), ..t };
            assert(catalog.tables@[i as int]@.vector_indexes =~= new.vector_indexes);
            assert(catalog.tables@[i as int]@ =~= new);
            assert(catalog@ =~= with_table(self.catalog@, table@, new));
        }
        Ok(catalog)
    }

    /// The catalog once a table has a text index.
    pub fn with_text_index(&self, read_only: bool, table: &str, column: &str) -> (r: Result<Catalog, Error>)
        ensures
            match index_complaint(self, read_only, table@, column@, IndexKind::Text) {
                Some(e) => r is Err && r->Err_0@ == e,
                None => {
                    let t = self.table_view(table@)->0;
                    r is Ok && r->Ok_0@ == with_table(
                        self.catalog@,
                        table@,
                        TableView { text_indexes: t.text_indexes.push(TextIndexView { column: column@ }), ..t },
                    )
                },
            },
    {
        let i = match self.check_index(read_only, table, column, IndexKind::Text) {
            Err(e) => {
                return Err(e);
            },
            Ok(i) => i,
        };
        let mut catalog = self.catalog.duplicate();
        let ghost t = self.table_view(table@)->0;
        assert(catalog.tables@.len() == catalog@.len());
        assert(catalog.tables@[i as int]@ == catalog@[i as int]);
        catalog.tables[i].text_indexes.push(TextIndexDef { column: column.to_owned() });
        proof {
            let new = TableView { text_indexes: t.text_indexes.push(TextIndexView { column: column@ }), ..t };
            assert(catalog.tables@[i as int]@.text_indexes =~= new.text_indexes);
            assert(catalog.tables@[i as int]@ =~= new);
            assert(catalog@ =~= with_table(self.catalog@, table@, new));
        }
        Ok(catalog)
    }
}

pub open spec fn vector_complaint(st: &State, read_only: bool, table: Seq<char>, def: VectorIndexView) -> Option<ErrorView> {
    match index_complaint(st, read_only, table, def.column, IndexKind::Vector) {
        Some(e) => Some(e),
        None => if def.m == 0 || def.m > 256 {
            Some(ErrorView::InvalidArgument("m must be between 1 and 256"@))
        } else {
            None
        },
    }
}

/// Why an index that was made does not serve as a unique one.
pub open spec fn unique_fault(rows: Seq<(Seq<u8>, Seq<u8>)>, table: Seq<char>, column: Seq<char>, e: ErrorView) -> bool {
    ||| repeats(rows) && e == ErrorView::UniqueViolation { table, column }
    ||| exists|i: int, m: Seq<char>| #[trigger] bad_row(rows, i, m) && e == ErrorView::Corrupt(m)
}

/// An index whose only run is the given one.
pub open spec fn is_based(slot: SecSlot, table: Seq<char>, column: Seq<char>, version: u64, run: PagedIndex, meta: RunMetaView) -> bool {
    &&& slot.table@ == table
    &&& slot.column@ == column
    &&& slot.index.generation == version
    &&& slot.index.overlay@ == Map::<Seq<u8>, PairChange>::empty()
    &&& slot.index.runs@.len() == 1
    &&& *slot.index.runs@[0].index == run
    &&& slot.index.runs@[0].meta@ == meta
}

/// A vector index may not outgrow the memory for making it.
pub fn check_build_memory(table: &str, column: &str, bytes: usize, limit: usize) -> (r: Result<(), Error>)
    ensures
        r is Ok <==> bytes <= limit,
        r matches Err(e) ==> e@ == ErrorView::MemoryLimit(
            "building vector index "@ + dotted(table@, column@) + " exceeds memory.maintenance_pool_bytes"@,
        ),
{
    if bytes > limit {
        return Err(
            Error::MemoryLimit(
                "building vector index ".to_owned().concat(dotted_text(table, column).as_str()).concat(
                    " exceeds memory.maintenance_pool_bytes",
                ),
            ),
        );
    }
    Ok(())
}

// ---- Dropping ---------------------------------------------------------------

/// The records among the first ones of a listing that are not deleted.
pub open spec fn live_count(groups: Seq<GroupView>, n: int) -> int
    decreases n,
{
    if n <= 0 {
        0
    } else {
        live_count(groups, n - 1) + if is_live(groups[n - 1]) {
            1int
        } else {
            0int
        }
    }
}

pub open spec fn is_live(g: GroupView) -> bool {
    g.versions.len() > 0 && !g.versions.last().kind.is_tombstone()
}

pub fn group_is_live(g: &Group) -> (r: bool)
    ensures
        r == is_live(g@),
{
    let n: usize = g.versions.len();
    if n == 0 {
        return false;
    }
    assert(g@.versions.last() == g.versions@[n - 1]@);
    !g.versions[n - 1].is_tombstone()
}

/// What dropping a table takes away, and the catalog that is left.
pub struct DroppedTable {
    pub catalog: Catalog,
    /// The records that nothing reaches any more.
    pub rows: u64,
    /// The columns whose stored graphs are to go.
    pub vector_columns: Vec<String>,
}

pub open spec fn is_dropped(st: &State, table: Seq<char>, groups: Seq<GroupView>, d: DroppedTable) -> bool {
    &&& derived::lists_table(st, table, groups)
    &&& d.rows == crate::segment::capped64(live_count(groups, groups.len() as int))
    &&& d.catalog@ == ddl::drop_labeled::<TableSchema>(st.catalog@, table)
    &&& model::views(d.vector_columns@) == vector_columns(st.table_view(table)->0)
}

fn graph_columns(schema: &TableSchema) -> (r: Vec<String>)
    ensures
        model::views(r@) == vector_columns(schema@),
{
    let mut out: Vec<String> = Vec::new();
    let mut i: usize = 0;
    while i < schema.vector_indexes.len()
        invariant
            i <= schema.vector_indexes@.len(),
            out@.len() == i,
            forall|j: int| 0 <= j < i ==> (#[trigger] out@[j])@ == schema.vector_indexes@[j].column@,
        decreases schema.vector_indexes@.len() - i,
    {
        out.push(schema.vector_indexes[i].column.clone());
        i = i + 1;
    }
    assert(model::views(out@) =~= vector_columns(schema@));
    out
}

fn count_live(groups: &Vec<Group>) -> (r: u64)
    ensures
        r == crate::segment::capped64(live_count(model::views(groups@), groups@.len() as int)),
{
    let ghost all = model::views(groups@);
    let mut rows: u64 = 0;
    let mut i: usize = 0;
    while i < groups.len()
        invariant
            i <= groups@.len(),
            all == model::views(groups@),
            rows == crate::segment::capped64(live_count(all, i as int)),
            live_count(all, i as int) >= 0,
        decreases groups@.len() - i,
    {
        assert(all[i as int] == groups@[i as int]@);
        if group_is_live(&groups[i]) {
            rows = rows.saturating_add(1);
        }
        i = i + 1;
    }
    rows
}

/// The indexes of other tables.
pub open spec fn other_tables(table: Seq<char>) -> spec_fn(SecSlot) -> bool {
    |s: SecSlot| s.table@ != table
}

/// The indexes of other columns.
pub open spec fn other_columns(table: Seq<char>, column: Seq<char>) -> spec_fn(SecSlot) -> bool {
    |s: SecSlot| s.table@ != table || s.column@ != column
}

/// Leaving slots out keeps the others apart and well formed.
proof fn lemma_slots_filtered(slots: Seq<SecSlot>, f: spec_fn(SecSlot) -> bool)
    requires
        state::slots_distinct(slots),
        forall|i: int| 0 <= i < slots.len() ==> (#[trigger] slots[i]).index.wf(),
    ensures
        state::slots_distinct(slots.filter(f)),
        forall|i: int| 0 <= i < slots.filter(f).len() ==> (#[trigger] slots.filter(f)[i]).index.wf(),
        forall|i: int| 0 <= i < slots.filter(f).len() ==> slots.contains(#[trigger] slots.filter(f)[i]),
    decreases slots.len(),
{
    reveal(Seq::filter);
    if slots.len() > 0 {
        let head = slots.drop_last();
        let kept = head.filter(f);
        assert(state::slots_distinct(head)) by {
            assert forall|i: int, j: int| 0 <= i < j < head.len() implies (#[trigger] head[i]).table@ != (#[trigger] head[j]).table@
                || head[i].column@ != head[j].column@ by {
                assert(head[i] == slots[i] && head[j] == slots[j]);
            }
        }
        assert forall|i: int| 0 <= i < head.len() implies (#[trigger] head[i]).index.wf() by {
            assert(head[i] == slots[i]);
        }
        lemma_slots_filtered(head, f);
        assert forall|i: int| 0 <= i < slots.filter(f).len() implies slots.contains(#[trigger] slots.filter(f)[i]) by {
            if i < kept.len() {
                assert(slots.filter(f)[i] == kept[i]);
                assert(head.contains(kept[i]));
                let k = head.index_of(kept[i]);
                assert(slots[k] == kept[i]);
            } else {
                assert(slots[slots.len() - 1] == slots.last());
            }
        }
        assert forall|i: int| 0 <= i < slots.filter(f).len() implies (#[trigger] slots.filter(f)[i]).index.wf() by {
            let k = slots.index_of(slots.filter(f)[i]);
            assert(slots[k].index.wf());
        }
        if f(slots.last()) {
            let all = kept.push(slots.last());
            assert forall|i: int, j: int| 0 <= i < j < all.len() implies (#[trigger] all[i]).table@ != (#[trigger] all[j]).table@
                || all[i].column@ != all[j].column@ by {
                if j < kept.len() {
                    assert(kept[i] == all[i] && kept[j] == all[j]);
                } else {
                    assert(head.contains(kept[i]));
                    let k = head.index_of(kept[i]);
                    assert(slots[k] == all[i]);
                    assert(slots[slots.len() - 1] == all[j]);
                }
            }
        }
    }
}

impl State {
    /// What dropping a table comes to. Nothing changes before the catalog is
    /// written.
    pub fn plan_drop_table(&self, read_only: bool, table: &str) -> (r: Result<DroppedTable, Error>)
        requires
            self.wf(),
        ensures
            if read_only {
                r is Err && r->Err_0@ is ReadOnly
            } else if self.table_view(table@) is None {
                r is Err && r->Err_0@ == ErrorView::TableNotFound(table@)
            } else {
                match r {
                    Ok(d) => exists|groups: Seq<GroupView>| #[trigger] is_dropped(self, table@, groups, d),
                    Err(e) => exists|key: Seq<u8>, m: Seq<char>|
                        #[trigger] self.index.is_fault(encode_utf8(table@), key, m) && e@ == ErrorView::Corrupt(m),
                }
            },
    {
        if read_only {
            return Err(Error::ReadOnly);
        }
        let schema = match self.catalog.table(table) {
            None => {
                return Err(table_not_found(table));
            },
            Some(t) => t,
        };
        proof {
            self.lemma_table(table@);
        }
        let vector_columns = graph_columns(schema);
        let groups = match self.index.visit_table(table, None, None) {
            Err(e) => {
                return Err(e);
            },
            Ok(groups) => groups,
        };
        let rows: u64 = count_live(&groups);
        let catalog = Catalog { tables: drop_each(&self.catalog.tables, table) };
        let done: Result<DroppedTable, Error> = Ok(DroppedTable { catalog, rows, vector_columns });
        proof {
            assert(done->Ok_0.catalog@ =~= ddl::drop_labeled::<TableSchema>(self.catalog@, table@));
            assert(is_dropped(self, table@, model::views(groups@), done->Ok_0));
        }
        done
    }

    /// Drop a table once the catalog without it is written. Its records in runs
    /// and segments stay, out of reach, until the next compaction.
    pub fn drop_table(&mut self, table: &str, catalog: Catalog)
        requires
            old(self).wf(),
            encode_utf8(table@).len() <= u32::MAX,
            forall|i: int| 0 <= i < catalog@.len() ==> state::schema_fits(#[trigger] catalog@[i]),
        ensures
            final(self).wf(),
            final(self).catalog == catalog,
            final(self).committed_version == old(self).committed_version,
            final(self).index.generation == old(self).index.generation,
            final(self).index.runs == old(self).index.runs,
            final(self).index.frozen == old(self).index.frozen,
            final(self).index.delta@ == visit::without_prefix(
                old(self).index.delta@,
                version::table_prefix(encode_utf8(table@)),
            ),
            final(self).secondary@ == old(self).secondary@.filter(other_tables(table@)),
            final(self).high_ids == old(self).high_ids,
            final(self).superseded == old(self).superseded,
            final(self).identities == old(self).identities,
            final(self).segments == old(self).segments,
            final(self).metas == old(self).metas,
            final(self).next_segment_id == old(self).next_segment_id,
            final(self).blobs == old(self).blobs,
    {
        let ghost slots = self.secondary@;
        let ghost f = other_tables(table@);
        self.catalog = catalog;
        self.index.remove_delta_table(table);
        let mut waiting: Vec<SecSlot> = Vec::new();
        std::mem::swap(&mut waiting, &mut self.secondary);
        let kept = keep_slots(waiting, table, None);
        self.secondary = kept;
        proof {
            assert(kept_slots(table@, None) =~= f);
            lemma_slots_filtered(slots, f);
        }
    }

    /// The catalog without an index.
    pub fn plan_drop_index(&self, read_only: bool, table: &str, column: &str, kind: IndexKind) -> (r: Result<Catalog, Error>)
        ensures
            if read_only {
                r is Err && r->Err_0@ is ReadOnly
            } else {
                match self.table_view(table@) {
                    None => r is Err && r->Err_0@ == ErrorView::TableNotFound(table@),
                    Some(t) => if !has_index(t, column@, kind) {
                        r is Err && r->Err_0@ == ErrorView::IndexNotFound { table: table@, column: column@ }
                    } else {
                        r is Ok && r->Ok_0@ == with_table(self.catalog@, table@, without_index(t, column@, kind))
                    },
                }
            },
    {
        if read_only {
            return Err(Error::ReadOnly);
        }
        let i = match self.catalog.table_position(table) {
            None => {
                return Err(table_not_found(table));
            },
            Some(i) => i,
        };
        if !is_indexed(&self.catalog.tables[i], column, kind) {
            return Err(Error::IndexNotFound { table: table.to_owned(), column: column.to_owned() });
        }
        let mut catalog = self.catalog.duplicate();
        let ghost t = self.table_view(table@)->0;
        assert(catalog.tables@.len() == catalog@.len());
        assert(catalog.tables@[i as int]@ == catalog@[i as int]);
        match kind {
            IndexKind::Secondary => {
                let kept = drop_each(&catalog.tables[i].indexes, column);
                catalog.tables[i].indexes = kept;
            },
            IndexKind::Vector => {
                let kept = drop_each(&catalog.tables[i].vector_indexes, column);
                catalog.tables[i].vector_indexes = kept;
            },
            IndexKind::Text => {
                let kept = drop_each(&catalog.tables[i].text_indexes, column);
                catalog.tables[i].text_indexes = kept;
            },
        }
        proof {
            let new = without_index(t, column@, kind);
            assert(catalog.tables@[i as int]@ =~= new);
            assert(catalog@ =~= with_table(self.catalog@, table@, new));
        }
        Ok(catalog)
    }

    /// Drop the equality index of a column once the catalog without it is
    /// written. The records are untouched.
    pub fn drop_index(&mut self, table: &str, column: &str, catalog: Catalog)
        requires
            old(self).wf(),
            forall|i: int| 0 <= i < catalog@.len() ==> state::schema_fits(#[trigger] catalog@[i]),
        ensures
            final(self).wf(),
            final(self).keeps_records(old(self)),
            final(self).catalog == catalog,
            final(self).secondary@ == old(self).secondary@.filter(other_columns(table@, column@)),
    {
        let ghost slots = self.secondary@;
        let ghost f = other_columns(table@, column@);
        self.catalog = catalog;
        let mut waiting: Vec<SecSlot> = Vec::new();
        std::mem::swap(&mut waiting, &mut self.secondary);
        let kept = keep_slots(waiting, table, Some(column));
        self.secondary = kept;
        proof {
            assert(kept_slots(table@, Some(column@)) =~= f);
            lemma_slots_filtered(slots, f);
        }
    }
}

/// A table without the indexes of a kind on a column.
pub open spec fn without_index(t: TableView, column: Seq<char>, kind: IndexKind) -> TableView {
    match kind {
        IndexKind::Secondary => TableView { indexes: ddl::drop_labeled::<IndexDef>(t.indexes, column), ..t },
        IndexKind::Vector => TableView { vector_indexes: ddl::drop_labeled::<VectorIndexDef>(t.vector_indexes, column), ..t },
        IndexKind::Text => TableView { text_indexes: ddl::drop_labeled::<TextIndexDef>(t.text_indexes, column), ..t },
    }
}

spec fn kept_slots(table: Seq<char>, column: Option<Seq<char>>) -> spec_fn(SecSlot) -> bool {
    match column {
        None => other_tables(table),
        Some(c) => other_columns(table, c),
    }
}

fn keep_slots(slots: Vec<SecSlot>, table: &str, column: Option<&str>) -> (r: Vec<SecSlot>)
    ensures
        r@ == slots@.filter(kept_slots(table@, crate::reads::str_view(column))),
{
    let ghost all = slots@;
    let ghost f = kept_slots(table@, crate::reads::str_view(column));
    let mut left = slots;
    let mut out: Vec<SecSlot> = Vec::new();
    proof {
        reveal(Seq::filter);
        assert(out@ =~= all.subrange(0, 0).filter(f));
        assert(left@ =~= all.subrange(0, all.len() as int));
    }
    let total: usize = left.len();
    let mut i: usize = 0;
    while left.len() > 0
        invariant
            total == all.len(),
            f == kept_slots(table@, crate::reads::str_view(column)),
            i + left@.len() == all.len(),
            left@ =~= all.subrange(i as int, all.len() as int),
            out@ == all.subrange(0, i as int).filter(f),
        decreases left@.len(),
    {
        let ghost was = out@;
        let slot = left.remove(0);
        proof {
            reveal(Seq::filter);
            let s = all.subrange(0, i + 1);
            assert(s.drop_last() =~= all.subrange(0, i as int));
            assert(s.last() == slot);
        }
        let kept = match column {
            None => !same_text(slot.table.as_str(), table),
            Some(c) => !same_text(slot.table.as_str(), table) || !same_text(slot.column.as_str(), c),
        };
        if kept {
            out.push(slot);
        }
        i = i + 1;
    }
    assert(all.subrange(0, i as int) =~= all);
    out
}

// ---- Laws -------------------------------------------------------------------

/// A table that was dropped is gone for every reader, of whatever version.
pub proof fn lemma_dropped_is_gone(before: &State, after: &State, table: Seq<char>, id: Seq<char>, max: u64)
    requires
        after.catalog@ == ddl::drop_labeled::<TableSchema>(before.catalog@, table),
    ensures
        after.table_view(table) is None,
        after.row(table, id, max) == Err::<Option<record::RecordView>, ErrorView>(ErrorView::TableNotFound(table)),
{
    let kept = after.catalog@;
    lemma_kept_labels(before.catalog@, table);
    let names = schema::table_names(kept);
    assert forall|j: int| 0 <= j < names.len() implies names[j] != table by {
        assert(kept[j].name != table);
    }
    model::lemma_find_none(names, table);
}

proof fn lemma_kept_labels(tables: Seq<TableView>, table: Seq<char>)
    ensures
        forall|j: int|
            0 <= j < ddl::drop_labeled::<TableSchema>(tables, table).len() ==> (#[trigger] ddl::drop_labeled::<TableSchema>(
                tables,
                table,
            )[j]).name != table,
    decreases tables.len(),
{
    reveal(Seq::filter);
    if tables.len() > 0 {
        lemma_kept_labels(tables.drop_last(), table);
    }
}

/// A table that is created under the name of a dropped one shows none of its
/// records: its epoch is the version at which it was created.
pub proof fn lemma_recreated_is_empty(st: &State, t: TableView, id: Seq<u8>, max: u64)
    requires
        st.versions_ok(),
        st.table_view(t.name) == Some(t),
        t.epoch == st.committed_version,
    ensures
        !st.shows(t.name, id, max),
{
    if st.versions(t.name, id) is Ok {
        let s = st.versions(t.name, id)->Ok_0;
        crate::primary::lemma_newest_of(s, max);
        match crate::primary::newest_of(s, max) {
            Some(v) => {
                let k = s.index_of(v);
                assert(s[k].version <= st.committed_version);
            },
            None => {},
        }
    }
}

} // verus!
